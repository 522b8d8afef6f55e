//! Shared allocation plumbing: layout descriptions, the allocation
//! error, and the default backing-allocator marker.

use vstd::prelude::*;
use vstd::arithmetic::div_mod::{
    lemma_fundamental_div_mod, lemma_fundamental_div_mod_converse, lemma_mod_bound,
    lemma_mod_multiples_basic, lemma_mod_self_0,
};

verus! {

/// A memory request: a size and an alignment, both in bytes.
#[derive(Clone, Copy, Debug, PartialEq, Eq, Structural)]
pub struct Layout {
    pub size: usize,
    pub align: usize,
}

impl Layout {
    /// A layout is meaningful only with a non-zero alignment.
    pub open spec fn wf(&self) -> bool {
        self.align >= 1
    }

    pub fn from_size_align(size: usize, align: usize) -> (r: Self)
        requires
            align >= 1,
        ensures
            r.size == size,
            r.align == align,
            r.wf(),
    {
        Layout { size, align }
    }
}

/// Failure of an allocation request: the backing store is exhausted or
/// a size computation would overflow the address arithmetic.
#[derive(Clone, Copy, Debug, PartialEq, Eq, Structural)]
pub struct AllocError;

/// Marker for the default backing allocator.  The structures here own
/// their storage outright, so the marker carries no state; it exists so
/// that every component can also be constructed over a caller-supplied
/// backing allocator value via its `new_in` constructor.
#[derive(Clone, Copy, Debug, PartialEq, Eq, Structural)]
pub struct Global;

/// Rounding a cursor up to an alignment lands on a multiple of it,
/// and skips less than one alignment unit.
pub proof fn lemma_align_up(p: int, a: int)
    requires
        a >= 1,
        p >= 0,
    ensures
        0 <= (a - p % a) % a < a,
        (p + (a - p % a) % a) % a == 0,
{
    lemma_mod_bound(p, a);
    lemma_fundamental_div_mod(p, a);
    let q = p / a;
    if p % a == 0 {
        lemma_mod_self_0(a);
        assert((a - p % a) % a == 0);
        lemma_mod_multiples_basic(q, a);
    } else {
        lemma_mod_bound(a - p % a, a);
        lemma_fundamental_div_mod_converse(a - p % a, a, 0, a - p % a);
        assert((a - p % a) % a == a - p % a);
        assert(p + (a - p % a) == (q + 1) * a) by (nonlinear_arith)
            requires p == a * q + p % a;
        lemma_mod_multiples_basic(q + 1, a);
    }
}

} // verus!
