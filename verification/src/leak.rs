//! Leak-by-design allocation for scenarios where lifetime management
//! is more important than prompt cleanup.
//!
//! Two tools live here.  [`LeakedArena`] is the one-shot leak/recover
//! extension of the chunked arena: `leak` converts an owned arena
//! into a handle whose teardown is deferred, and `recover` consumes
//! the handle and performs the normal teardown.  Because `recover`
//! takes the handle by value, it can be invoked at most once per
//! `leak`, and never while the handle is still in use — the move
//! rules enforce both.
//!
//! [`LeakArena`] is an aligned byte-bump arena that only ever
//! appends: it bumps a cursor through its current chunk, abandons
//! whatever a chunk has left when a request does not fit, and never
//! reclaims an allocation.

use vstd::prelude::*;
use vstd::arithmetic::div_mod::{
    lemma_fundamental_div_mod, lemma_fundamental_div_mod_converse, lemma_mod_bound,
    lemma_mod_self_0,
};
use vstd::string::StringSliceAdditionalSpecFns;
use vstd::pervasive::VecAdditionalExecFns;

use crate::arena::Arena;
use crate::layout::lemma_align_up;
use crate::layout::{AllocError, Global};

verus! {

/// An arena whose normal teardown has been suppressed by [`Arena::leak`].
///
/// The handle still allocates; [`Arena::recover`] consumes it and
/// performs the deferred teardown.
pub struct LeakedArena<T, A, const DROP: bool> {
    arena: Arena<T, A, DROP>,
}

impl<T, A, const DROP: bool> LeakedArena<T, A, DROP> {
    /// The arena carried by the handle.
    pub closed spec fn arena(&self) -> Arena<T, A, DROP> {
        self.arena
    }

    /// Read the live entry at `addr`, if there is one.
    pub fn get(&self, addr: usize) -> (r: Option<&T>)
        requires
            self.arena().wf(),
        ensures
            r is Some <==> self.arena().resident(addr as int),
            r matches Some(v) ==> *v == self.arena().value_at(addr as int),
    {
        self.arena.get(addr)
    }
}

impl<T, A: Clone> LeakedArena<T, A, true> {
    /// Allocate one slot of the leaked arena and move `value` into
    /// it.
    pub fn try_alloc(&mut self, value: T) -> (r: Result<usize, AllocError>)
        requires
            old(self).arena().wf(),
        ensures
            final(self).arena().wf(),
            final(self).arena().cap() == old(self).arena().cap(),
            r is Ok <==> old(self).arena().can_alloc(1),
            r matches Ok(addr) ==> Arena::<T, A, true>::alloc_step(
                old(self).arena(),
                final(self).arena(),
                addr as int,
                seq![value],
            ),
            r is Err ==> *final(self) == *old(self),
    {
        self.arena.try_alloc(value)
    }

    /// The convenience form of [`Self::try_alloc`].
    pub fn alloc_value(&mut self, value: T) -> (addr: usize)
        requires
            old(self).arena().wf(),
            old(self).arena().can_alloc(1),
        ensures
            final(self).arena().wf(),
            final(self).arena().cap() == old(self).arena().cap(),
            Arena::<T, A, true>::alloc_step(
                old(self).arena(),
                final(self).arena(),
                addr as int,
                seq![value],
            ),
    {
        self.arena.alloc_value(value)
    }
}

impl<T, A, const DROP: bool> Arena<T, A, DROP> {
    /// Consume the arena and produce a handle whose teardown is
    /// deferred until [`Arena::recover`] is called on it.
    pub fn leak(self) -> (r: LeakedArena<T, A, DROP>)
        ensures
            r.arena() == self,
    {
        LeakedArena { arena: self }
    }

    /// Reconstruct ownership from a leaked handle and perform the
    /// normal whole-arena teardown: every still-resident element is
    /// destructed (under the destructor-running specialization) and
    /// all chunk storage is released.  Consuming the handle makes a
    /// second recovery, or a recovery while the handle is still in
    /// use, impossible.
    pub fn recover(leaked: LeakedArena<T, A, DROP>) {
        let LeakedArena { arena } = leaked;
        // dropping the arena here is the teardown
        let _ = arena;
    }
}

/// A leak-by-design arena: an aligned byte-bump allocator over
/// fixed-size chunks that never reclaims anything.
///
/// Only the newest chunk receives allocations; when a request does
/// not fit in what it has left, a fresh chunk is started and the
/// remainder of the old one is abandoned (its contents stay valid).
pub struct LeakArena<A> {
    chunks: Vec<Vec<u8>>,
    chunk_size: usize,
    chunk_pos: usize,
    allocator: A,
}

impl<A> LeakArena<A> {
    /// Abstract state: the bytes of each chunk, in creation order.
    pub closed spec fn model(&self) -> Seq<Seq<u8>> {
        Seq::new(self.chunks@.len(), |i: int| self.chunks@[i]@)
    }

    /// The configured chunk size, in bytes.
    pub closed spec fn size(&self) -> int {
        self.chunk_size as int
    }

    /// How many chunks exist.
    pub open spec fn count(&self) -> int {
        self.model().len() as int
    }

    /// The bump position within the newest chunk.
    pub closed spec fn pos(&self) -> int {
        self.chunk_pos as int
    }

    /// The global byte address the next allocation is bumped from.
    pub open spec fn cursor(&self) -> int {
        if self.count() == 0 {
            0
        } else {
            (self.count() - 1) * self.size() + self.pos()
        }
    }

    /// Every chunk holds exactly the configured size, the cursor is
    /// inside the newest chunk, and the chunks fit the address space.
    pub closed spec fn wf(&self) -> bool {
        &&& forall|i: int|
            0 <= i < self.chunks@.len() ==> (#[trigger] self.chunks@[i])@.len()
                == self.chunk_size as int
        &&& self.chunk_pos <= self.chunk_size
        &&& self.chunks@.len() == 0 ==> self.chunk_pos == 0
        &&& self.chunks@.len() * (self.chunk_size as int) <= usize::MAX
    }

    /// The byte at global address `addr`.
    pub open spec fn byte_at(&self, addr: int) -> u8 {
        self.model()[addr / self.size()][addr % self.size()]
    }

    /// A further chunk would still fit in the address space.
    pub open spec fn can_extend(&self) -> bool {
        (self.count() + 1) * self.size() <= usize::MAX
    }

    /// Create a new leak arena with the given allocator and chunk
    /// size.
    pub fn new_in(allocator: A, chunk_size: usize) -> (r: Self)
        ensures
            r.wf(),
            r.count() == 0,
            r.size() == chunk_size,
            r.cursor() == 0,
    {
        LeakArena { chunks: Vec::new(), chunk_size, chunk_pos: 0, allocator }
    }

    /// The configured chunk size, in bytes.
    pub fn chunk_size(&self) -> (r: usize)
        ensures
            r == self.size(),
    {
        self.chunk_size
    }

    /// How many chunks have been created.
    pub fn chunk_count(&self) -> (r: usize)
        ensures
            r == self.count(),
    {
        self.chunks.len()
    }

    /// Start a fresh, zero-filled chunk; the remainder of the old
    /// newest chunk is abandoned.  Fails exactly when the new chunk
    /// would overflow the address space.
    pub fn alloc_new_chunk(&mut self) -> (r: Result<(), AllocError>)
        requires
            old(self).wf(),
        ensures
            final(self).wf(),
            final(self).size() == old(self).size(),
            r is Ok <==> old(self).can_extend(),
            r is Ok ==> {
                &&& final(self).model() == old(self).model().push(
                    Seq::new(old(self).size() as nat, |i: int| 0u8),
                )
                &&& final(self).pos() == 0
            },
            r is Err ==> *final(self) == *old(self),
    {
        let n = self.chunks.len();
        proof {
            assert(n * self.size() <= usize::MAX);
            assert((n + 1) * self.size() == n * self.size() + self.size()) by (nonlinear_arith);
        }
        if n > 0 && self.chunk_size > usize::MAX - n * self.chunk_size {
            return Err(AllocError);
        }
        proof {
            if n == 0 {
                assert((n + 1) * self.size() == self.size()) by (nonlinear_arith)
                    requires n == 0;
            }
        }
        let mut chunk: Vec<u8> = Vec::new();
        while chunk.len() < self.chunk_size
            invariant
                chunk@.len() <= self.chunk_size,
                forall|j: int| 0 <= j < chunk@.len() ==> chunk@[j] == 0u8,
            decreases self.chunk_size - chunk@.len(),
        {
            chunk.push(0u8);
        }
        proof {
            assert(chunk@ =~= Seq::new(old(self).size() as nat, |i: int| 0u8));
        }
        self.chunks.push(chunk);
        self.chunk_pos = 0;
        proof {
            assert((self.chunks@.len()) * (self.chunk_size as int) <= usize::MAX);
            assert(self.model() =~= old(self).model().push(
                Seq::new(old(self).size() as nat, |i: int| 0u8),
            ));
        }
        Ok(())
    }
}

} // verus!

verus! {

impl<A> LeakArena<A> {
    /// How far `p` must be bumped to reach the next multiple of `a`.
    pub open spec fn pad_for(p: int, a: int) -> int {
        (a - p % a) % a
    }

    /// The request fits in what the newest chunk has left, once its
    /// cursor is aligned.
    pub open spec fn fits_current(&self, size: int, align: int) -> bool {
        self.count() > 0 && self.pos() + Self::pad_for(self.cursor(), align) + size <= self.size()
    }

    /// The request would fit at the aligned start of a fresh chunk,
    /// and a fresh chunk can still be created.
    pub open spec fn fits_fresh(&self, size: int, align: int) -> bool {
        Self::pad_for(self.count() * self.size(), align) + size <= self.size()
            && self.can_extend()
    }

    /// Bump-allocate `size` bytes at alignment `align`.  The newest
    /// chunk is used if the aligned request fits in what it has left;
    /// otherwise a fresh chunk is started (abandoning the remainder)
    /// and used if the request fits there.  Nothing already allocated
    /// is ever touched.
    pub fn alloc_bytes(&mut self, size: usize, align: usize) -> (r: Result<usize, AllocError>)
        requires
            old(self).wf(),
            align >= 1,
        ensures
            final(self).wf(),
            final(self).size() == old(self).size(),
            r is Ok <==> old(self).fits_current(size as int, align as int) || old(
                self,
            ).fits_fresh(size as int, align as int),
            r matches Ok(addr) ==> {
                &&& final(self).count() >= 1
                &&& addr as int % align as int == 0
                &&& addr >= old(self).cursor()
                &&& final(self).cursor() == addr + size
                &&& old(self).count() <= final(self).count() <= old(self).count() + 1
                &&& (final(self).count() - 1) * final(self).size() <= addr
                &&& addr + size <= final(self).count() * final(self).size()
                &&& forall|i: int|
                    0 <= i < old(self).count() ==> final(self).model()[i] == old(self).model()[i]
            },
            r is Err ==> *final(self) == *old(self),
    {
        let ghost pre = *self;
        if self.chunks.len() > 0 {
            let n = self.chunks.len();
            proof {
                assert((n - 1) * self.size() + self.size() == n * self.size())
                    by (nonlinear_arith);
                assert((n - 1) * self.size() >= 0) by (nonlinear_arith)
                    requires n >= 1 && self.size() >= 0;
            }
            let base = (n - 1) * self.chunk_size;
            let cur = base + self.chunk_pos;
            let rem = cur % align;
            let pad: usize = if rem == 0 {
                0
            } else {
                align - rem
            };
            proof {
                if rem == 0 {
                    lemma_mod_self_0(align as int);
                } else {
                    lemma_mod_bound(cur as int, align as int);
                    lemma_fundamental_div_mod_converse(
                        align - rem,
                        align as int,
                        0,
                        align - rem,
                    );
                }
                assert(pad == Self::pad_for(cur as int, align as int));
            }
            if pad <= self.chunk_size - self.chunk_pos && size <= self.chunk_size
                - self.chunk_pos - pad {
                let addr = cur + pad;
                self.chunk_pos = self.chunk_pos + pad + size;
                proof {
                    lemma_align_up(cur as int, align as int);
                    assert(self.model() =~= pre.model());
                }
                return Ok(addr);
            }
        }
        let n = self.chunks.len();
        let basef = n * self.chunk_size;
        let remf = basef % align;
        let padf: usize = if remf == 0 {
            0
        } else {
            align - remf
        };
        proof {
            if remf == 0 {
                lemma_mod_self_0(align as int);
            } else {
                lemma_mod_bound(basef as int, align as int);
                lemma_fundamental_div_mod_converse(align - remf, align as int, 0, align - remf);
            }
            assert(padf == Self::pad_for(basef as int, align as int));
        }
        if padf > self.chunk_size || size > self.chunk_size - padf {
            return Err(AllocError);
        }
        match self.alloc_new_chunk() {
            Err(e) => Err(e),
            Ok(()) => {
                proof {
                    assert((n + 1) * self.size() == n * self.size() + self.size())
                        by (nonlinear_arith);
                }
                let addr = basef + padf;
                self.chunk_pos = padf + size;
                proof {
                    lemma_align_up(basef as int, align as int);
                    assert(self.count() == n + 1);
                    assert((self.count() - 1) * self.size() == basef as int);
                    assert(self.count() * self.size() == basef + self.size()) by {
                        assert((n + 1) * self.size() == n * self.size() + self.size())
                            by (nonlinear_arith);
                    }
                }
                Ok(addr)
            },
        }
    }

    /// Bump-allocate a copy of `values` (byte alignment) and hand
    /// back its address.
    pub fn alloc_slice_copy(&mut self, values: &[u8]) -> (r: Result<usize, AllocError>)
        requires
            old(self).wf(),
        ensures
            final(self).wf(),
            final(self).size() == old(self).size(),
            r is Ok <==> old(self).fits_current(values@.len() as int, 1) || old(self).fits_fresh(
                values@.len() as int,
                1,
            ),
            r matches Ok(addr) ==> {
                &&& addr >= old(self).cursor()
                &&& final(self).cursor() == addr + values@.len()
                &&& old(self).count() <= final(self).count() <= old(self).count() + 1
                &&& (final(self).count() - 1) * final(self).size() <= addr
                &&& addr + values@.len() <= final(self).count() * final(self).size()
                &&& forall|j: int|
                    0 <= j < values@.len() ==> final(self).byte_at(addr + j) == values@[j]
            },
            r is Err ==> *final(self) == *old(self),
    {
        let addr = match self.alloc_bytes(values.len(), 1) {
            Ok(a) => a,
            Err(e) => {
                return Err(e);
            },
        };
        let ghost mid = *self;
        let n = self.chunks.len();
        proof {
            assert((n - 1) * self.size() + self.size() == n * self.size()) by (nonlinear_arith);
            assert((n - 1) * self.size() >= 0) by (nonlinear_arith)
                requires n >= 1 && self.size() >= 0;
            assert(self.chunks@[n - 1]@.len() == self.chunk_size as int);
        }
        let base = (n - 1) * self.chunk_size;
        let off = addr - base;
        let m = values.len();
        let mut j: usize = 0;
        while j < m
            invariant
                j <= m,
                m == values@.len(),
                self.wf(),
                n == self.count(),
                n >= 1,
                self.size() == mid.size(),
                self.pos() == mid.pos(),
                self.count() == mid.count(),
                base == (n - 1) * self.size(),
                off == addr - base,
                off + m <= self.size(),
                forall|i: int| 0 <= i < n - 1 ==> self.model()[i] == mid.model()[i],
                forall|p: int|
                    0 <= p < self.size() && !(off <= p < off + j) ==> #[trigger] (self.model()[n
                        - 1][p]) == mid.model()[n - 1][p],
                forall|p: int|
                    off <= p < off + j ==> #[trigger] (self.model()[n - 1][p]) == values@[p - off],
            decreases m - j,
        {
            let ghost snap = *self;
            let c = &mut self.chunks[n - 1];
            c.set(off + j, values[j]);
            proof {
                assert(self.model()[n - 1] == snap.model()[n - 1].update(
                    off + j,
                    values@[j as int],
                ));
                assert forall|i: int| 0 <= i < n - 1 implies self.model()[i]
                    == snap.model()[i] by {
                    assert(self.chunks@[i] == snap.chunks@[i]);
                }
            }
            j += 1;
        }
        proof {
            if m > 0 {
                assert(self.size() > 0);
                lemma_fundamental_div_mod_converse(addr as int, self.size(), n - 1, off as int);
                assert forall|k: int| 0 <= k < m implies self.byte_at(addr + k) == values@[k] by {
                    lemma_owner_span(self.size(), n - 1, addr as int, k, m as int);
                }
            }
        }
        Ok(addr)
    }

    /// Bump-allocate a copy of the bytes of `s`.
    pub fn alloc_str(&mut self, s: &str) -> (r: Result<usize, AllocError>)
        requires
            old(self).wf(),
        ensures
            final(self).wf(),
            final(self).size() == old(self).size(),
            r is Ok <==> old(self).fits_current(s.spec_bytes().len() as int, 1) || old(
                self,
            ).fits_fresh(s.spec_bytes().len() as int, 1),
            r matches Ok(addr) ==> {
                &&& final(self).cursor() == addr + s.spec_bytes().len()
                &&& forall|j: int|
                    0 <= j < s.spec_bytes().len() ==> final(self).byte_at(addr + j)
                        == s.spec_bytes()[j]
            },
            r is Err ==> *final(self) == *old(self),
    {
        self.alloc_slice_copy(s.as_bytes())
    }

    /// Read a copy of `len` bytes at `addr`; the block must lie
    /// within a single existing chunk.
    pub fn read_bytes(&self, addr: usize, len: usize) -> (r: Option<Vec<u8>>)
        requires
            self.wf(),
        ensures
            r is Some <==> len == 0 || (self.size() > 0 && (addr as int) / self.size()
                < self.count() && (addr as int) % self.size() + len <= self.size()),
            r matches Some(v) ==> {
                &&& v@.len() == len
                &&& forall|j: int| 0 <= j < len ==> v@[j] == self.byte_at(addr + j)
            },
    {
        if len == 0 {
            return Some(Vec::new());
        }
        if self.chunk_size == 0 {
            return None;
        }
        let i = addr / self.chunk_size;
        let off = addr % self.chunk_size;
        if i >= self.chunks.len() || len > self.chunk_size - off {
            return None;
        }
        proof {
            assert(self.chunks@[i as int]@.len() == self.chunk_size as int);
        }
        let mut out: Vec<u8> = Vec::new();
        let mut j: usize = 0;
        while j < len
            invariant
                j <= len,
                self.wf(),
                self.size() > 0,
                i == (addr as int) / self.size(),
                off == (addr as int) % self.size(),
                i < self.count(),
                off + len <= self.size(),
                out@.len() == j,
                forall|k: int| 0 <= k < j ==> out@[k] == self.model()[i as int][off + k],
            decreases len - j,
        {
            out.push(self.chunks[i][off + j]);
            j += 1;
        }
        proof {
            assert forall|k: int| 0 <= k < len implies out@[k] == self.byte_at(addr + k) by {
                lemma_owner_span(self.size(), i as int, addr as int, k, len as int);
            }
        }
        Some(out)
    }
}

/// Inside a block that chunk `i` holds whole, every byte's owner and
/// offset come straight out of the division.
proof fn lemma_owner_span(size: int, i: int, addr: int, k: int, len: int)
    requires
        size > 0,
        i >= 0,
        0 <= k < len,
        addr / size == i,
        addr % size + len <= size,
        addr >= 0,
    ensures
        (addr + k) / size == i,
        (addr + k) % size == addr % size + k,
{
    lemma_fundamental_div_mod(addr, size);
    lemma_mod_bound(addr, size);
    lemma_fundamental_div_mod_converse(addr + k, size, i, addr % size + k);
}

impl LeakArena<Global> {
    /// Create a new leak arena with the default backing allocator
    /// and the given chunk size.
    pub fn new(chunk_size: usize) -> (r: Self)
        ensures
            r.wf(),
            r.count() == 0,
            r.size() == chunk_size,
            r.cursor() == 0,
    {
        Self::new_in(Global, chunk_size)
    }
}

} // verus!
