//! Simple fixed-size bump allocator operating on a caller-provided
//! buffer.

use vstd::prelude::*;
use vstd::arithmetic::div_mod::{
    lemma_fundamental_div_mod_converse, lemma_mod_bound, lemma_mod_self_0,
};
use vstd::pervasive::VecAdditionalExecFns;

use crate::layout::{lemma_align_up, AllocError, Layout};

verus! {

/// Allocator that hands out offsets into one fixed byte buffer.
///
/// The buffer is owned outright; an allocation is an aligned offset
/// range of it.  Only the most recent allocation can be reclaimed or
/// extended in place.
pub struct FixedAllocator {
    mem: Vec<u8>,
    used: usize,
}

impl FixedAllocator {
    /// The buffer's bytes.
    pub closed spec fn data(&self) -> Seq<u8> {
        self.mem@
    }

    /// How much of the buffer has been handed out.
    pub closed spec fn used_spec(&self) -> int {
        self.used as int
    }

    /// The buffer's total size.
    pub open spec fn cap(&self) -> int {
        self.data().len() as int
    }

    /// The cursor never passes the end of the buffer.
    pub closed spec fn wf(&self) -> bool {
        self.used <= self.mem@.len()
    }

    /// How far the cursor must move to reach alignment `a`.
    pub open spec fn pad_for(p: int, a: int) -> int {
        (a - p % a) % a
    }

    /// An aligned request of `layout` fits in what is left.
    pub open spec fn fits(&self, layout: Layout) -> bool {
        self.used_spec() + Self::pad_for(self.used_spec(), layout.align as int) + layout.size
            <= self.cap()
    }

    /// Create a new allocator from the given memory buffer.
    pub fn new(mem: Vec<u8>) -> (r: Self)
        ensures
            r.wf(),
            r.cap() == mem@.len(),
            r.used_spec() == 0,
            r.data() == mem@,
    {
        FixedAllocator { mem, used: 0 }
    }

    /// Total capacity of the underlying buffer.
    pub fn capacity(&self) -> (r: usize)
        ensures
            r == self.cap(),
    {
        self.mem.len()
    }

    /// Amount of memory already allocated.
    pub fn used(&self) -> (r: usize)
        ensures
            r == self.used_spec(),
    {
        self.used
    }

    /// Remaining capacity in bytes.
    pub fn available(&self) -> (r: usize)
        requires
            self.wf(),
        ensures
            r == self.cap() - self.used_spec(),
    {
        self.mem.len() - self.used
    }

    /// Reset the allocator, forgetting all previous allocations.  The
    /// exclusive borrow guarantees no outstanding allocation is in
    /// use.
    pub fn reset(&mut self)
        ensures
            final(self).wf(),
            final(self).used_spec() == 0,
            final(self).data() == old(self).data(),
    {
        self.used = 0;
    }

    /// Read the byte at `offset`.
    pub fn read_byte(&self, offset: usize) -> (r: u8)
        requires
            offset < self.cap(),
        ensures
            r == self.data()[offset as int],
    {
        self.mem[offset]
    }

    /// Overwrite the byte at `offset`.
    pub fn write_byte(&mut self, offset: usize, value: u8)
        requires
            offset < old(self).cap(),
        ensures
            final(self).wf() == old(self).wf(),
            final(self).used_spec() == old(self).used_spec(),
            final(self).data() == old(self).data().update(offset as int, value),
    {
        self.mem.set(offset, value);
    }

    /// The allocator capability: hand out `layout.size` bytes at the
    /// next offset aligned to `layout.align`.  Fails exactly when the
    /// aligned request does not fit in what is left; nothing in the
    /// buffer is written.
    pub fn allocate(&mut self, layout: Layout) -> (r: Result<usize, AllocError>)
        requires
            old(self).wf(),
            layout.wf(),
        ensures
            final(self).wf(),
            final(self).cap() == old(self).cap(),
            final(self).data() == old(self).data(),
            r is Ok <==> old(self).fits(layout),
            r matches Ok(a) ==> {
                &&& a as int % layout.align as int == 0
                &&& a >= old(self).used_spec()
                &&& a + layout.size <= old(self).cap()
                &&& final(self).used_spec() == a + layout.size
            },
            r is Err ==> *final(self) == *old(self),
    {
        let align = layout.align;
        let size = layout.size;
        let rem = self.used % align;
        let pad: usize = if rem == 0 {
            0
        } else {
            align - rem
        };
        proof {
            if rem == 0 {
                lemma_mod_self_0(align as int);
            } else {
                lemma_mod_bound(self.used as int, align as int);
                lemma_fundamental_div_mod_converse(align - rem, align as int, 0, align - rem);
            }
            assert(pad == Self::pad_for(self.used as int, align as int));
            lemma_align_up(self.used as int, align as int);
        }
        if pad > self.mem.len() - self.used || size > self.mem.len() - self.used - pad {
            return Err(AllocError);
        }
        let aligned_start = self.used + pad;
        self.used = aligned_start + size;
        Ok(aligned_start)
    }

    /// The allocator capability: return the block of `layout.size`
    /// bytes at `ptr`.  The block is reclaimed if and only if it is
    /// the most recent allocation; any other block, and any offset
    /// outside the buffer, is left alone.
    pub fn deallocate(&mut self, ptr: usize, layout: Layout)
        requires
            old(self).wf(),
        ensures
            final(self).wf(),
            final(self).data() == old(self).data(),
            ptr < old(self).cap() && ptr + layout.size == old(self).used_spec() ==> final(self).used_spec() == ptr,
            !(ptr < old(self).cap() && ptr + layout.size == old(self).used_spec()) ==> *final(self)
                == *old(self),
    {
        if ptr >= self.mem.len() {
            return ;
        }
        let size = layout.size;
        if size <= self.used && ptr == self.used - size {
            self.used = ptr;
        }
    }

    /// The allocator capability: grow the block of `old_layout.size`
    /// bytes at `ptr` to `new_layout.size` bytes.
    ///
    /// A no-larger request keeps the block as it is.  The most recent
    /// allocation is extended in place when the delta fits.  Any
    /// other block is relocated: a fresh block is allocated, the old
    /// bytes are copied into it before anything is released, and the
    /// old block is returned (which reclaims it only if it is the
    /// tail).
    pub fn grow(&mut self, ptr: usize, old_layout: Layout, new_layout: Layout) -> (r: Result<
        usize,
        AllocError,
    >)
        requires
            old(self).wf(),
            new_layout.wf(),
        ensures
            final(self).wf(),
            final(self).cap() == old(self).cap(),
            ptr >= old(self).cap() ==> r is Err && *final(self) == *old(self),
            ptr < old(self).cap() && new_layout.size <= old_layout.size ==> r == Ok::<
                usize,
                AllocError,
            >(ptr) && *final(self) == *old(self),
            ptr < old(self).cap() && new_layout.size > old_layout.size && ptr + old_layout.size
                == old(self).used_spec() && old(self).used_spec() + new_layout.size
                - old_layout.size <= old(self).cap() ==> r == Ok::<usize, AllocError>(ptr) && final(self).used_spec() == old(self).used_spec() + new_layout.size - old_layout.size && final(self).data() == old(self).data(),
            ptr < old(self).cap() && new_layout.size > old_layout.size && !(ptr + old_layout.size
                == old(self).used_spec() && old(self).used_spec() + new_layout.size
                - old_layout.size <= old(self).cap()) ==> {
                &&& (r is Ok <==> old(self).fits(new_layout))
                &&& (r is Err ==> *final(self) == *old(self))
                &&& (r matches Ok(a) ==> {
                    &&& a as int % new_layout.align as int == 0
                    &&& a >= old(self).used_spec()
                    &&& a + new_layout.size <= old(self).cap()
                    &&& (ptr + old_layout.size <= old(self).used_spec() ==> {
                        &&& final(self).used_spec() == a + new_layout.size
                        &&& forall|j: int|
                            a <= j < a + old_layout.size ==> #[trigger] final(self).data()[j]
                                == old(self).data()[ptr + (j - a)]
                    })
                    &&& forall|j: int|
                        0 <= j < old(self).cap() && !(a <= j < a + old_layout.size) ==> final(self).data()[j] == old(self).data()[j]
                })
            },
    {
        if ptr >= self.mem.len() {
            return Err(AllocError);
        }
        let old_size = old_layout.size;
        let new_size = new_layout.size;
        if new_size <= old_size {
            return Ok(ptr);
        }
        if old_size <= self.used && ptr == self.used - old_size && new_size - old_size
            <= self.mem.len() - self.used {
            self.used = self.used + (new_size - old_size);
            return Ok(ptr);
        }
        let a = match self.allocate(new_layout) {
            Ok(a) => a,
            Err(e) => {
                return Err(e);
            },
        };
        let ghost mid = *self;
        let limit: usize = if old_size <= self.mem.len() - ptr {
            old_size
        } else {
            self.mem.len() - ptr
        };
        let mut tmp: Vec<u8> = Vec::new();
        let mut k: usize = 0;
        while k < limit
            invariant
                k <= limit,
                *self == mid,
                ptr + limit <= self.cap(),
                self.cap() <= usize::MAX,
                tmp@.len() == k,
                forall|j: int| 0 <= j < k ==> #[trigger] tmp@[j] == mid.data()[ptr + j],
            decreases limit - k,
        {
            tmp.push(self.mem[ptr + k]);
            k += 1;
        }
        let mut w: usize = 0;
        while w < limit
            invariant
                w <= limit,
                self.wf(),
                a + limit <= self.cap(),
                ptr + limit <= self.cap(),
                self.cap() <= usize::MAX,
                tmp@.len() == limit,
                forall|j: int| 0 <= j < limit ==> #[trigger] tmp@[j] == mid.data()[ptr + j],
                self.used == mid.used,
                self.cap() == mid.cap(),
                forall|j: int|
                    0 <= j < self.cap() && !(a <= j < a + w) ==> self.data()[j] == mid.data()[j],
                forall|j: int|
                    a <= j < a + w ==> #[trigger] self.data()[j] == mid.data()[ptr + (j - a)],
            decreases limit - w,
        {
            let b = tmp[w];
            self.mem.set(a + w, b);
            w += 1;
        }
        self.deallocate(ptr, old_layout);
        Ok(a)
    }

    /// The allocator capability: shrink the block of
    /// `old_layout.size` bytes at `ptr` to `new_layout.size` bytes.
    /// The block keeps its offset; only the most recent allocation
    /// actually gives bytes back.
    pub fn shrink(&mut self, ptr: usize, old_layout: Layout, new_layout: Layout) -> (r: Result<
        usize,
        AllocError,
    >)
        requires
            old(self).wf(),
            new_layout.size <= old_layout.size,
        ensures
            final(self).wf(),
            final(self).data() == old(self).data(),
            ptr >= old(self).cap() ==> r is Err && *final(self) == *old(self),
            ptr < old(self).cap() ==> r == Ok::<usize, AllocError>(ptr),
            ptr < old(self).cap() && ptr + old_layout.size == old(self).used_spec() ==> final(self).used_spec() == ptr + new_layout.size,
            ptr < old(self).cap() && ptr + old_layout.size != old(self).used_spec() ==> *final(self) == *old(self),
    {
        if ptr >= self.mem.len() {
            return Err(AllocError);
        }
        let old_size = old_layout.size;
        if old_size <= self.used && ptr == self.used - old_size {
            self.used = ptr + new_layout.size;
        }
        Ok(ptr)
    }
}

} // verus!
