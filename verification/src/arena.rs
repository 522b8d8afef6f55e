//! Chunked arena allocator.
//!
//! One allocation engine backs both specializations: [`TypedArena`],
//! which stores values and runs their destructors on tail reclamation
//! and teardown, and [`DroplessArena`], a plain byte-bump allocator
//! whose elements never carry destructor obligations.
//!
//! Storage is a list of fixed-capacity chunks.  Chunks are linked by
//! their position in the list, and every chunk owns a window of a
//! single arena-wide unit-address space: chunk `i` owns the addresses
//! `[i * cap, (i + 1) * cap)`, where `cap` is the arena's configured
//! chunk capacity.  An allocation is identified by its starting unit
//! address, so "which chunk owns this allocation" is answered exactly
//! as in a pointer-based arena: by range containment.

use vstd::prelude::*;
use vstd::assert_seqs_equal;
use vstd::string::StringSliceAdditionalSpecFns;
use vstd::arithmetic::div_mod::lemma_fundamental_div_mod_converse;

use crate::layout::{AllocError, Global, Layout};

verus! {

/// One fixed-capacity storage unit of an arena.
///
/// The bump cursor is the number of initialized entries; entries below
/// the cursor are live, entries at or above it do not exist yet.  The
/// chunk's window of the arena address space starts at `base`.
pub struct ArenaChunk<T, A> {
    storage: Vec<T>,
    capacity: usize,
    base: usize,
    allocator: A,
}

impl<T, A> ArenaChunk<T, A> {
    /// The live entries, in allocation order.  The cursor is their count.
    pub closed spec fn contents(&self) -> Seq<T> {
        self.storage@
    }

    /// The fixed capacity, in units of `T`.
    pub closed spec fn cap(&self) -> int {
        self.capacity as int
    }

    /// First unit address of this chunk's window.
    pub closed spec fn base_addr(&self) -> int {
        self.base as int
    }

    /// The cursor never exceeds the capacity, and the chunk's window
    /// fits in the address space.
    pub closed spec fn wf(&self) -> bool {
        &&& self.storage@.len() <= self.capacity
        &&& self.base + self.capacity <= usize::MAX
    }

    /// The block of `len` units at `addr` is the most recent
    /// allocation of this chunk: it ends exactly at the cursor.
    pub open spec fn is_tail(&self, addr: int, len: int) -> bool {
        &&& self.base_addr() <= addr
        &&& addr - self.base_addr() + len == self.contents().len()
    }

    /// Acquire storage for `capacity` units whose window starts at
    /// `base`.  Fails exactly when the window would overflow the
    /// address space.
    pub fn try_new_in(capacity: usize, base: usize, allocator: A) -> (r: Result<Self, AllocError>)
        ensures
            r is Ok <==> base + capacity <= usize::MAX,
            r matches Ok(c) ==> {
                &&& c.wf()
                &&& c.contents() == Seq::<T>::empty()
                &&& c.cap() == capacity
                &&& c.base_addr() == base
            },
    {
        if capacity <= usize::MAX - base {
            Ok(ArenaChunk { storage: Vec::new(), capacity, base, allocator })
        } else {
            Err(AllocError)
        }
    }

    /// The configured capacity, in units.
    pub fn capacity(&self) -> (r: usize)
        ensures
            r == self.cap(),
    {
        self.capacity
    }

    /// The bump cursor: how many units are in use.
    pub fn entries(&self) -> (r: usize)
        ensures
            r == self.contents().len(),
    {
        self.storage.len()
    }

    /// First unit address of this chunk's window.
    pub fn base(&self) -> (r: usize)
        ensures
            r == self.base_addr(),
    {
        self.base
    }

    /// Whether `needed` more units fit below the capacity.
    pub fn has_space(&self, needed: usize) -> (r: bool)
        requires
            self.wf(),
        ensures
            r <==> self.contents().len() + needed <= self.cap(),
    {
        self.capacity - self.storage.len() >= needed
    }

    /// Whether `addr` lies within this chunk's window.
    pub fn contains(&self, addr: usize) -> (r: bool)
        requires
            self.wf(),
        ensures
            r <==> self.base_addr() <= addr < self.base_addr() + self.cap(),
    {
        addr >= self.base && addr - self.base < self.capacity
    }

    /// Bump-allocate one unit and write `value` into it.  Fails
    /// exactly when the chunk is full; the chunk is then unchanged.
    pub fn alloc_value(&mut self, value: T) -> (r: Result<usize, AllocError>)
        requires
            old(self).wf(),
        ensures
            final(self).wf(),
            final(self).cap() == old(self).cap(),
            final(self).base_addr() == old(self).base_addr(),
            r is Ok <==> old(self).contents().len() < old(self).cap(),
            r matches Ok(addr) ==> {
                &&& addr == old(self).base_addr() + old(self).contents().len()
                &&& final(self).contents() == old(self).contents().push(value)
            },
            r is Err ==> *final(self) == *old(self),
    {
        if self.storage.len() < self.capacity {
            let addr = self.base + self.storage.len();
            self.storage.push(value);
            Ok(addr)
        } else {
            Err(AllocError)
        }
    }

    /// Bump-allocate `values.len()` units and copy `values` in, in
    /// order.  Fails exactly when they do not all fit; the chunk is
    /// then unchanged.
    pub fn alloc_slice(&mut self, values: &[T]) -> (r: Result<usize, AllocError>) where T: Copy
        requires
            old(self).wf(),
        ensures
            final(self).wf(),
            final(self).cap() == old(self).cap(),
            final(self).base_addr() == old(self).base_addr(),
            r is Ok <==> old(self).contents().len() + values@.len() <= old(self).cap(),
            r matches Ok(addr) ==> {
                &&& addr == old(self).base_addr() + old(self).contents().len()
                &&& final(self).contents() == old(self).contents() + values@
            },
            r is Err ==> *final(self) == *old(self),
    {
        let n = values.len();
        if self.capacity - self.storage.len() >= n {
            let addr = self.base + self.storage.len();
            let mut k: usize = 0;
            while k < n
                invariant
                    k <= n,
                    n == values@.len(),
                    self.wf(),
                    self.cap() == old(self).cap(),
                    self.base_addr() == old(self).base_addr(),
                    old(self).contents().len() + n <= self.cap(),
                    self.contents() == old(self).contents() + values@.subrange(0, k as int),
                decreases n - k,
            {
                self.storage.push(values[k]);
                k += 1;
                proof {
                    assert(self.contents() == old(self).contents() + values@.subrange(
                        0,
                        k as int,
                    )) by {
                        assert(values@.subrange(0, k as int) == values@.subrange(
                            0,
                            k as int - 1,
                        ).push(values@[k as int - 1]));
                        assert_seqs_equal!(
                            self.contents(),
                            old(self).contents() + values@.subrange(0, k as int)
                        );
                    }
                }
            }
            proof {
                assert(values@.subrange(0, n as int) == values@);
            }
            Ok(addr)
        } else {
            Err(AllocError)
        }
    }

    /// Read the entry at unit address `addr`, if it is live.
    pub fn get(&self, addr: usize) -> (r: Option<&T>)
        requires
            self.wf(),
        ensures
            r is Some <==> self.base_addr() <= addr < self.base_addr() + self.contents().len(),
            r matches Some(v) ==> *v == self.contents()[addr - self.base_addr()],
    {
        if addr >= self.base && addr - self.base < self.storage.len() {
            Some(&self.storage[addr - self.base])
        } else {
            None
        }
    }

    /// Reclaim the block of `len` units at `addr` if and only if it is
    /// the tail allocation; the reclaimed entries are destructed.  For
    /// any other block the call is a silent no-op: such space is not
    /// reclaimed until the whole chunk is torn down.
    pub fn deallocate(&mut self, addr: usize, len: usize)
        requires
            old(self).wf(),
        ensures
            final(self).wf(),
            final(self).cap() == old(self).cap(),
            final(self).base_addr() == old(self).base_addr(),
            old(self).is_tail(addr as int, len as int) ==> final(self).contents() == old(
                self,
            ).contents().take(addr - old(self).base_addr()),
            !old(self).is_tail(addr as int, len as int) ==> *final(self) == *old(self),
    {
        if addr >= self.base {
            let idx = addr - self.base;
            if len <= self.storage.len() && idx == self.storage.len() - len {
                self.storage.truncate(idx);
            }
        }
    }

    /// Shrink the tail block at `addr` from `old_len` to `new_len`
    /// units in place, destructing the truncated trailing entries.
    /// Fails exactly when the block is not the tail allocation; the
    /// chunk is then unchanged and the caller must fall back.
    pub fn shrink_in_place(&mut self, addr: usize, old_len: usize, new_len: usize) -> (r: Result<
        (),
        AllocError,
    >)
        requires
            old(self).wf(),
            new_len <= old_len,
        ensures
            final(self).wf(),
            final(self).cap() == old(self).cap(),
            final(self).base_addr() == old(self).base_addr(),
            r is Ok <==> old(self).is_tail(addr as int, old_len as int),
            r is Ok ==> final(self).contents() == old(self).contents().take(
                addr - old(self).base_addr() + new_len,
            ),
            r is Err ==> *final(self) == *old(self),
    {
        if addr >= self.base {
            let idx = addr - self.base;
            if old_len <= self.storage.len() && idx == self.storage.len() - old_len {
                self.storage.truncate(idx + new_len);
                return Ok(());
            }
        }
        Err(AllocError)
    }

    /// Destruct every live entry and reset the cursor to zero.  The
    /// chunk keeps its window and capacity.
    pub fn clear(&mut self)
        requires
            old(self).wf(),
        ensures
            final(self).wf(),
            final(self).cap() == old(self).cap(),
            final(self).base_addr() == old(self).base_addr(),
            final(self).contents() == Seq::<T>::empty(),
    {
        self.storage.clear();
    }
}

impl<T: Copy, A> ArenaChunk<T, A> {
    /// Read a copy of the live block of `len` units at `addr`.
    pub fn read_range(&self, addr: usize, len: usize) -> (r: Vec<T>)
        requires
            self.wf(),
            self.base_addr() <= addr,
            addr - self.base_addr() + len <= self.contents().len(),
        ensures
            r@ == self.contents().subrange(
                addr - self.base_addr(),
                addr - self.base_addr() + len,
            ),
    {
        let idx = addr - self.base;
        let mut out: Vec<T> = Vec::new();
        let mut k: usize = 0;
        while k < len
            invariant
                k <= len,
                self.wf(),
                self.base_addr() <= addr,
                idx == addr - self.base_addr(),
                idx + len <= self.contents().len(),
                out@ == self.contents().subrange(idx as int, idx + k),
            decreases len - k,
        {
            out.push(self.storage[idx + k]);
            k += 1;
            proof {
                assert_seqs_equal!(out@, self.contents().subrange(idx as int, idx + k));
            }
        }
        out
    }

    /// Overwrite the live block at `addr` with `data`, entry by entry.
    pub fn write_range(&mut self, addr: usize, data: &[T])
        requires
            old(self).wf(),
            old(self).base_addr() <= addr,
            addr - old(self).base_addr() + data@.len() <= old(self).contents().len(),
        ensures
            final(self).wf(),
            final(self).cap() == old(self).cap(),
            final(self).base_addr() == old(self).base_addr(),
            final(self).contents().len() == old(self).contents().len(),
            forall|j: int|
                0 <= j < data@.len() ==> final(self).contents()[addr - old(self).base_addr() + j]
                    == data@[j],
            forall|j: int|
                0 <= j < old(self).contents().len() && !(addr - old(self).base_addr() <= j < addr
                    - old(self).base_addr() + data@.len()) ==> final(self).contents()[j] == old(
                    self,
                ).contents()[j],
    {
        let idx = addr - self.base;
        let n = data.len();
        let mut k: usize = 0;
        while k < n
            invariant
                k <= n,
                n == data@.len(),
                self.wf(),
                self.cap() == old(self).cap(),
                self.base_addr() == old(self).base_addr(),
                idx == addr - old(self).base_addr(),
                idx + n <= self.contents().len(),
                self.contents().len() == old(self).contents().len(),
                forall|j: int| 0 <= j < k ==> self.contents()[idx + j] == data@[j],
                forall|j: int|
                    0 <= j < old(self).contents().len() && !(idx <= j < idx + k)
                        ==> self.contents()[j] == old(self).contents()[j],
            decreases n - k,
        {
            self.storage.set(idx + k, data[k]);
            k += 1;
        }
    }
}

impl<A> ArenaChunk<u8, A> {
    /// Bump-allocate `len` units handed out zeroed.  Fails exactly
    /// when they do not fit; the chunk is then unchanged.
    pub fn alloc_zeroed(&mut self, len: usize) -> (r: Result<usize, AllocError>)
        requires
            old(self).wf(),
        ensures
            final(self).wf(),
            final(self).cap() == old(self).cap(),
            final(self).base_addr() == old(self).base_addr(),
            r is Ok <==> old(self).contents().len() + len <= old(self).cap(),
            r matches Ok(addr) ==> {
                &&& addr == old(self).base_addr() + old(self).contents().len()
                &&& final(self).contents() == old(self).contents() + Seq::new(
                    len as nat,
                    |i: int| 0u8,
                )
            },
            r is Err ==> *final(self) == *old(self),
    {
        if self.capacity - self.storage.len() >= len {
            let addr = self.base + self.storage.len();
            let mut k: usize = 0;
            while k < len
                invariant
                    k <= len,
                    self.wf(),
                    self.cap() == old(self).cap(),
                    self.base_addr() == old(self).base_addr(),
                    old(self).contents().len() + len <= self.cap(),
                    self.contents() == old(self).contents() + Seq::new(k as nat, |i: int| 0u8),
                decreases len - k,
            {
                self.storage.push(0u8);
                k += 1;
                proof {
                    assert_seqs_equal!(
                        self.contents(),
                        old(self).contents() + Seq::new(k as nat, |i: int| 0u8)
                    );
                }
            }
            Ok(addr)
        } else {
            Err(AllocError)
        }
    }

    /// Extend the tail block at `addr` from `old_len` to `new_len`
    /// units in place; the added units are handed out zeroed.  Fails
    /// exactly when the block is not the tail allocation or the delta
    /// does not fit; the chunk is then unchanged and the caller must
    /// fall back.
    pub fn grow_in_place(&mut self, addr: usize, old_len: usize, new_len: usize) -> (r: Result<
        (),
        AllocError,
    >)
        requires
            old(self).wf(),
            old_len <= new_len,
        ensures
            final(self).wf(),
            final(self).cap() == old(self).cap(),
            final(self).base_addr() == old(self).base_addr(),
            r is Ok <==> old(self).is_tail(addr as int, old_len as int) && old(
                self,
            ).contents().len() + new_len - old_len <= old(self).cap(),
            r is Ok ==> final(self).contents() == old(self).contents() + Seq::new(
                (new_len - old_len) as nat,
                |i: int| 0u8,
            ),
            r is Err ==> *final(self) == *old(self),
    {
        if addr >= self.base {
            let idx = addr - self.base;
            if old_len <= self.storage.len() && idx == self.storage.len() - old_len
                && self.capacity - self.storage.len() >= new_len - old_len {
                let delta = new_len - old_len;
                let mut k: usize = 0;
                while k < delta
                    invariant
                        k <= delta,
                        self.wf(),
                        self.cap() == old(self).cap(),
                        self.base_addr() == old(self).base_addr(),
                        old(self).contents().len() + delta <= self.cap(),
                        self.contents() == old(self).contents() + Seq::new(k as nat, |i: int| 0u8),
                    decreases delta - k,
                {
                    self.storage.push(0u8);
                    k += 1;
                    proof {
                        assert_seqs_equal!(
                            self.contents(),
                            old(self).contents() + Seq::new(k as nat, |i: int| 0u8)
                        );
                    }
                }
                return Ok(());
            }
        }
        Err(AllocError)
    }
}

} // verus!

verus! {

/// The chunk-list allocation engine.
///
/// `DROP` selects the destructor policy of the specialization: the
/// destructor-running arena (`DROP == true`) stores typed values and
/// destructs whatever a tail reclamation or a teardown removes, while
/// the dropless arena (`DROP == false`) works on bytes, which carry no
/// destructor obligations.
///
/// Every new chunk has the configured capacity `chunk_cap`; requests
/// walk the chunk list head to tail and use the first chunk with room,
/// appending a fresh chunk when none has.  A request larger than the
/// configured capacity can never be satisfied.
pub struct Arena<T, A, const DROP: bool> {
    chunks: Vec<ArenaChunk<T, A>>,
    chunk_cap: usize,
    allocator: A,
}

/// The destructor-running specialization: stores values of `T` and
/// destructs them when their slots are reclaimed or torn down.
pub type TypedArena<T, A = Global> = Arena<T, A, true>;

/// The destructor-free specialization: a plain byte-bump allocator.
pub type DroplessArena<A = Global> = Arena<u8, A, false>;

impl<T, A, const DROP: bool> Arena<T, A, DROP> {
    /// Abstract state: the live entries of each chunk, in chunk order.
    pub closed spec fn model(&self) -> Seq<Seq<T>> {
        Seq::new(self.chunks@.len(), |i: int| self.chunks@[i].contents())
    }

    /// The configured per-chunk capacity, in units.
    pub closed spec fn cap(&self) -> int {
        self.chunk_cap as int
    }

    /// How many chunks exist.
    pub open spec fn count(&self) -> int {
        self.model().len() as int
    }

    /// Every chunk is well formed, has the configured capacity, and
    /// owns the address window `[i * cap, (i + 1) * cap)`.
    pub closed spec fn wf(&self) -> bool {
        forall|i: int|
            0 <= i < self.chunks@.len() ==> {
                &&& (#[trigger] self.chunks@[i]).wf()
                &&& self.chunks@[i].cap() == self.chunk_cap as int
                &&& self.chunks@[i].base_addr() == i * (self.chunk_cap as int)
            }
    }

    /// Some existing chunk has room for `needed` more units.
    pub open spec fn has_room(&self, needed: int) -> bool {
        exists|i: int|
            0 <= i < self.count() && (#[trigger] self.model()[i]).len() + needed <= self.cap()
    }

    /// A further chunk's address window would still fit in the
    /// address space.
    pub open spec fn can_extend(&self) -> bool {
        (self.count() + 1) * self.cap() <= usize::MAX
    }

    /// A request for `needed` units can be satisfied: either an
    /// existing chunk has room, or a fresh chunk both fits in the
    /// address space and is large enough.
    pub open spec fn can_alloc(&self, needed: int) -> bool {
        self.has_room(needed) || (needed <= self.cap() && self.can_extend())
    }

    /// The chunk whose address window holds `addr`.
    pub open spec fn owner(&self, addr: int) -> int {
        addr / self.cap()
    }

    /// `addr` lies within some existing chunk's address window.
    pub open spec fn owned(&self, addr: int) -> bool {
        self.cap() > 0 && 0 <= addr && addr / self.cap() < self.count()
    }

    /// `addr` names a live entry.
    pub open spec fn resident(&self, addr: int) -> bool {
        self.owned(addr) && addr % self.cap() < self.model()[self.owner(addr)].len()
    }

    /// The live entry at `addr`.
    pub open spec fn value_at(&self, addr: int) -> T {
        self.model()[self.owner(addr)][addr % self.cap()]
    }

    /// The block of `len` units at `addr` is the most recent
    /// allocation of its owning chunk.
    pub open spec fn tail_block(&self, addr: int, len: int) -> bool {
        self.owned(addr) && addr % self.cap() + len == self.model()[self.owner(addr)].len()
    }

    /// Create an empty arena over the given backing allocator; every
    /// chunk it ever creates will hold `chunk_cap` units.
    pub fn new_in(allocator: A, chunk_cap: usize) -> (r: Self)
        ensures
            r.wf(),
            r.count() == 0,
            r.cap() == chunk_cap,
    {
        Arena { chunks: Vec::new(), chunk_cap, allocator }
    }

    /// The configured per-chunk capacity, in units.
    pub fn chunk_capacity(&self) -> (r: usize)
        ensures
            r == self.cap(),
    {
        self.chunk_cap
    }

    /// How many chunks have been created.
    pub fn chunk_count(&self) -> (r: usize)
        ensures
            r == self.count(),
    {
        self.chunks.len()
    }

    /// Read the live entry at `addr`, if there is one.
    pub fn get(&self, addr: usize) -> (r: Option<&T>)
        requires
            self.wf(),
        ensures
            r is Some <==> self.resident(addr as int),
            r matches Some(v) ==> *v == self.value_at(addr as int),
    {
        let n = self.chunks.len();
        let mut i: usize = 0;
        while i < n
            invariant
                self.wf(),
                n == self.count(),
                i <= n,
                forall|k: int|
                    0 <= k < i ==> !((#[trigger] self.chunks@[k]).base_addr() <= addr as int
                        && (addr as int) < self.chunks@[k].base_addr() + self.chunks@[k].cap()),
            decreases n - i,
        {
            if self.chunks[i].contains(addr) {
                proof {
                    lemma_owner_index(self.cap(), i as int, addr as int);
                }
                return self.chunks[i].get(addr);
            }
            i += 1;
        }
        proof {
            if self.owned(addr as int) {
                let j = self.owner(addr as int);
                lemma_owner_window(self.cap(), j, addr as int);
            }
        }
        None
    }

    /// Run a closure with a reference to this arena.  This can help
    /// with lifetime management by ensuring the arena outlives any
    /// references created within the closure.
    pub fn with<R, F: FnOnce(&Self) -> R>(&self, f: F) -> (r: R)
        requires
            call_requires(f, (self,)),
        ensures
            call_ensures(f, (self,), r),
    {
        f(self)
    }
}

/// Within a chunk's own address window, the owner computed by integer
/// division is that chunk.
proof fn lemma_owner_index(cap: int, i: int, addr: int)
    requires
        cap > 0,
        i * cap <= addr < i * cap + cap,
    ensures
        addr / cap == i,
        addr % cap == addr - i * cap,
{
    lemma_fundamental_div_mod_converse(addr, cap, i, addr - i * cap);
}

/// The owner's address window contains the address.
proof fn lemma_owner_window(cap: int, j: int, addr: int)
    requires
        cap > 0,
        0 <= addr,
        j == addr / cap,
    ensures
        j * cap <= addr < j * cap + cap,
        0 <= j,
{
    vstd::arithmetic::div_mod::lemma_fundamental_div_mod(addr, cap);
    vstd::arithmetic::div_mod::lemma_mod_bound(addr, cap);
    vstd::arithmetic::div_mod::lemma_div_pos_is_pos(addr, cap);
}

impl<T, A: Clone, const DROP: bool> Arena<T, A, DROP> {
    /// Index of the first chunk that has room for `needed` more
    /// units, by a head-to-tail walk.
    fn find_space(&self, needed: usize) -> (r: Option<usize>)
        requires
            self.wf(),
        ensures
            r matches Some(i) ==> {
                &&& 0 <= i < self.count()
                &&& self.model()[i as int].len() + needed <= self.cap()
                &&& forall|k: int|
                    0 <= k < i ==> (#[trigger] self.model()[k]).len() + needed > self.cap()
            },
            r is Some <==> self.has_room(needed as int),
    {
        let n = self.chunks.len();
        let mut i: usize = 0;
        while i < n
            invariant
                self.wf(),
                n == self.count(),
                i <= n,
                forall|k: int|
                    0 <= k < i ==> (#[trigger] self.model()[k]).len() + needed > self.cap(),
            decreases n - i,
        {
            if self.chunks[i].has_space(needed) {
                proof {
                    assert((self.model()[i as int]).len() + needed <= self.cap());
                }
                return Some(i);
            }
            i += 1;
        }
        None
    }

    /// Append a fresh, empty chunk, linked after the current tail.
    /// Fails exactly when the new chunk's address window would
    /// overflow the address space.
    fn alloc_chunk(&mut self) -> (r: Result<(), AllocError>)
        requires
            old(self).wf(),
        ensures
            final(self).wf(),
            final(self).cap() == old(self).cap(),
            r is Ok <==> old(self).can_extend(),
            r is Ok ==> final(self).model() == old(self).model().push(Seq::<T>::empty()),
            r is Err ==> *final(self) == *old(self),
    {
        let n = self.chunks.len();
        let base: usize = if n == 0 {
            0
        } else {
            let last_base = self.chunks[n - 1].base();
            proof {
                assert(last_base == (n - 1) * self.cap());
                assert((n - 1) * self.cap() + self.cap() == n as int * self.cap())
                    by (nonlinear_arith);
            }
            if self.chunk_cap <= usize::MAX - last_base {
                last_base + self.chunk_cap
            } else {
                proof {
                    assert(n as int * self.cap() > usize::MAX);
                    assert((n + 1) as int * self.cap() >= n as int * self.cap())
                        by (nonlinear_arith)
                        requires self.cap() >= 0;
                }
                return Err(AllocError);
            }
        };
        proof {
            assert(base == self.count() * self.cap());
            assert((self.count() + 1) * self.cap() == self.count() * self.cap() + self.cap())
                by (nonlinear_arith);
        }
        match ArenaChunk::try_new_in(self.chunk_cap, base, self.allocator.clone()) {
            Ok(c) => {
                self.chunks.push(c);
                proof {
                    assert_seqs_equal!(
                        self.model(),
                        old(self).model().push(Seq::<T>::empty())
                    );
                }
                Ok(())
            },
            Err(e) => Err(e),
        }
    }
}

} // verus!

verus! {

impl<T, A, const DROP: bool> Arena<T, A, DROP> {
    /// How one allocation changes the arena: the block of
    /// `values.len()` units at `addr` was bump-allocated from the
    /// first chunk that had room, or from a single freshly appended
    /// chunk after the walk found none.
    pub open spec fn alloc_step(pre: Self, post: Self, addr: int, values: Seq<T>) -> bool {
        ||| (exists|i: int|
            {
                &&& 0 <= i < pre.count()
                &&& (#[trigger] pre.model()[i]).len() + values.len() <= pre.cap()
                &&& forall|k: int|
                    0 <= k < i ==> (#[trigger] pre.model()[k]).len() + values.len() > pre.cap()
                &&& addr == i * pre.cap() + pre.model()[i].len()
                &&& post.model() == pre.model().update(i, pre.model()[i] + values)
            })
        ||| {
            &&& forall|k: int|
                0 <= k < pre.count() ==> (#[trigger] pre.model()[k]).len() + values.len()
                    > pre.cap()
            &&& values.len() <= pre.cap()
            &&& addr == pre.count() * pre.cap()
            &&& post.model() == pre.model().push(values)
        }
    }

    /// Allocation never moves or changes what is already resident,
    /// the new block is disjoint from everything that was, and the
    /// new block holds exactly the requested values.
    pub proof fn lemma_alloc_step_frame(pre: Self, post: Self, addr: int, values: Seq<T>)
        requires
            pre.wf(),
            pre.cap() == post.cap(),
            Self::alloc_step(pre, post, addr, values),
        ensures
            forall|a: int|
                pre.resident(a) ==> post.resident(a) && post.value_at(a) == pre.value_at(a),
            forall|a: int| pre.resident(a) ==> !(addr <= a && a < addr + values.len()),
            forall|a: int|
                addr <= a && a < addr + values.len() ==> post.resident(a) && post.value_at(a)
                    == values[a - addr],
    {
        let cap = pre.cap();
        if exists|i: int|
            {
                &&& 0 <= i < pre.count()
                &&& (#[trigger] pre.model()[i]).len() + values.len() <= pre.cap()
                &&& forall|k: int|
                    0 <= k < i ==> (#[trigger] pre.model()[k]).len() + values.len() > pre.cap()
                &&& addr == i * pre.cap() + pre.model()[i].len()
                &&& post.model() == pre.model().update(i, pre.model()[i] + values)
            } {
            let i = choose|i: int|
                {
                    &&& 0 <= i < pre.count()
                    &&& (#[trigger] pre.model()[i]).len() + values.len() <= pre.cap()
                    &&& forall|k: int|
                        0 <= k < i ==> (#[trigger] pre.model()[k]).len() + values.len()
                            > pre.cap()
                    &&& addr == i * pre.cap() + pre.model()[i].len()
                    &&& post.model() == pre.model().update(i, pre.model()[i] + values)
                };
            let len = pre.model()[i].len() as int;
            let n = values.len() as int;
            assert forall|a: int| pre.resident(a) implies post.resident(a) && post.value_at(a)
                == pre.value_at(a) by {
                let ja = pre.owner(a);
                assert(post.model()[ja].len() >= pre.model()[ja].len());
                if ja == i {
                    assert(post.model()[ja][a % cap] == pre.model()[ja][a % cap]);
                }
            }
            assert forall|a: int| pre.resident(a) implies !(addr <= a && a < addr
                + values.len()) by {
                if addr <= a && a < addr + n {
                    assert(i * cap <= a < i * cap + cap);
                    lemma_owner_index(cap, i, a);
                    assert(a % cap >= len);
                }
            }
            assert forall|a: int| addr <= a && a < addr + values.len() implies post.resident(a)
                && post.value_at(a) == values[a - addr] by {
                let j = a - addr;
                assert(i * cap <= a < i * cap + cap);
                lemma_owner_index(cap, i, a);
                assert(a % cap == len + j);
                assert(post.model()[i][len + j] == values[j]);
            }
        } else {
            let i = pre.count();
            let n = values.len() as int;
            if n > 0 {
                assert(cap > 0);
            }
            assert forall|a: int| pre.resident(a) implies post.resident(a) && post.value_at(a)
                == pre.value_at(a) by {
                let ja = pre.owner(a);
                assert(post.model()[ja] == pre.model()[ja]);
            }
            assert forall|a: int| pre.resident(a) implies !(addr <= a && a < addr
                + values.len()) by {
                if addr <= a && a < addr + n {
                    assert(i * cap <= a < i * cap + cap);
                    lemma_owner_index(cap, i, a);
                }
            }
            assert forall|a: int| addr <= a && a < addr + values.len() implies post.resident(a)
                && post.value_at(a) == values[a - addr] by {
                let j = a - addr;
                assert(i * cap <= a < i * cap + cap);
                lemma_owner_index(cap, i, a);
                assert(a % cap == j);
                assert(post.model()[i][j] == values[j]);
            }
        }
    }

    /// Reclaim the block of `len` units at `addr` if and only if it
    /// is the tail allocation of the chunk that owns it; otherwise,
    /// including when no chunk owns `addr`, do nothing.
    fn dealloc_impl(&mut self, addr: usize, len: usize)
        requires
            old(self).wf(),
        ensures
            final(self).wf(),
            final(self).cap() == old(self).cap(),
            final(self).count() == old(self).count(),
            old(self).tail_block(addr as int, len as int) ==> final(self).model() == old(
                self,
            ).model().update(
                old(self).owner(addr as int),
                old(self).model()[old(self).owner(addr as int)].take(
                    addr as int % old(self).cap(),
                ),
            ),
            !old(self).tail_block(addr as int, len as int) ==> final(self).model() == old(
                self,
            ).model(),
    {
        let n = self.chunks.len();
        let mut i: usize = 0;
        while i < n
            invariant
                self.wf(),
                *self == *old(self),
                n == self.count(),
                i <= n,
                forall|k: int|
                    0 <= k < i ==> !((#[trigger] self.chunks@[k]).base_addr() <= addr as int
                        && (addr as int) < self.chunks@[k].base_addr() + self.chunks@[k].cap()),
            decreases n - i,
        {
            if self.chunks[i].contains(addr) {
                proof {
                    lemma_owner_index(self.cap(), i as int, addr as int);
                }
                let ghost pre = *self;
                let c = &mut self.chunks[i];
                c.deallocate(addr, len);
                proof {
                    if pre.tail_block(addr as int, len as int) {
                        assert_seqs_equal!(
                            self.model(),
                            pre.model().update(i as int,
                                pre.model()[i as int].take(addr as int % pre.cap()))
                        );
                    } else {
                        assert_seqs_equal!(self.model(), pre.model());
                    }
                }
                return ;
            }
            i += 1;
        }
        proof {
            if self.owned(addr as int) {
                let j = self.owner(addr as int);
                lemma_owner_window(self.cap(), j, addr as int);
            }
        }
    }

    /// Destruct every live entry in every chunk and reset all cursors
    /// to zero.  The chunks themselves are kept for reuse.
    pub fn clear(&mut self)
        requires
            old(self).wf(),
        ensures
            final(self).wf(),
            final(self).cap() == old(self).cap(),
            final(self).count() == old(self).count(),
            forall|i: int| 0 <= i < final(self).count() ==> (#[trigger] final(self).model()[i])
                == Seq::<T>::empty(),
    {
        let n = self.chunks.len();
        let mut i: usize = 0;
        while i < n
            invariant
                self.wf(),
                self.cap() == old(self).cap(),
                n == self.count(),
                self.count() == old(self).count(),
                i <= n,
                forall|k: int|
                    0 <= k < i ==> (#[trigger] self.model()[k]) == Seq::<T>::empty(),
            decreases n - i,
        {
            let ghost pre = *self;
            let c = &mut self.chunks[i];
            c.clear();
            proof {
                assert forall|k: int| 0 <= k <= i implies (#[trigger] self.model()[k])
                    == Seq::<T>::empty() by {
                    if k < i {
                        assert(self.model()[k] == pre.model()[k]);
                    } else {
                        assert(self.model()[k] == self.chunks@[k].contents());
                    }
                }
            }
            i += 1;
        }
    }
}

} // verus!

verus! {

impl<T, A, const DROP: bool> Arena<T, A, DROP> {
    /// The whole block of `len` units at `addr` is live, inside one
    /// chunk.
    pub open spec fn block_live(&self, addr: int, len: int) -> bool {
        self.owned(addr) && addr % self.cap() + len <= self.model()[self.owner(addr)].len()
    }
}

/// After replacing chunk `i` with one of the same capacity and window,
/// the arena is still well formed and its model is the pointwise
/// update.
proof fn lemma_update_model<T, A, const DROP: bool>(
    pre: Arena<T, A, DROP>,
    post: Arena<T, A, DROP>,
    i: int,
)
    requires
        pre.wf(),
        0 <= i < pre.count(),
        post.chunks@ == pre.chunks@.update(i, post.chunks@[i]),
        post.chunks@[i].wf(),
        post.chunks@[i].cap() == pre.cap(),
        post.chunks@[i].base_addr() == i * pre.cap(),
        post.chunk_cap == pre.chunk_cap,
    ensures
        post.wf(),
        post.model() == pre.model().update(i, post.chunks@[i].contents()),
{
    assert(post.chunks@.len() == pre.chunks@.len());
    assert forall|k: int| 0 <= k < post.chunks@.len() implies {
        &&& (#[trigger] post.chunks@[k]).wf()
        &&& post.chunks@[k].cap() == post.chunk_cap as int
        &&& post.chunks@[k].base_addr() == k * (post.chunk_cap as int)
    } by {
        if k != i {
            assert(post.chunks@[k] == pre.chunks@[k]);
        }
    }
    assert_seqs_equal!(post.model(), pre.model().update(i, post.chunks@[i].contents()));
}

impl<T, A: Clone, const DROP: bool> Arena<T, A, DROP> {
    /// Place one value by the walk-then-append policy.
    fn alloc_value_impl(&mut self, value: T) -> (r: Result<usize, AllocError>)
        requires
            old(self).wf(),
        ensures
            final(self).wf(),
            final(self).cap() == old(self).cap(),
            r is Ok <==> old(self).can_alloc(1),
            r matches Ok(addr) ==> Self::alloc_step(
                *old(self),
                *final(self),
                addr as int,
                seq![value],
            ),
            r is Err ==> *final(self) == *old(self),
    {
        let ghost pre = *old(self);
        match self.find_space(1) {
            Some(i) => {
                proof {
                    assert(self.chunks@[i as int].wf());
                    assert(self.chunks@[i as int].cap() == self.cap());
                    assert(self.chunks@[i as int].base_addr() == i as int * self.cap());
                    assert(self.chunks@[i as int].contents() == self.model()[i as int]);
                }
                let c = &mut self.chunks[i];
                let res = c.alloc_value(value);
                proof {
                    lemma_update_model(pre, *self, i as int);
                    assert(pre.model()[i as int].push(value) =~= pre.model()[i as int] + seq![
                        value,
                    ]);
                }
                match res {
                    Ok(addr) => Ok(addr),
                    Err(_) => {
                        proof {
                            assert(false);
                        }
                        Err(AllocError)
                    },
                }
            },
            None => {
                if self.chunk_cap < 1 {
                    return Err(AllocError);
                }
                match self.alloc_chunk() {
                    Ok(_) => {
                        proof {
                            assert(self.model().len() == pre.model().len() + 1);
                            assert(self.chunks@.len() == self.model().len());
                        }
                        let ghost mid = *self;
                        let n = self.chunks.len() - 1;
                        proof {
                            assert(mid.model()[n as int] == Seq::<T>::empty());
                            assert(self.chunks@[n as int].contents() == Seq::<T>::empty());
                            assert(self.chunks@[n as int].wf());
                            assert(self.chunks@[n as int].cap() == self.cap());
                            assert(self.chunks@[n as int].base_addr() == n as int * self.cap());
                        }
                        let c = &mut self.chunks[n];
                        let res = c.alloc_value(value);
                        proof {
                            lemma_update_model(mid, *self, n as int);
                            assert(Seq::<T>::empty() + seq![value] =~= seq![value]);
                            assert(Seq::<T>::empty().push(value) =~= seq![value]);
                            assert_seqs_equal!(
                                mid.model().update(n as int, seq![value]),
                                pre.model().push(seq![value])
                            );
                        }
                        match res {
                            Ok(addr) => Ok(addr),
                            Err(_) => {
                                proof {
                                    assert(false);
                                }
                                Err(AllocError)
                            },
                        }
                    },
                    Err(_) => Err(AllocError),
                }
            },
        }
    }

    /// Place a row of copied values by the walk-then-append policy.
    fn alloc_slice_impl(&mut self, values: &[T]) -> (r: Result<usize, AllocError>) where T: Copy
        requires
            old(self).wf(),
        ensures
            final(self).wf(),
            final(self).cap() == old(self).cap(),
            values@.len() == 0 ==> r == Ok::<usize, AllocError>(0) && *final(self) == *old(self),
            values@.len() > 0 ==> (r is Ok <==> old(self).can_alloc(values@.len() as int)),
            values@.len() > 0 ==> (r matches Ok(addr) ==> Self::alloc_step(
                *old(self),
                *final(self),
                addr as int,
                values@,
            )),
            r is Err ==> *final(self) == *old(self),
    {
        let ghost pre = *old(self);
        let n = values.len();
        if n == 0 {
            return Ok(0);
        }
        match self.find_space(n) {
            Some(i) => {
                proof {
                    assert(self.chunks@[i as int].wf());
                    assert(self.chunks@[i as int].cap() == self.cap());
                    assert(self.chunks@[i as int].base_addr() == i as int * self.cap());
                    assert(self.chunks@[i as int].contents() == self.model()[i as int]);
                }
                let c = &mut self.chunks[i];
                let res = c.alloc_slice(values);
                proof {
                    lemma_update_model(pre, *self, i as int);
                }
                match res {
                    Ok(addr) => Ok(addr),
                    Err(_) => {
                        proof {
                            assert(false);
                        }
                        Err(AllocError)
                    },
                }
            },
            None => {
                if n > self.chunk_cap {
                    return Err(AllocError);
                }
                match self.alloc_chunk() {
                    Ok(_) => {
                        proof {
                            assert(self.model().len() == pre.model().len() + 1);
                            assert(self.chunks@.len() == self.model().len());
                        }
                        let ghost mid = *self;
                        let last = self.chunks.len() - 1;
                        proof {
                            assert(mid.model()[last as int] == Seq::<T>::empty());
                            assert(self.chunks@[last as int].contents() == Seq::<T>::empty());
                            assert(self.chunks@[last as int].wf());
                            assert(self.chunks@[last as int].cap() == self.cap());
                            assert(self.chunks@[last as int].base_addr() == last as int * self.cap());
                        }
                        let c = &mut self.chunks[last];
                        let res = c.alloc_slice(values);
                        proof {
                            lemma_update_model(mid, *self, last as int);
                            assert(Seq::<T>::empty() + values@ =~= values@);
                            assert_seqs_equal!(
                                mid.model().update(last as int, values@),
                                pre.model().push(values@)
                            );
                        }
                        match res {
                            Ok(addr) => Ok(addr),
                            Err(_) => {
                                proof {
                                    assert(false);
                                }
                                Err(AllocError)
                            },
                        }
                    },
                    Err(_) => Err(AllocError),
                }
            },
        }
    }
}

impl<A: Clone, const DROP: bool> Arena<u8, A, DROP> {
    /// Place a zero-filled block by the walk-then-append policy.
    fn alloc_zeroed_impl(&mut self, len: usize) -> (r: Result<usize, AllocError>)
        requires
            old(self).wf(),
        ensures
            final(self).wf(),
            final(self).cap() == old(self).cap(),
            r is Ok <==> old(self).can_alloc(len as int),
            r matches Ok(addr) ==> Self::alloc_step(
                *old(self),
                *final(self),
                addr as int,
                Seq::new(len as nat, |i: int| 0u8),
            ),
            r is Err ==> *final(self) == *old(self),
    {
        let ghost pre = *old(self);
        let ghost zs = Seq::new(len as nat, |i: int| 0u8);
        match self.find_space(len) {
            Some(i) => {
                proof {
                    assert(self.chunks@[i as int].wf());
                    assert(self.chunks@[i as int].cap() == self.cap());
                    assert(self.chunks@[i as int].base_addr() == i as int * self.cap());
                    assert(self.chunks@[i as int].contents() == self.model()[i as int]);
                }
                let c = &mut self.chunks[i];
                let res = c.alloc_zeroed(len);
                proof {
                    lemma_update_model(pre, *self, i as int);
                }
                match res {
                    Ok(addr) => Ok(addr),
                    Err(_) => {
                        proof {
                            assert(false);
                        }
                        Err(AllocError)
                    },
                }
            },
            None => {
                if len > self.chunk_cap {
                    return Err(AllocError);
                }
                match self.alloc_chunk() {
                    Ok(_) => {
                        proof {
                            assert(self.model().len() == pre.model().len() + 1);
                            assert(self.chunks@.len() == self.model().len());
                        }
                        let ghost mid = *self;
                        let last = self.chunks.len() - 1;
                        proof {
                            assert(mid.model()[last as int] == Seq::<u8>::empty());
                            assert(self.chunks@[last as int].contents() == Seq::<u8>::empty());
                            assert(self.chunks@[last as int].wf());
                            assert(self.chunks@[last as int].cap() == self.cap());
                            assert(self.chunks@[last as int].base_addr() == last as int * self.cap());
                        }
                        let c = &mut self.chunks[last];
                        let res = c.alloc_zeroed(len);
                        proof {
                            lemma_update_model(mid, *self, last as int);
                            assert(Seq::<u8>::empty() + zs =~= zs);
                            assert_seqs_equal!(
                                mid.model().update(last as int, zs),
                                pre.model().push(zs)
                            );
                        }
                        match res {
                            Ok(addr) => Ok(addr),
                            Err(_) => {
                                proof {
                                    assert(false);
                                }
                                Err(AllocError)
                            },
                        }
                    },
                    Err(_) => Err(AllocError),
                }
            },
        }
    }
}

} // verus!

verus! {

impl<T, const DROP: bool> Arena<T, Global, DROP> {
    /// Create an empty arena over the default backing allocator.
    pub fn new(chunk_cap: usize) -> (r: Self)
        ensures
            r.wf(),
            r.count() == 0,
            r.cap() == chunk_cap,
    {
        Self::new_in(Global, chunk_cap)
    }
}

impl<T, A: Clone> Arena<T, A, true> {
    /// Allocate one slot and move `value` into it; the address of the
    /// slot is returned.  Fails exactly when no chunk has room and no
    /// further chunk can be created.
    pub fn try_alloc(&mut self, value: T) -> (r: Result<usize, AllocError>)
        requires
            old(self).wf(),
        ensures
            final(self).wf(),
            final(self).cap() == old(self).cap(),
            r is Ok <==> old(self).can_alloc(1),
            r matches Ok(addr) ==> Self::alloc_step(
                *old(self),
                *final(self),
                addr as int,
                seq![value],
            ),
            r is Err ==> *final(self) == *old(self),
    {
        self.alloc_value_impl(value)
    }

    /// Allocate one slot and move `value` into it.  The convenience
    /// form of [`Self::try_alloc`]: exhaustion is treated as fatal, so
    /// the caller must know the request can be satisfied.
    pub fn alloc_value(&mut self, value: T) -> (addr: usize)
        requires
            old(self).wf(),
            old(self).can_alloc(1),
        ensures
            final(self).wf(),
            final(self).cap() == old(self).cap(),
            Self::alloc_step(*old(self), *final(self), addr as int, seq![value]),
    {
        match self.alloc_value_impl(value) {
            Ok(addr) => addr,
            Err(_) => {
                proof {
                    assert(false);
                }
                0
            },
        }
    }

    /// Allocate a block holding a copy of `values`, in order; the
    /// address of its first slot is returned.
    pub fn try_alloc_slice(&mut self, values: &[T]) -> (r: Result<usize, AllocError>) where
        T: Copy,

        requires
            old(self).wf(),
        ensures
            final(self).wf(),
            final(self).cap() == old(self).cap(),
            values@.len() == 0 ==> r == Ok::<usize, AllocError>(0) && *final(self) == *old(self),
            values@.len() > 0 ==> (r is Ok <==> old(self).can_alloc(values@.len() as int)),
            values@.len() > 0 ==> (r matches Ok(addr) ==> Self::alloc_step(
                *old(self),
                *final(self),
                addr as int,
                values@,
            )),
            r is Err ==> *final(self) == *old(self),
    {
        self.alloc_slice_impl(values)
    }

    /// The convenience form of [`Self::try_alloc_slice`].
    pub fn alloc_slice(&mut self, values: &[T]) -> (addr: usize) where T: Copy
        requires
            old(self).wf(),
            values@.len() > 0 ==> old(self).can_alloc(values@.len() as int),
        ensures
            final(self).wf(),
            final(self).cap() == old(self).cap(),
            values@.len() == 0 ==> addr == 0 && *final(self) == *old(self),
            values@.len() > 0 ==> Self::alloc_step(*old(self), *final(self), addr as int, values@),
    {
        match self.alloc_slice_impl(values) {
            Ok(addr) => addr,
            Err(_) => {
                proof {
                    assert(false);
                }
                0
            },
        }
    }

    /// Reclaim the block of `len` slots at `addr` if and only if it is
    /// the tail allocation of its chunk, destructing the reclaimed
    /// values; any other block, and any address this arena does not
    /// own, is left alone.
    pub fn deallocate(&mut self, addr: usize, len: usize)
        requires
            old(self).wf(),
        ensures
            final(self).wf(),
            final(self).cap() == old(self).cap(),
            final(self).count() == old(self).count(),
            old(self).tail_block(addr as int, len as int) ==> final(self).model() == old(
                self,
            ).model().update(
                old(self).owner(addr as int),
                old(self).model()[old(self).owner(addr as int)].take(
                    addr as int % old(self).cap(),
                ),
            ),
            !old(self).tail_block(addr as int, len as int) ==> final(self).model() == old(
                self,
            ).model(),
    {
        self.dealloc_impl(addr, len)
    }
}

impl<A: Clone> Arena<u8, A, false> {
    /// Allocate a block holding a copy of `data`; the address of its
    /// first byte is returned.
    pub fn try_alloc_bytes(&mut self, data: &[u8]) -> (r: Result<usize, AllocError>)
        requires
            old(self).wf(),
        ensures
            final(self).wf(),
            final(self).cap() == old(self).cap(),
            data@.len() == 0 ==> r == Ok::<usize, AllocError>(0) && *final(self) == *old(self),
            data@.len() > 0 ==> (r is Ok <==> old(self).can_alloc(data@.len() as int)),
            data@.len() > 0 ==> (r matches Ok(addr) ==> Self::alloc_step(
                *old(self),
                *final(self),
                addr as int,
                data@,
            )),
            r is Err ==> *final(self) == *old(self),
    {
        self.alloc_slice_impl(data)
    }

    /// The convenience form of [`Self::try_alloc_bytes`].
    pub fn alloc_bytes(&mut self, data: &[u8]) -> (addr: usize)
        requires
            old(self).wf(),
            data@.len() > 0 ==> old(self).can_alloc(data@.len() as int),
        ensures
            final(self).wf(),
            final(self).cap() == old(self).cap(),
            data@.len() == 0 ==> addr == 0 && *final(self) == *old(self),
            data@.len() > 0 ==> Self::alloc_step(*old(self), *final(self), addr as int, data@),
    {
        match self.alloc_slice_impl(data) {
            Ok(addr) => addr,
            Err(_) => {
                proof {
                    assert(false);
                }
                0
            },
        }
    }

    /// Allocate a block holding a copy of the bytes of `s`.
    pub fn try_alloc_str(&mut self, s: &str) -> (r: Result<usize, AllocError>)
        requires
            old(self).wf(),
        ensures
            final(self).wf(),
            final(self).cap() == old(self).cap(),
            s.spec_bytes().len() == 0 ==> r == Ok::<usize, AllocError>(0) && *final(self) == *old(
                self,
            ),
            s.spec_bytes().len() > 0 ==> (r is Ok <==> old(self).can_alloc(
                s.spec_bytes().len() as int,
            )),
            s.spec_bytes().len() > 0 ==> (r matches Ok(addr) ==> Self::alloc_step(
                *old(self),
                *final(self),
                addr as int,
                s.spec_bytes(),
            )),
            r is Err ==> *final(self) == *old(self),
    {
        self.alloc_slice_impl(s.as_bytes())
    }

    /// The convenience form of [`Self::try_alloc_str`].
    pub fn alloc_str(&mut self, s: &str) -> (addr: usize)
        requires
            old(self).wf(),
            s.spec_bytes().len() > 0 ==> old(self).can_alloc(s.spec_bytes().len() as int),
        ensures
            final(self).wf(),
            final(self).cap() == old(self).cap(),
            s.spec_bytes().len() == 0 ==> addr == 0 && *final(self) == *old(self),
            s.spec_bytes().len() > 0 ==> Self::alloc_step(
                *old(self),
                *final(self),
                addr as int,
                s.spec_bytes(),
            ),
    {
        match self.alloc_slice_impl(s.as_bytes()) {
            Ok(addr) => addr,
            Err(_) => {
                proof {
                    assert(false);
                }
                0
            },
        }
    }

    /// The allocator capability: allocate `layout.size` bytes, handed
    /// out zeroed.  Fails exactly when no chunk has room and a fresh
    /// chunk would not help.
    pub fn allocate(&mut self, layout: Layout) -> (r: Result<usize, AllocError>)
        requires
            old(self).wf(),
        ensures
            final(self).wf(),
            final(self).cap() == old(self).cap(),
            r is Ok <==> old(self).can_alloc(layout.size as int),
            r matches Ok(addr) ==> Self::alloc_step(
                *old(self),
                *final(self),
                addr as int,
                Seq::new(layout.size as nat, |i: int| 0u8),
            ),
            r is Err ==> *final(self) == *old(self),
    {
        self.alloc_zeroed_impl(layout.size)
    }

    /// The allocator capability: return the block at `addr`.  Only the
    /// tail allocation of its chunk is reclaimed; any other block, and
    /// any address this arena does not own, is left alone.
    pub fn deallocate(&mut self, addr: usize, layout: Layout)
        requires
            old(self).wf(),
        ensures
            final(self).wf(),
            final(self).cap() == old(self).cap(),
            final(self).count() == old(self).count(),
            old(self).tail_block(addr as int, layout.size as int) ==> final(self).model() == old(
                self,
            ).model().update(
                old(self).owner(addr as int),
                old(self).model()[old(self).owner(addr as int)].take(
                    addr as int % old(self).cap(),
                ),
            ),
            !old(self).tail_block(addr as int, layout.size as int) ==> final(self).model() == old(
                self,
            ).model(),
    {
        self.dealloc_impl(addr, layout.size)
    }

    /// Read a copy of the live block of `len` bytes at `addr`, if the
    /// whole block is live.
    pub fn read_bytes(&self, addr: usize, len: usize) -> (r: Option<Vec<u8>>)
        requires
            self.wf(),
        ensures
            r is Some ==> len == 0 || self.block_live(addr as int, len as int),
            r is None ==> !(len == 0 || self.block_live(addr as int, len as int)),
            r matches Some(v) ==> {
                &&& v@.len() == len
                &&& forall|j: int| 0 <= j < len ==> v@[j] == self.value_at(addr + j)
            },
    {
        if len == 0 {
            return Some(Vec::new());
        }
        let n = self.chunks.len();
        let mut i: usize = 0;
        while i < n
            invariant
                self.wf(),
                n == self.count(),
                i <= n,
                len != 0,
                forall|k: int|
                    0 <= k < i ==> !((#[trigger] self.chunks@[k]).base_addr() <= addr as int
                        && (addr as int) < self.chunks@[k].base_addr() + self.chunks@[k].cap()),
            decreases n - i,
        {
            if self.chunks[i].contains(addr) {
                proof {
                    lemma_owner_index(self.cap(), i as int, addr as int);
                }
                let entries = self.chunks[i].entries();
                let base = self.chunks[i].base();
                let off = addr - base;
                proof {
                    assert(self.model()[i as int] == self.chunks@[i as int].contents());
                    assert(self.chunks@[i as int].base_addr() == i as int * self.cap());
                    assert(off == addr as int % self.cap());
                }
                if len <= entries && off <= entries - len {
                    let v = self.chunks[i].read_range(addr, len);
                    proof {
                        assert(self.owner(addr as int) == i as int);
                        assert(self.model()[i as int].len() == entries as int);
                        assert(addr as int % self.cap() + len <= entries as int);
                        assert(self.block_live(addr as int, len as int));
                        assert forall|j: int| 0 <= j < len implies v@[j] == self.value_at(
                            addr + j,
                        ) by {
                            lemma_owner_index(self.cap(), i as int, addr + j);
                        }
                    }
                    return Some(v);
                } else {
                    proof {
                        assert(self.owner(addr as int) == i as int);
                        assert(self.model()[i as int].len() == entries as int);
                        assert(off + len > entries);
                        assert(len != 0);
                        assert(!self.block_live(addr as int, len as int));
                        assert(!(len == 0 || self.block_live(addr as int, len as int)));
                    }
                    return None;
                }
            }
            i += 1;
        }
        proof {
            if self.owned(addr as int) {
                let j = self.owner(addr as int);
                lemma_owner_window(self.cap(), j, addr as int);
                assert(self.chunks@[j].base_addr() == j * self.cap());
                assert(self.chunks@[j].cap() == self.cap());
                assert(false);
            }
            assert(!self.block_live(addr as int, len as int));
        }
        None
    }
}

} // verus!

verus! {

impl<T, A, const DROP: bool> Arena<T, A, DROP> {
    /// Index of the chunk whose address window holds `addr`, by a
    /// head-to-tail walk.
    fn find_owner(&self, addr: usize) -> (r: Option<usize>)
        requires
            self.wf(),
        ensures
            r matches Some(i) ==> {
                &&& 0 <= i < self.count()
                &&& self.owned(addr as int)
                &&& self.owner(addr as int) == i
                &&& i * self.cap() <= addr as int && (addr as int) < i * self.cap() + self.cap()
            },
            r is None ==> !self.owned(addr as int),
    {
        let n = self.chunks.len();
        let mut i: usize = 0;
        while i < n
            invariant
                self.wf(),
                n == self.count(),
                i <= n,
                forall|k: int|
                    0 <= k < i ==> !((#[trigger] self.chunks@[k]).base_addr() <= addr as int
                        && (addr as int) < self.chunks@[k].base_addr() + self.chunks@[k].cap()),
            decreases n - i,
        {
            if self.chunks[i].contains(addr) {
                proof {
                    lemma_owner_index(self.cap(), i as int, addr as int);
                }
                return Some(i);
            }
            i += 1;
        }
        proof {
            if self.owned(addr as int) {
                let j = self.owner(addr as int);
                lemma_owner_window(self.cap(), j, addr as int);
                assert(self.chunks@[j].base_addr() == j * self.cap());
                assert(self.chunks@[j].cap() == self.cap());
                assert(false);
            }
        }
        None
    }
}

/// Relocation (allocate a fresh block, copy, then return the old
/// block): the fresh block holds exactly the copied bytes, and every
/// live entry outside the old and the new block survives unmoved.
proof fn lemma_relocate<T, A, const DROP: bool>(
    pre: Arena<T, A, DROP>,
    mid: Arena<T, A, DROP>,
    post: Arena<T, A, DROP>,
    addr: int,
    os: int,
    naddr: int,
    bytes: Seq<T>,
)
    requires
        pre.wf(),
        pre.cap() == mid.cap(),
        pre.cap() == post.cap(),
        0 <= os,
        pre.block_live(addr, os),
        Arena::<T, A, DROP>::alloc_step(pre, mid, naddr, bytes),
        mid.tail_block(addr, os) ==> post.model() == mid.model().update(
            mid.owner(addr),
            mid.model()[mid.owner(addr)].take(addr % mid.cap()),
        ),
        !mid.tail_block(addr, os) ==> post.model() == mid.model(),
    ensures
        forall|a: int|
            naddr <= a && a < naddr + bytes.len() ==> post.resident(a) && post.value_at(a)
                == bytes[a - naddr],
        forall|a: int|
            pre.resident(a) && !(addr <= a && a < addr + os) && !(naddr <= a && a < naddr
                + bytes.len()) ==> post.resident(a) && post.value_at(a) == pre.value_at(a),
{
    let cap = pre.cap();
    let i = pre.owner(addr);
    lemma_owner_window(cap, i, addr);
    lemma_owner_index(cap, i, addr);
    Arena::<T, A, DROP>::lemma_alloc_step_frame(pre, mid, naddr, bytes);
    assert(mid.owner(addr) == i);
    // where the fresh block went, and how chunk i changed
    let d1 = exists|g: int|
        {
            &&& 0 <= g < pre.count()
            &&& (#[trigger] pre.model()[g]).len() + bytes.len() <= pre.cap()
            &&& forall|k: int|
                0 <= k < g ==> (#[trigger] pre.model()[k]).len() + bytes.len() > pre.cap()
            &&& naddr == g * pre.cap() + pre.model()[g].len()
            &&& mid.model() == pre.model().update(g, pre.model()[g] + bytes)
        };
    let f: int = if d1 {
        choose|g: int|
            {
                &&& 0 <= g < pre.count()
                &&& (#[trigger] pre.model()[g]).len() + bytes.len() <= pre.cap()
                &&& forall|k: int|
                    0 <= k < g ==> (#[trigger] pre.model()[k]).len() + bytes.len() > pre.cap()
                &&& naddr == g * pre.cap() + pre.model()[g].len()
                &&& mid.model() == pre.model().update(g, pre.model()[g] + bytes)
            }
    } else {
        pre.count()
    };
    assert(f * cap <= naddr && naddr + bytes.len() <= f * cap + cap);
    assert(f == i ==> mid.model()[i] == pre.model()[i] + bytes);
    assert(f != i ==> mid.model()[i] == pre.model()[i]);
    assert(mid.model()[i].len() == pre.model()[i].len() + if f == i {
        bytes.len() as int
    } else {
        0
    });
    if mid.tail_block(addr, os) && f == i && bytes.len() > 0 {
        // the old block's end was the cursor of its chunk and the fresh
        // block extended the same chunk: impossible for a fully live
        // old block with anything copied
        assert(addr % cap + os <= pre.model()[i].len());
        assert(addr % cap + os == mid.model()[i].len());
        assert(false);
    }
    if mid.tail_block(addr, os) {
        assert(addr % cap + os == mid.model()[i].len());
        assert(mid.model()[i].len() == pre.model()[i].len());
        assert forall|a: int| naddr <= a && a < naddr + bytes.len() implies post.resident(a)
            && post.value_at(a) == bytes[a - naddr] by {
            assert(mid.resident(a) && mid.value_at(a) == bytes[a - naddr]);
            lemma_owner_index(cap, f, a);
            assert(f != i);
            assert(post.model()[f] == mid.model()[f]);
        }
        assert forall|a: int|
            pre.resident(a) && !(addr <= a && a < addr + os) && !(naddr <= a && a < naddr
                + bytes.len()) implies post.resident(a) && post.value_at(a) == pre.value_at(
            a,
        ) by {
            let ja = pre.owner(a);
            lemma_owner_window(cap, ja, a);
            lemma_owner_index(cap, ja, a);
            assert(mid.resident(a) && mid.value_at(a) == pre.value_at(a));
            if ja == i {
                // it survives the truncation: it sits below the freed block
                assert(a % cap < pre.model()[i].len());
                if a >= addr + os {
                    assert(a % cap == a - i * cap);
                    assert(addr % cap == addr - i * cap);
                    assert(a % cap >= addr % cap + os);
                    assert(false);
                }
                assert(a < addr);
                assert(a % cap < addr % cap);
                assert(post.model()[i] == mid.model()[i].take(addr % cap));
                assert(mid.model()[i][a % cap] == pre.model()[i][a % cap]);
            } else {
                assert(post.model()[ja] == mid.model()[ja]);
            }
        }
    } else {
        assert(post.model() == mid.model());
        assert forall|a: int| naddr <= a && a < naddr + bytes.len() implies post.resident(a)
            && post.value_at(a) == bytes[a - naddr] by {
            assert(mid.resident(a) && mid.value_at(a) == bytes[a - naddr]);
        }
        assert forall|a: int|
            pre.resident(a) && !(addr <= a && a < addr + os) && !(naddr <= a && a < naddr
                + bytes.len()) implies post.resident(a) && post.value_at(a) == pre.value_at(
            a,
        ) by {
            assert(mid.resident(a) && mid.value_at(a) == pre.value_at(a));
        }
    }
}

impl<T, A, const DROP: bool> Arena<T, A, DROP> {
    /// The block at `addr` can be extended where it lies: it is the
    /// tail allocation of its chunk and the extra units fit there.
    pub open spec fn grow_in_place_ok(&self, addr: int, os: int, ns: int) -> bool {
        self.tail_block(addr, os) && self.model()[self.owner(addr)].len() + ns - os <= self.cap()
    }

    /// Unit `j` of the block at `addr`, as held by the owning chunk;
    /// a unit the chunk does not hold reads as `dflt`.
    pub open spec fn block_unit_or(&self, addr: int, j: int, dflt: T) -> T {
        if self.owned(addr) && addr % self.cap() + j < self.model()[self.owner(addr)].len() {
            self.model()[self.owner(addr)][addr % self.cap() + j]
        } else {
            dflt
        }
    }
}

} // verus!

verus! {

impl<A: Clone> Arena<u8, A, false> {
    /// The allocator capability: grow the block at `addr` from
    /// `old_layout.size` to `new_layout.size` bytes.
    ///
    /// If the block is the tail allocation of its chunk and the delta
    /// fits there, it is extended in place (the added bytes zeroed)
    /// and keeps its address.  Otherwise a fresh block is allocated,
    /// the owning chunk's bytes of the old block are copied into it
    /// (never losing them before the copy), and the old block is
    /// returned to its chunk, which reclaims it only if it is the
    /// tail.
    pub fn grow(&mut self, addr: usize, old_layout: Layout, new_layout: Layout) -> (r: Result<
        usize,
        AllocError,
    >)
        requires
            old(self).wf(),
            old_layout.size <= new_layout.size,
        ensures
            final(self).wf(),
            final(self).cap() == old(self).cap(),
            old(self).grow_in_place_ok(addr as int, old_layout.size as int, new_layout.size as int)
                ==> r == Ok::<usize, AllocError>(addr) && final(self).model() == old(
                self,
            ).model().update(
                old(self).owner(addr as int),
                old(self).model()[old(self).owner(addr as int)] + Seq::new(
                    (new_layout.size - old_layout.size) as nat,
                    |k: int| 0u8,
                ),
            ),
            !old(self).grow_in_place_ok(
                addr as int,
                old_layout.size as int,
                new_layout.size as int,
            ) ==> {
                &&& (r is Ok <==> old(self).can_alloc(new_layout.size as int))
                &&& (r is Err ==> final(self).model() == old(self).model())
            },
            !old(self).grow_in_place_ok(
                addr as int,
                old_layout.size as int,
                new_layout.size as int,
            ) && old(self).block_live(addr as int, old_layout.size as int) ==> (r matches Ok(naddr)
                ==> {
                &&& (forall|a: int|
                    naddr <= a && a < naddr + new_layout.size ==> final(self).resident(a) && final(self).value_at(a) == (if a - naddr < old_layout.size {
                        old(self).value_at(addr + (a - naddr))
                    } else {
                        0u8
                    }))
                &&& (forall|a: int|
                    old(self).resident(a) && !(addr <= a && a < addr + old_layout.size) && !(naddr
                        <= a && a < naddr + new_layout.size) ==> final(self).resident(a) && final(self).value_at(a) == old(self).value_at(a))
            }),
    {
        let os = old_layout.size;
        let ns = new_layout.size;
        let ghost pre = *old(self);
        match self.find_owner(addr) {
            Some(i) => {
                proof {
                    lemma_owner_index(self.cap(), i as int, addr as int);
                    assert(self.chunks@[i as int].wf());
                    assert(self.chunks@[i as int].cap() == self.cap());
                    assert(self.chunks@[i as int].base_addr() == i as int * self.cap());
                    assert(self.chunks@[i as int].contents() == self.model()[i as int]);
                }
                let c = &mut self.chunks[i];
                let res = c.grow_in_place(addr, os, ns);
                proof {
                    lemma_update_model(pre, *self, i as int);
                }
                match res {
                    Ok(_) => {
                        proof {
                            assert(pre.grow_in_place_ok(addr as int, os as int, ns as int));
                        }
                        return Ok(addr);
                    },
                    Err(_) => {
                        proof {
                            assert(!pre.grow_in_place_ok(addr as int, os as int, ns as int));
                            assert_seqs_equal!(self.model(), pre.model());
                        }
                    },
                }
            },
            None => {
                proof {
                    assert(!pre.grow_in_place_ok(addr as int, os as int, ns as int));
                }
            },
        }
        self.relocate(addr, os, ns)
    }

    /// The allocator capability: shrink the block at `addr` from
    /// `old_layout.size` to `new_layout.size` bytes.
    ///
    /// If the block is the tail allocation of its chunk it is
    /// contracted in place and keeps its address.  Otherwise a fresh
    /// block is allocated, the owning chunk's first `new_layout.size`
    /// bytes of the old block are copied into it, and the old block
    /// is returned to its chunk.
    pub fn shrink(&mut self, addr: usize, old_layout: Layout, new_layout: Layout) -> (r: Result<
        usize,
        AllocError,
    >)
        requires
            old(self).wf(),
            new_layout.size <= old_layout.size,
        ensures
            final(self).wf(),
            final(self).cap() == old(self).cap(),
            old(self).tail_block(addr as int, old_layout.size as int) ==> r == Ok::<
                usize,
                AllocError,
            >(addr) && final(self).model() == old(self).model().update(
                old(self).owner(addr as int),
                old(self).model()[old(self).owner(addr as int)].take(
                    addr as int % old(self).cap() + new_layout.size,
                ),
            ),
            !old(self).tail_block(addr as int, old_layout.size as int) ==> {
                &&& (r is Ok <==> old(self).can_alloc(new_layout.size as int))
                &&& (r is Err ==> final(self).model() == old(self).model())
            },
            !old(self).tail_block(addr as int, old_layout.size as int) && old(self).block_live(
                addr as int,
                old_layout.size as int,
            ) ==> (r matches Ok(naddr) ==> {
                &&& (forall|a: int|
                    naddr <= a && a < naddr + new_layout.size ==> final(self).resident(a) && final(self).value_at(a) == old(self).value_at(addr + (a - naddr)))
                &&& (forall|a: int|
                    old(self).resident(a) && !(addr <= a && a < addr + old_layout.size) && !(naddr
                        <= a && a < naddr + new_layout.size) ==> final(self).resident(a) && final(self).value_at(a) == old(self).value_at(a))
            }),
    {
        let os = old_layout.size;
        let ns = new_layout.size;
        let ghost pre = *old(self);
        match self.find_owner(addr) {
            Some(i) => {
                proof {
                    lemma_owner_index(self.cap(), i as int, addr as int);
                    assert(self.chunks@[i as int].wf());
                    assert(self.chunks@[i as int].cap() == self.cap());
                    assert(self.chunks@[i as int].base_addr() == i as int * self.cap());
                    assert(self.chunks@[i as int].contents() == self.model()[i as int]);
                }
                let c = &mut self.chunks[i];
                let res = c.shrink_in_place(addr, os, ns);
                proof {
                    lemma_update_model(pre, *self, i as int);
                }
                match res {
                    Ok(_) => {
                        proof {
                            assert(pre.tail_block(addr as int, os as int));
                        }
                        return Ok(addr);
                    },
                    Err(_) => {
                        proof {
                            assert(!pre.tail_block(addr as int, os as int));
                            assert_seqs_equal!(self.model(), pre.model());
                        }
                    },
                }
            },
            None => {
                proof {
                    assert(!pre.tail_block(addr as int, os as int));
                }
            },
        }
        self.relocate(addr, os, ns)
    }

    /// Allocate a fresh block of `ns` bytes, copy into it what the
    /// old block's owning chunk holds of its first `min(os, ns)`
    /// bytes (the rest zeroed), then return the old block.
    fn relocate(&mut self, addr: usize, os: usize, ns: usize) -> (r: Result<usize, AllocError>)
        requires
            old(self).wf(),
        ensures
            final(self).wf(),
            final(self).cap() == old(self).cap(),
            r is Ok <==> old(self).can_alloc(ns as int),
            r is Err ==> final(self).model() == old(self).model(),
            old(self).block_live(addr as int, os as int) ==> (r matches Ok(naddr) ==> {
                &&& (forall|a: int|
                    naddr <= a && a < naddr + ns ==> final(self).resident(a) && final(self).value_at(a) == (if a - naddr < os && a - naddr < ns {
                        old(self).value_at(addr + (a - naddr))
                    } else {
                        0u8
                    }))
                &&& (forall|a: int|
                    old(self).resident(a) && !(addr <= a && a < addr + os) && !(naddr <= a && a
                        < naddr + ns) ==> final(self).resident(a) && final(self).value_at(a) == old(
                        self,
                    ).value_at(a))
            }),
    {
        let ghost pre = *old(self);
        let keep: usize = if os < ns {
            os
        } else {
            ns
        };
        let mut buf: Vec<u8>;
        match self.find_owner(addr) {
            Some(i) => {
                proof {
                    lemma_owner_index(self.cap(), i as int, addr as int);
                }
                let entries = self.chunks[i].entries();
                let base = self.chunks[i].base();
                let off = addr - base;
                proof {
                    assert(self.model()[i as int] == self.chunks@[i as int].contents());
                    assert(self.chunks@[i as int].base_addr() == i as int * self.cap());
                    assert(off == addr as int % self.cap());
                }
                let avail: usize = if off >= entries {
                    0
                } else if entries - off < keep {
                    entries - off
                } else {
                    keep
                };
                buf = if off <= entries {
                    self.chunks[i].read_range(addr, avail)
                } else {
                    Vec::new()
                };
                proof {
                    if pre.block_live(addr as int, os as int) {
                        assert(avail == keep);
                        assert forall|j: int| 0 <= j < buf@.len() implies buf@[j] == (if j < keep {
                            pre.value_at(addr + j)
                        } else {
                            0u8
                        }) by {
                            assert(buf@[j] == self.model()[i as int][off + j]);
                            lemma_owner_index(self.cap(), i as int, addr + j);
                        }
                    }
                }
            },
            None => {
                buf = Vec::new();
            },
        }
        proof {
            assert(buf@.len() <= ns);
        }
        while buf.len() < ns
            invariant
                self.wf(),
                *self == *old(self),
                buf@.len() <= ns,
                keep <= ns,
                pre == *old(self),
                pre.block_live(addr as int, os as int) ==> keep <= buf@.len() && forall|j: int|
                    0 <= j < buf@.len() ==> buf@[j] == (if j < keep {
                        pre.value_at(addr + j)
                    } else {
                        0u8
                    }),
            decreases ns - buf@.len(),
        {
            buf.push(0u8);
        }
        let res = if ns == 0 {
            self.alloc_zeroed_impl(0)
        } else {
            self.alloc_slice_impl(buf.as_slice())
        };
        match res {
            Ok(naddr) => {
                proof {
                    if ns == 0 {
                        assert(buf@ =~= Seq::new(0nat, |k: int| 0u8));
                    }
                    assert(Self::alloc_step(pre, *self, naddr as int, buf@));
                }
                let ghost mid = *self;
                self.dealloc_impl(addr, os);
                proof {
                    if pre.block_live(addr as int, os as int) {
                        lemma_relocate(pre, mid, *self, addr as int, os as int, naddr as int, buf@);
                        assert forall|a: int| naddr <= a && a < naddr + ns implies self.resident(a)
                            && self.value_at(a) == (if a - naddr < os && a - naddr < ns {
                            pre.value_at(addr + (a - naddr))
                        } else {
                            0u8
                        }) by {
                            assert(self.value_at(a) == buf@[a - naddr]);
                        }
                    }
                }
                Ok(naddr)
            },
            Err(e) => {
                proof {
                    assert(self.model() == pre.model());
                }
                Err(e)
            },
        }
    }
}

} // verus!

verus! {

/// The total of a sequence of request sizes.
pub open spec fn sum_of(sizes: Seq<int>) -> int
    decreases sizes.len(),
{
    if sizes.len() == 0 {
        0
    } else {
        sizes[0] + sum_of(sizes.drop_first())
    }
}

/// The bump cursor before request `i` of a sequence: the sum of the
/// requests before it.  Request `i` is served the region
/// `[bump_start(sizes, i), bump_start(sizes, i) + sizes[i])` of its
/// chunk.
pub open spec fn bump_start(sizes: Seq<int>, i: int) -> int {
    sum_of(sizes.take(i))
}

proof fn lemma_sum_of_take_step(sizes: Seq<int>, i: int)
    requires
        0 <= i < sizes.len(),
    ensures
        sum_of(sizes.take(i + 1)) == sum_of(sizes.take(i)) + sizes[i],
    decreases i,
{
    if i == 0 {
        assert(sizes.take(1) =~= seq![sizes[0]]);
        assert(sizes.take(1).drop_first() =~= Seq::<int>::empty());
        assert(sizes.take(0) =~= Seq::<int>::empty());
    } else {
        lemma_sum_of_take_step(sizes.drop_first(), i - 1);
        assert(sizes.take(i + 1).drop_first() =~= sizes.drop_first().take(i));
        assert(sizes.take(i).drop_first() =~= sizes.drop_first().take(i - 1));
        assert(sum_of(sizes.take(i + 1)) == sizes[0] + sum_of(sizes.drop_first().take(i)));
        assert(sum_of(sizes.take(i)) == sizes[0] + sum_of(sizes.drop_first().take(i - 1)));
        assert(sizes.drop_first()[i - 1] == sizes[i]);
    }
}

proof fn lemma_bump_monotone(sizes: Seq<int>, i: int, j: int)
    requires
        forall|k: int| 0 <= k < sizes.len() ==> #[trigger] sizes[k] >= 0,
        0 <= i <= j <= sizes.len(),
    ensures
        bump_start(sizes, i) <= bump_start(sizes, j),
    decreases j - i,
{
    if i < j {
        lemma_sum_of_take_step(sizes, i);
        lemma_bump_monotone(sizes, i + 1, j);
    }
}

/// The law of the bump discipline: serve a sequence of same-chunk
/// requests whose total does not exceed the capacity, and the
/// returned regions are pairwise disjoint, lie within the chunk's
/// bounds, and what remains is the capacity minus the total of the
/// requests.
pub proof fn lemma_bump_regions_disjoint(cap: int, sizes: Seq<int>)
    requires
        forall|k: int| 0 <= k < sizes.len() ==> #[trigger] sizes[k] >= 0,
        sum_of(sizes) <= cap,
    ensures
        forall|i: int|
            0 <= i < sizes.len() ==> 0 <= bump_start(sizes, i) && #[trigger] bump_start(sizes, i)
                + sizes[i] <= cap,
        forall|i: int, j: int|
            0 <= i < j < sizes.len() ==> #[trigger] bump_start(sizes, i) + sizes[i]
                <= #[trigger] bump_start(sizes, j),
        cap - bump_start(sizes, sizes.len() as int) == cap - sum_of(sizes),
{
    assert(sizes.take(sizes.len() as int) =~= sizes);
    assert forall|i: int|
        0 <= i < sizes.len() implies 0 <= bump_start(sizes, i) && #[trigger] bump_start(sizes, i)
        + sizes[i] <= cap by {
        lemma_bump_monotone(sizes, 0, i);
        assert(sizes.take(0) =~= Seq::<int>::empty());
        lemma_sum_of_take_step(sizes, i);
        lemma_bump_monotone(sizes, i + 1, sizes.len() as int);
    }
    assert forall|i: int, j: int|
        0 <= i < j < sizes.len() implies #[trigger] bump_start(sizes, i) + sizes[i]
        <= #[trigger] bump_start(sizes, j) by {
        lemma_sum_of_take_step(sizes, i);
        lemma_bump_monotone(sizes, i + 1, j);
    }
}

} // verus!

verus! {

/// Tail deallocation moves the owning chunk's cursor down by exactly
/// the freed unit count; nothing else about the chunk list changes.
pub proof fn lemma_tail_dealloc_cursor<T, A, const DROP: bool>(
    pre: Arena<T, A, DROP>,
    post: Arena<T, A, DROP>,
    addr: int,
    len: int,
)
    requires
        pre.wf(),
        len >= 0,
        pre.tail_block(addr, len),
        post.model() == pre.model().update(
            pre.owner(addr),
            pre.model()[pre.owner(addr)].take(addr % pre.cap()),
        ),
    ensures
        post.model()[pre.owner(addr)].len() == pre.model()[pre.owner(addr)].len() - len,
        post.model().len() == pre.model().len(),
        forall|k: int|
            0 <= k < pre.model().len() && k != pre.owner(addr) ==> post.model()[k]
                == #[trigger] pre.model()[k],
{
    vstd::arithmetic::div_mod::lemma_mod_bound(addr, pre.cap());
}

} // verus!
