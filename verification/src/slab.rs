//! Slab allocator: pooled storage with stable integer handles and
//! constant-time reuse of freed slots through an intrusive free list.

use vstd::prelude::*;
use vstd::map::*;
use vstd::set_lib::{lemma_int_range, lemma_len_subset, set_int_range};

use crate::layout::{AllocError, Global};

verus! {

/// The sentinel index that terminates the free list.
pub const EMPTY: usize = usize::MAX;

/// One slot of the pool: a live value, or a link to the next free
/// slot.
pub enum SlabSlot<T> {
    /// The slot holds a live value.
    Value(T),
    /// The slot is free; the payload is the index of the next free
    /// slot, or [`EMPTY`].
    FreeLink(usize),
}

/// Pooled storage for values of `T`.
///
/// `insert` hands out the index of the slot it filled; `remove` frees
/// a slot and threads it onto the free list, so the next `insert`
/// reuses exactly that slot.  Slot indices are never deallocated from
/// the backing vector, only recycled.
pub struct SlabAllocator<T, A = Global> {
    slots: Vec<SlabSlot<T>>,
    free: usize,
    len: usize,
    free_list: Ghost<Seq<usize>>,
    allocator: A,
}

/// The slab under its original name.
pub type Slab<T, A = Global> = SlabAllocator<T, A>;

impl<T, A> SlabAllocator<T, A> {
    /// Abstract state: the map from occupied slot index to its value.
    pub closed spec fn contents(&self) -> Map<int, T> {
        Map::new(
            |i: int| 0 <= i < self.slots@.len() && self.slots@[i] is Value,
            |i: int| self.slots@[i]->Value_0,
        )
    }

    /// The free slot indices, in the order the free list links them.
    pub closed spec fn free_seq(&self) -> Seq<usize> {
        self.free_list@
    }

    /// How many slots are occupied.
    pub closed spec fn occupied(&self) -> int {
        self.len as int
    }

    /// How many slots the backing vector holds.
    pub closed spec fn slot_count(&self) -> int {
        self.slots@.len() as int
    }

    /// The index the next `insert` will return: the head of the free
    /// list if one exists, else the fresh index at the end of the
    /// vector.
    pub open spec fn next_index(&self) -> int {
        if self.free_seq().len() > 0 {
            self.free_seq()[0] as int
        } else {
            self.slot_count()
        }
    }

    /// The free list threads exactly the free slots: every index on
    /// it is a `FreeLink` slot pointing at its successor (the last at
    /// [`EMPTY`]), every `FreeLink` slot is on it exactly once, and
    /// the occupied count accounts for the rest.
    pub closed spec fn wf(&self) -> bool {
        let fl = self.free_list@;
        &&& self.len + fl.len() == self.slots@.len()
        &&& (fl.len() == 0 <==> self.free == EMPTY)
        &&& (fl.len() > 0 ==> self.free == fl[0])
        &&& fl.no_duplicates()
        &&& forall|k: int| 0 <= k < fl.len() ==> (#[trigger] fl[k]) < self.slots@.len()
        &&& forall|k: int|
            0 <= k < fl.len() ==> self.slots@[#[trigger] fl[k] as int] == (SlabSlot::<T>::FreeLink(
                if k + 1 < fl.len() {
                    fl[k + 1]
                } else {
                    EMPTY
                },
            ))
        &&& forall|i: int|
            0 <= i < self.slots@.len() && (#[trigger] self.slots@[i]) is FreeLink ==> fl.contains(
                i as usize,
            )
    }

    /// Create an empty slab over the given backing allocator.
    pub fn new_in(allocator: A) -> (r: Self)
        ensures
            r.wf(),
            r.contents() == Map::<int, T>::empty(),
            r.occupied() == 0,
            r.slot_count() == 0,
            r.free_seq().len() == 0,
    {
        let r = SlabAllocator {
            slots: Vec::new(),
            free: EMPTY,
            len: 0,
            free_list: Ghost(Seq::empty()),
            allocator,
        };
        proof {
            assert(r.contents() =~= Map::<int, T>::empty());
        }
        r
    }

    /// Number of occupied slots in the slab.
    pub fn len(&self) -> (r: usize)
        ensures
            r == self.occupied(),
    {
        self.len
    }

    /// Check whether the slab contains no elements.
    pub fn is_empty(&self) -> (r: bool)
        ensures
            r <==> self.occupied() == 0,
    {
        self.len == 0
    }

    /// Total capacity of the underlying storage.
    pub fn capacity(&self) -> (r: usize)
        ensures
            r == self.slot_count(),
    {
        self.slots.len()
    }

    /// Get a shared reference to the value at `index` if it exists.
    pub fn get(&self, index: usize) -> (r: Option<&T>)
        requires
            self.wf(),
        ensures
            r is Some <==> self.contents().contains_key(index as int),
            r matches Some(v) ==> *v == self.contents()[index as int],
    {
        if index >= self.slots.len() {
            return None;
        }
        match &self.slots[index] {
            SlabSlot::Value(v) => Some(v),
            SlabSlot::FreeLink(_) => None,
        }
    }

    /// Get a mutable reference to the value at `index` if it exists.
    pub fn get_mut(&mut self, index: usize) -> (r: Option<&mut T>)
        requires
            old(self).wf(),
        ensures
            r is Some <==> old(self).contents().contains_key(index as int),
            final(self).wf(),
            final(self).occupied() == old(self).occupied(),
            final(self).slot_count() == old(self).slot_count(),
            final(self).free_seq() == old(self).free_seq(),
            final(self).next_index() == old(self).next_index(),
            r is None ==> final(self).contents() =~= old(self).contents(),
            r matches Some(v) ==> *v == old(self).contents()[index as int] && final(self).contents() =~= old(self).contents().insert(index as int, *final(v)),
    {
        if index >= self.slots.len() {
            return None;
        }
        let ghost pre = *self;
        proof {
            assert forall|k: int|
                0 <= k < pre.free_list@.len() && pre.slots@[index as int] is Value implies (
            #[trigger] pre.free_list@[k]) != index by {
                if pre.free_list@[k] == index {
                    assert(pre.slots@[index as int] is FreeLink);
                }
            }
        }
        match &mut self.slots[index] {
            SlabSlot::Value(v) => Some(v),
            SlabSlot::FreeLink(_) => None,
        }
    }
}

/// A sequence of distinct in-range indices that misses one in-range
/// index cannot fill the whole range.
proof fn lemma_free_list_shorter(fl: Seq<usize>, n: int, missing: usize)
    requires
        fl.no_duplicates(),
        forall|k: int| 0 <= k < fl.len() ==> (#[trigger] fl[k]) < n,
        (missing as int) < n,
        !fl.contains(missing),
    ensures
        fl.len() < n,
{
    let fi = fl.map_values(|x: usize| x as int);
    assert(fi.no_duplicates()) by {
        assert forall|k1: int, k2: int|
            0 <= k1 < fi.len() && 0 <= k2 < fi.len() && k1 != k2 implies fi[k1] != fi[k2] by {
            assert(fl[k1] != fl[k2]);
        }
    }
    fi.unique_seq_to_set();
    let range = set_int_range(0, n).remove(missing as int);
    lemma_int_range(0, n);
    assert(fi.to_set().subset_of(range)) by {
        assert forall|x: int| fi.to_set().contains(x) implies range.contains(x) by {
            let k = choose|k: int| 0 <= k < fi.len() && fi[k] == x;
            assert(fl[k] == x as usize);
            assert(0 <= x < n);
            if x == missing as int {
                assert(fl.contains(missing));
            }
        }
    }
    lemma_len_subset(fi.to_set(), range);
    assert(range.len() == n - 1);
}

impl<T, A> SlabAllocator<T, A> {
    /// Try to insert a value, returning its index on success.  The
    /// head of the free list is reused if there is one; otherwise a
    /// fresh slot is appended.  In this representation the backing
    /// vector itself performs any growth, so the call always
    /// succeeds.
    #[verifier::rlimit(30)]
    pub fn try_insert(&mut self, value: T) -> (r: Result<usize, AllocError>)
        requires
            old(self).wf(),
        ensures
            final(self).wf(),
            r matches Ok(idx) ==> {
                &&& idx == old(self).next_index()
                &&& !old(self).contents().contains_key(idx as int)
                &&& final(self).contents() == old(self).contents().insert(idx as int, value)
                &&& final(self).occupied() == old(self).occupied() + 1
                &&& final(self).free_seq() == (if old(self).free_seq().len() > 0 {
                    old(self).free_seq().drop_first()
                } else {
                    Seq::<usize>::empty()
                })
                &&& final(self).slot_count() == (if old(self).free_seq().len() > 0 {
                    old(self).slot_count()
                } else {
                    old(self).slot_count() + 1
                })
            },
            r is Ok,
    {
        let ghost pre = *self;
        if self.free != EMPTY {
            let idx = self.free;
            proof {
                assert(pre.free_list@.len() > 0);
                assert(idx == pre.free_list@[0]);
                assert(pre.slots@[idx as int] is FreeLink);
            }
            let next: usize = match &self.slots[idx] {
                SlabSlot::FreeLink(n) => *n,
                SlabSlot::Value(_) => {
                    proof {
                        assert(false);
                    }
                    EMPTY
                },
            };
            self.slots.set(idx, SlabSlot::Value(value));
            self.free = next;
            self.len = self.len + 1;
            proof {
                self.free_list@ = pre.free_list@.drop_first();
            }
            proof {
                let fl = pre.free_list@;
                let nfl = self.free_list@;
                assert(nfl.len() == fl.len() - 1);
                assert forall|k: int| 0 <= k < nfl.len() implies (#[trigger] nfl[k])
                    != idx by {
                    assert(nfl[k] == fl[k + 1]);
                    assert(fl[0] == idx);
                }
                assert forall|k: int|
                    0 <= k < nfl.len() implies self.slots@[#[trigger] nfl[k] as int] == (
                SlabSlot::<T>::FreeLink(
                    if k + 1 < nfl.len() {
                        nfl[k + 1]
                    } else {
                        EMPTY
                    },
                )) by {
                    assert(nfl[k] == fl[k + 1]);
                    assert(fl[k + 1] != idx);
                }
                assert forall|i: int|
                    0 <= i < self.slots@.len() && (#[trigger] self.slots@[i]) is FreeLink implies
                    nfl.contains(i as usize) by {
                    assert(i != idx);
                    assert(pre.slots@[i] is FreeLink);
                    let k = choose|k: int| 0 <= k < fl.len() && fl[k] == i as usize;
                    assert(k > 0);
                    assert(nfl[k - 1] == i as usize);
                }
                assert(self.wf());
                assert_maps_equal!(
                    self.contents(),
                    pre.contents().insert(idx as int, value)
                );
            }
            Ok(idx)
        } else {
            let idx = self.slots.len();
            self.slots.push(SlabSlot::Value(value));
            self.len = self.slots.len();
            proof {
                let fl = pre.free_list@;
                assert(fl.len() == 0);
                assert forall|i: int|
                    0 <= i < self.slots@.len() && (#[trigger] self.slots@[i]) is FreeLink implies
                    fl.contains(i as usize) by {
                    if i < idx {
                        assert(pre.slots@[i] is FreeLink);
                    }
                }
                assert(self.wf());
                assert_maps_equal!(
                    self.contents(),
                    pre.contents().insert(idx as int, value)
                );
            }
            Ok(idx)
        }
    }

    /// Insert a value, returning its index.
    pub fn insert(&mut self, value: T) -> (idx: usize)
        requires
            old(self).wf(),
        ensures
            final(self).wf(),
            idx == old(self).next_index(),
            !old(self).contents().contains_key(idx as int),
            final(self).contents() == old(self).contents().insert(idx as int, value),
            final(self).occupied() == old(self).occupied() + 1,
            final(self).free_seq() == (if old(self).free_seq().len() > 0 {
                old(self).free_seq().drop_first()
            } else {
                Seq::<usize>::empty()
            }),
            final(self).slot_count() == (if old(self).free_seq().len() > 0 {
                old(self).slot_count()
            } else {
                old(self).slot_count() + 1
            }),
    {
        match self.try_insert(value) {
            Ok(idx) => idx,
            Err(_) => {
                proof {
                    assert(false);
                }
                0
            },
        }
    }

    /// Remove a value at the given index, returning it if present.
    /// The freed slot becomes the head of the free list, so it is the
    /// next index a subsequent `insert` returns.
    #[verifier::rlimit(30)]
    pub fn remove(&mut self, index: usize) -> (r: Option<T>)
        requires
            old(self).wf(),
        ensures
            final(self).wf(),
            r is Some <==> old(self).contents().contains_key(index as int),
            r is None ==> *final(self) == *old(self),
            r matches Some(v) ==> {
                &&& v == old(self).contents()[index as int]
                &&& final(self).contents() == old(self).contents().remove(index as int)
                &&& final(self).occupied() == old(self).occupied() - 1
                &&& final(self).slot_count() == old(self).slot_count()
                &&& final(self).free_seq() == seq![index] + old(self).free_seq()
                &&& final(self).next_index() == index
            },
    {
        let ghost pre = *self;
        if index >= self.slots.len() {
            return None;
        }
        let is_value = match &self.slots[index] {
            SlabSlot::Value(_) => true,
            SlabSlot::FreeLink(_) => false,
        };
        if !is_value {
            return None;
        }
        proof {
            assert forall|k: int| 0 <= k < pre.free_list@.len() implies (#[trigger] pre
                .free_list@[k]) != index by {
                if pre.free_list@[k] == index {
                    assert(pre.slots@[index as int] is FreeLink);
                }
            }
            assert(!pre.free_list@.contains(index));
            lemma_free_list_shorter(pre.free_list@, pre.slots@.len() as int, index);
            assert(pre.len >= 1);
        }
        let mut taken = SlabSlot::FreeLink(self.free);
        self.slots.set_and_swap(index, &mut taken);
        self.free = index;
        self.len = self.len - 1;
        proof {
            self.free_list@ = seq![index] + pre.free_list@;
        }
        match taken {
            SlabSlot::Value(v) => {
                proof {
                    let fl = pre.free_list@;
                    let nfl = self.free_list@;
                    assert(nfl[0] == index);
                    assert forall|k: int|
                        0 <= k < nfl.len() implies self.slots@[#[trigger] nfl[k] as int] == (
                    SlabSlot::<T>::FreeLink(
                        if k + 1 < nfl.len() {
                            nfl[k + 1]
                        } else {
                            EMPTY
                        },
                    )) by {
                        if k == 0 {
                            assert(self.slots@[index as int] == SlabSlot::<T>::FreeLink(pre.free));
                        } else {
                            assert(nfl[k] == fl[k - 1]);
                            assert(fl[k - 1] != index);
                        }
                    }
                    assert forall|i: int|
                        0 <= i < self.slots@.len() && (#[trigger] self.slots@[i]) is FreeLink
                        implies nfl.contains(i as usize) by {
                        if i == index {
                            assert(nfl[0] == index);
                        } else {
                            assert(pre.slots@[i] is FreeLink);
                            let k = choose|k: int| 0 <= k < fl.len() && fl[k] == i as usize;
                            assert(nfl[k + 1] == i as usize);
                        }
                    }
                    assert(self.wf());
                    assert_maps_equal!(
                        self.contents(),
                        pre.contents().remove(index as int)
                    );
                }
                Some(v)
            },
            SlabSlot::FreeLink(_) => {
                proof {
                    assert(false);
                }
                None
            },
        }
    }
}

impl<T> SlabAllocator<T, Global> {
    /// Create a new slab allocator using the default backing
    /// allocator.
    pub fn new() -> (r: Self)
        ensures
            r.wf(),
            r.contents() == Map::<int, T>::empty(),
            r.occupied() == 0,
            r.slot_count() == 0,
            r.free_seq().len() == 0,
    {
        Self::new_in(Global)
    }
}

impl<T> Default for SlabAllocator<T, Global> {
    fn default() -> (r: Self)
        ensures
            r.wf(),
            r.occupied() == 0,
            r.slot_count() == 0,
    {
        Self::new()
    }
}

/// Inserting a fresh value and then removing its index hands the
/// value back and leaves the occupied map as it was; the freed index
/// is exactly the one a following insertion reuses.
pub proof fn lemma_insert_remove_roundtrip<T>(m: Map<int, T>, idx: int, v: T)
    requires
        !m.contains_key(idx),
    ensures
        m.insert(idx, v)[idx] == v,
        m.insert(idx, v).remove(idx) =~= m,
{
}

} // verus!

verus! {

proof fn lemma_len_disjoint_union<B>(s1: Set<B>, s2: Set<B>)
    requires
        s1.finite(),
        s2.finite(),
        s1.disjoint(s2),
    ensures
        s1.union(s2).len() == s1.len() + s2.len(),
    decreases s1.len(),
{
    broadcast use vstd::set::group_set_axioms;

    if s1.is_empty() {
        assert(s1.union(s2) =~= s2);
    } else {
        let a = s1.choose();
        assert(s1.union(s2).remove(a) =~= s1.remove(a).union(s2));
        assert(s1.remove(a).disjoint(s2));
        lemma_len_disjoint_union(s1.remove(a), s2);
        assert(s1.union(s2).contains(a));
    }
}

/// The occupancy accounting law: the slots the free list does not
/// reach are exactly the occupied ones, and `len` counts them.
pub proof fn lemma_len_counts_occupied<T, A>(s: &SlabAllocator<T, A>)
    requires
        s.wf(),
    ensures
        forall|i: int|
            #[trigger] s.contents().contains_key(i) <==> (0 <= i < s.slot_count()
                && !s.free_seq().contains(i as usize)),
        s.occupied() == s.contents().dom().len(),
{
    broadcast use vstd::set::group_set_axioms;

    let n = s.slot_count();
    let fl = s.free_seq();
    let fi = fl.map_values(|x: usize| x as int);
    assert(s.slots@.len() <= usize::MAX) by {
        broadcast use vstd::std_specs::vec::axiom_spec_len;

        assert(vstd::std_specs::vec::spec_vec_len(&s.slots) == s.slots@.len());
    }
    assert forall|i: int|
        #[trigger] s.contents().contains_key(i) <==> (0 <= i < n && !fl.contains(
            i as usize,
        )) by {
        if 0 <= i < n {
            assert((i as usize) as int == i);
            if s.slots@[i] is FreeLink {
                assert(fl.contains(i as usize));
                assert(!s.contents().contains_key(i));
            } else {
                assert(s.slots@[i] is Value);
                assert(s.contents().contains_key(i));
                if fl.contains(i as usize) {
                    let k = choose|k: int| 0 <= k < fl.len() && fl[k] == i as usize;
                    assert(s.slots@[fl[k] as int] is FreeLink);
                    assert(false);
                }
            }
        } else {
            assert(!s.contents().contains_key(i));
        }
    }
    assert(fi.no_duplicates()) by {
        assert forall|k1: int, k2: int|
            0 <= k1 < fi.len() && 0 <= k2 < fi.len() && k1 != k2 implies fi[k1] != fi[k2] by {
            assert(fl[k1] != fl[k2]);
        }
    }
    fi.unique_seq_to_set();
    let f = fi.to_set();
    let d = s.contents().dom();
    let range = set_int_range(0, n);
    lemma_int_range(0, n);
    assert forall|i: int| #[trigger] f.contains(i) implies 0 <= i < n && s.slots@[i]
        is FreeLink by {
        let k = choose|k: int| 0 <= k < fi.len() && fi[k] == i;
        assert(fl[k] == i as usize);
        assert(s.slots@[fl[k] as int] is FreeLink);
    }
    assert forall|i: int|
        0 <= i < n && s.slots@[i] is FreeLink implies #[trigger] f.contains(i) by {
        assert(fl.contains(i as usize));
        let k = choose|k: int| 0 <= k < fl.len() && fl[k] == i as usize;
        assert(fi[k] == i);
        assert(fi.to_set().contains(fi[k]));
    }
    assert(d =~= range.difference(f));
    assert(d.disjoint(f));
    assert(d.union(f) =~= range);
    lemma_len_disjoint_union(d, f);
    assert(d.len() + f.len() == n);
    assert(f.len() == fl.len());
}

} // verus!
