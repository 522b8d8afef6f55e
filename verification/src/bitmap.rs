//! Bitmap structure for tracking fixed-size boolean flags.

use vstd::prelude::*;
use vstd::pervasive::unreached;
use vstd::pervasive::VecAdditionalExecFns;
use vstd::arithmetic::div_mod::lemma_fundamental_div_mod_converse;

use crate::layout::Global;

verus! {

/// Errors that can occur while operating on a [`Bitmap`].
#[derive(Clone, Copy, Debug, PartialEq, Eq)]
pub enum BitmapError {
    /// Index was outside the bitmap bounds.
    OutOfBounds,
    /// Allocation from the underlying allocator failed.
    AllocError,
    /// Requested size was not a multiple of 8.
    InvalidSize,
}

/// A dynamically sizable bitmap; sizes are counted in bits and must
/// be multiples of 8.
#[derive(Debug)]
pub struct Bitmap<A> {
    /// Allocator used for backing storage.
    allocator: A,
    /// Bytes holding the bitmap bits.
    map: Vec<u8>,
    /// Number of bytes in the bitmap.
    fields: usize,
}

impl<A> Bitmap<A> {
    /// How many bits the bitmap tracks.
    pub closed spec fn bits(&self) -> int {
        self.map@.len() as int * 8
    }

    /// The bit at index `i`.
    pub closed spec fn bit(&self, i: int) -> bool {
        (self.map@[i / 8] >> ((i % 8) as u8)) & 1 == 1
    }

    /// The byte count matches the storage, and small enough that the
    /// bit count fits the address arithmetic.
    pub closed spec fn wf(&self) -> bool {
        &&& self.fields == self.map@.len()
        &&& self.fields <= usize::MAX / 8
    }

    /// Try to create a new bitmap of `size` bits, all clear, in the
    /// given allocator.  Fails exactly when `size` is not a multiple
    /// of 8.
    pub fn try_new_in(allocator: A, size: usize) -> (r: Result<Self, BitmapError>)
        ensures
            r is Ok <==> size % 8 == 0,
            r matches Err(e) ==> e == BitmapError::InvalidSize,
            r matches Ok(b) ==> {
                &&& b.wf()
                &&& b.bits() == size
                &&& forall|i: int| 0 <= i < b.bits() ==> !b.bit(i)
            },
    {
        if size % 8 != 0 {
            return Err(BitmapError::InvalidSize);
        }
        let fields = size / 8;
        let mut map: Vec<u8> = Vec::new();
        while map.len() < fields
            invariant
                map@.len() <= fields,
                forall|k: int| 0 <= k < map@.len() ==> map@[k] == 0u8,
            decreases fields - map@.len(),
        {
            map.push(0u8);
        }
        let b = Bitmap { allocator, map, fields };
        proof {
            assert(b.bits() == size);
            assert forall|i: int| 0 <= i < b.bits() implies !b.bit(i) by {
                assert(b.map@[i / 8] == 0u8);
                let k = (i % 8) as u8;
                assert((0u8 >> k) & 1 == 0) by (bit_vector);
            }
        }
        Ok(b)
    }

    /// Create a new bitmap in the given allocator; `size` must be a
    /// multiple of 8.
    pub fn new_in(allocator: A, size: usize) -> (r: Self)
        requires
            size % 8 == 0,
        ensures
            r.wf(),
            r.bits() == size,
            forall|i: int| 0 <= i < r.bits() ==> !r.bit(i),
    {
        match Self::try_new_in(allocator, size) {
            Ok(b) => b,
            Err(_) => {
                proof {
                    assert(false);
                }
                unreached()
            },
        }
    }

    /// Try to set the bit at the given index.
    pub fn try_set(&mut self, index: usize) -> (r: Result<(), BitmapError>)
        requires
            old(self).wf(),
        ensures
            final(self).wf(),
            final(self).bits() == old(self).bits(),
            r is Ok <==> index < old(self).bits(),
            r matches Err(e) ==> e == BitmapError::OutOfBounds && *final(self) == *old(self),
            r is Ok ==> final(self).bit(index as int) && forall|j: int|
                0 <= j < old(self).bits() && j != index ==> final(self).bit(j) == old(self).bit(j),
    {
        if index >= self.fields * 8 {
            return Err(BitmapError::OutOfBounds);
        }
        let byte_index = index / 8;
        let bit_index = index % 8;
        let b = self.map[byte_index];
        self.map.set(byte_index, b | (1u8 << (bit_index as u8)));
        proof {
            lemma_bit_update(*old(self), *self, index as int, b, b | (1u8 << ((index % 8) as u8)));
            let k = (index % 8) as u8;
            assert((b | (1u8 << k)) >> k & 1 == 1) by (bit_vector)
                requires k < 8;
            assert(forall|k2: u8|
                k2 < 8 && k2 != k ==> ((b | (1u8 << k)) >> k2 & 1 == b >> k2 & 1)) by (bit_vector)
                requires k < 8;
        }
        Ok(())
    }

    /// Set the bit at the given index, which must be in bounds.
    pub fn set(&mut self, index: usize)
        requires
            old(self).wf(),
            index < old(self).bits(),
        ensures
            final(self).wf(),
            final(self).bits() == old(self).bits(),
            final(self).bit(index as int),
            forall|j: int|
                0 <= j < old(self).bits() && j != index ==> final(self).bit(j) == old(self).bit(j),
    {
        let r = self.try_set(index);
        proof {
            assert(r is Ok);
        }
    }

    /// Try to get the bit at the given index.
    pub fn try_get(&self, index: usize) -> (r: Result<bool, BitmapError>)
        requires
            self.wf(),
        ensures
            r is Ok <==> index < self.bits(),
            r matches Err(e) ==> e == BitmapError::OutOfBounds,
            r matches Ok(b) ==> b == self.bit(index as int),
    {
        if index >= self.fields * 8 {
            return Err(BitmapError::OutOfBounds);
        }
        let byte_index = index / 8;
        let bit_index = index % 8;
        let byte = self.map[byte_index];
        let r = (byte & (1u8 << (bit_index as u8))) != 0;
        proof {
            let k = (index % 8) as u8;
            // the masked test and the shifted test agree bit for bit
            assert((byte & (1u8 << k) != 0) == (byte >> k & 1 == 1)) by (bit_vector)
                requires k < 8;
        }
        Ok(r)
    }

    /// Get the bit at the given index, which must be in bounds.
    pub fn get(&self, index: usize) -> (r: bool)
        requires
            self.wf(),
            index < self.bits(),
        ensures
            r == self.bit(index as int),
    {
        match self.try_get(index) {
            Ok(b) => b,
            Err(_) => {
                proof {
                    assert(false);
                }
                false
            },
        }
    }

    /// Try to clear the bit at the given index.
    pub fn try_clear(&mut self, index: usize) -> (r: Result<(), BitmapError>)
        requires
            old(self).wf(),
        ensures
            final(self).wf(),
            final(self).bits() == old(self).bits(),
            r is Ok <==> index < old(self).bits(),
            r matches Err(e) ==> e == BitmapError::OutOfBounds && *final(self) == *old(self),
            r is Ok ==> !final(self).bit(index as int) && forall|j: int|
                0 <= j < old(self).bits() && j != index ==> final(self).bit(j) == old(self).bit(j),
    {
        if index >= self.fields * 8 {
            return Err(BitmapError::OutOfBounds);
        }
        let byte_index = index / 8;
        let bit_index = index % 8;
        let b = self.map[byte_index];
        self.map.set(byte_index, b & !(1u8 << (bit_index as u8)));
        proof {
            lemma_bit_update(
                *old(self),
                *self,
                index as int,
                b,
                b & !(1u8 << ((index % 8) as u8)),
            );
            let k = (index % 8) as u8;
            assert((b & !(1u8 << k)) >> k & 1 == 0) by (bit_vector)
                requires k < 8;
            assert(forall|k2: u8|
                k2 < 8 && k2 != k ==> ((b & !(1u8 << k)) >> k2 & 1 == b >> k2 & 1))
                by (bit_vector)
                requires k < 8;
        }
        Ok(())
    }

    /// Clear the bit at the given index, which must be in bounds.
    pub fn clear(&mut self, index: usize)
        requires
            old(self).wf(),
            index < old(self).bits(),
        ensures
            final(self).wf(),
            final(self).bits() == old(self).bits(),
            !final(self).bit(index as int),
            forall|j: int|
                0 <= j < old(self).bits() && j != index ==> final(self).bit(j) == old(self).bit(j),
    {
        let r = self.try_clear(index);
        proof {
            assert(r is Ok);
        }
    }

    /// Try to resize the bitmap to a new bit count.  Bits below both
    /// sizes are kept; bits gained by growth start clear, and bits
    /// dropped by shrinking are cleared for good.
    pub fn try_resize(&mut self, new_size: usize) -> (r: Result<(), BitmapError>)
        requires
            old(self).wf(),
        ensures
            final(self).wf(),
            r is Ok <==> new_size % 8 == 0,
            r matches Err(e) ==> e == BitmapError::InvalidSize && *final(self) == *old(self),
            r is Ok ==> {
                &&& final(self).bits() == new_size
                &&& forall|j: int|
                    0 <= j < new_size && j < old(self).bits() ==> final(self).bit(j) == old(
                        self,
                    ).bit(j)
                &&& forall|j: int|
                    old(self).bits() <= j < new_size ==> !final(self).bit(j)
            },
    {
        if new_size % 8 != 0 {
            return Err(BitmapError::InvalidSize);
        }
        let new_fields = new_size / 8;
        if new_fields > self.fields {
            while self.map.len() < new_fields
                invariant
                    old(self).fields <= self.map@.len() <= new_fields,
                    self.fields == old(self).fields,
                    self.map@.subrange(0, old(self).fields as int) == old(self).map@,
                    forall|k: int|
                        old(self).fields <= k < self.map@.len() ==> self.map@[k] == 0u8,
                decreases new_fields - self.map@.len(),
            {
                self.map.push(0u8);
                proof {
                    assert(self.map@.subrange(0, old(self).fields as int) =~= old(self).map@);
                }
            }
        } else {
            self.map.truncate(new_fields);
        }
        self.fields = new_fields;
        proof {
            assert forall|j: int|
                0 <= j < new_size && j < old(self).bits() implies self.bit(j) == old(self).bit(
                j,
            ) by {
                assert(0 <= j / 8 < new_fields);
                assert(self.map@[j / 8] == old(self).map@[j / 8]);
            }
            assert forall|j: int| old(self).bits() <= j < new_size implies !self.bit(j) by {
                assert(self.map@[j / 8] == 0u8);
                let k = (j % 8) as u8;
                assert((0u8 >> k) & 1 == 0) by (bit_vector);
            }
        }
        Ok(())
    }

    /// Resize the bitmap; the new bit count must be a multiple of 8.
    pub fn resize(&mut self, new_size: usize)
        requires
            old(self).wf(),
            new_size % 8 == 0,
        ensures
            final(self).wf(),
            final(self).bits() == new_size,
            forall|j: int|
                0 <= j < new_size && j < old(self).bits() ==> final(self).bit(j) == old(self).bit(
                    j,
                ),
            forall|j: int| old(self).bits() <= j < new_size ==> !final(self).bit(j),
    {
        let r = self.try_resize(new_size);
        proof {
            assert(r is Ok);
        }
    }
}

/// Replacing the byte that holds bit `i` changes no other byte's
/// bits, and `i`'s byte and offset come straight out of the division.
proof fn lemma_bit_update<A>(pre: Bitmap<A>, post: Bitmap<A>, i: int, b_old: u8, b_new: u8)
    requires
        pre.wf(),
        0 <= i < pre.bits(),
        post.fields == pre.fields,
        post.map@ == pre.map@.update(i / 8, b_new),
        pre.map@[i / 8] == b_old,
    ensures
        post.wf(),
        post.bits() == pre.bits(),
        forall|j: int|
            0 <= j < pre.bits() && j / 8 != i / 8 ==> post.bit(j) == pre.bit(j),
        forall|j: int|
            0 <= j < pre.bits() && j / 8 == i / 8 && j != i ==> j % 8 != i % 8 && post.bit(j) == (
            b_new >> ((j % 8) as u8) & 1 == 1) && pre.bit(j) == (b_old >> ((j % 8) as u8) & 1
                == 1),
        post.bit(i) == (b_new >> ((i % 8) as u8) & 1 == 1),
{
    assert forall|j: int|
        0 <= j < pre.bits() && j / 8 == i / 8 && j != i implies j % 8 != i % 8 && (#[trigger] post
        .bit(j) == (b_new >> ((j % 8) as u8) & 1 == 1)) && (pre.bit(j) == (b_old >> ((j % 8) as u8)
        & 1 == 1)) by {
        if j % 8 == i % 8 {
            lemma_fundamental_div_mod_converse(j, 8, j / 8, j % 8);
            lemma_fundamental_div_mod_converse(i, 8, i / 8, i % 8);
        }
    }
}

impl Bitmap<Global> {
    /// Create a new bitmap using the default backing allocator;
    /// `size` must be a multiple of 8.
    pub fn new(size: usize) -> (r: Self)
        requires
            size % 8 == 0,
        ensures
            r.wf(),
            r.bits() == size,
            forall|i: int| 0 <= i < r.bits() ==> !r.bit(i),
    {
        Self::new_in(Global, size)
    }
}

} // verus!
