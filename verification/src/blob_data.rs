//! Type-erased column storage: a growable vector of fixed-size byte blocks.

use vstd::prelude::*;
use crate::borrow::BorrowCounter;

verus! {

/// The layout of a component type: how many bytes one value takes and how it
/// must be aligned.
#[derive(Clone, Copy, Debug, PartialEq, Eq, Structural)]
pub struct TypeInfo {
    pub size: usize,
    pub align: usize,
}

impl TypeInfo {
    /// The layout of `T`.
    pub fn of<T>() -> (r: Self)
        ensures
            r.size as nat == vstd::layout::size_of::<T>(),
            r.align as nat == vstd::layout::align_of::<T>(),
    {
        Self::new(core::mem::size_of::<T>(), core::mem::align_of::<T>())
    }

    /// A layout with the given size and alignment.
    pub fn new(size: usize, align: usize) -> (r: Self)
        ensures
            r.size == size,
            r.align == align,
    {
        TypeInfo { size, align }
    }

    /// Tells whether this is the layout of `T`.
    #[must_use]
    pub fn validate<T>(&self) -> (r: bool)
        ensures
            r == (self.size as nat == vstd::layout::size_of::<T>() && self.align as nat
                == vstd::layout::align_of::<T>()),
    {
        self.size == core::mem::size_of::<T>() && self.align == core::mem::align_of::<T>()
    }
}

/// The slot count a full column grows to: eight slots at first, then twice
/// as many each time, never beyond what a `usize` can count.
pub open spec fn grown_capacity(capacity: usize) -> usize {
    if capacity == 0 {
        8
    } else if capacity > usize::MAX / 2 {
        usize::MAX
    } else {
        (capacity * 2) as usize
    }
}

/// Removing element `i` of `s` by moving the last element into its place.
pub open spec fn swap_removed<A>(s: Seq<A>, i: int) -> Seq<A> {
    s.update(i, s.last()).drop_last()
}

/// A column of equally sized values, stored back to back as bytes.
///
/// The view of a column is the sequence of its values, each a sequence of
/// `size` bytes.
pub struct BlobData {
    info: TypeInfo,
    data: Vec<u8>,
    len: usize,
    capacity: usize,
    borrow: BorrowCounter,
}

impl View for BlobData {
    type V = Seq<Seq<u8>>;

    closed spec fn view(&self) -> Seq<Seq<u8>> {
        Seq::new(
            self.len as nat,
            |i: int| self.data@.subrange(i * self.info.size as int, (
                i + 1) * self.info.size as int),
        )
    }
}

/// Where the block of value `i` lies in a buffer of `len` values.
proof fn lemma_slot_bounds(i: int, len: int, size: int)
    by (nonlinear_arith)
    requires
        0 <= i < len,
        0 <= size,
    ensures
        0 <= i * size <= (i + 1) * size <= len * size,
        (i + 1) * size == i * size + size,
{
}

/// Any number of zero-sized values takes no room.
proof fn lemma_mul_by_zero(i: int)
    by (nonlinear_arith)
    ensures
        i * 0 == 0,
{
}

/// The block of an earlier value ends before the block of a later one begins.
proof fn lemma_slots_disjoint(a: int, b: int, size: int)
    by (nonlinear_arith)
    requires
        0 <= a < b,
        0 <= size,
    ensures
        (a + 1) * size <= b * size,
{
}

impl BlobData {
    /// The layout of the values in this column.
    pub closed spec fn spec_info(&self) -> TypeInfo {
        self.info
    }

    /// How many values the column can take before it grows again.
    pub closed spec fn spec_capacity(&self) -> usize {
        self.capacity
    }

    /// The borrows outstanding on this column.
    pub closed spec fn spec_borrow(&self) -> BorrowCounter {
        self.borrow
    }

    /// All values of the column, back to back.
    pub closed spec fn bytes(&self) -> Seq<u8> {
        self.data@
    }

    /// The representation invariant: the buffer holds exactly the live
    /// values, the length does not exceed the capacity, and a column of
    /// zero-sized values either has never been allocated or has the sentinel
    /// capacity.
    pub closed spec fn wf(&self) -> bool {
        &&& self.data@.len() == self.len * self.info.size
        &&& self.len <= self.capacity
        &&& self.info.size == 0 ==> self.capacity == 0 || self.capacity == usize::MAX
    }

    /// Every value of a well-formed column has the size its layout gives, and
    /// value `i` is the `i`-th block of the buffer.
    pub proof fn lemma_layout(&self)
        requires
            self.wf(),
        ensures
            self.bytes().len() == self@.len() * self.spec_info().size,
            self@.len() <= self.spec_capacity(),
            self.spec_info().size == 0 ==> self.spec_capacity() == 0 || self.spec_capacity()
                == usize::MAX,
            forall|i: int|
                0 <= i < self@.len() ==> #[trigger] self@[i] == self.bytes().subrange(
                    i * self.spec_info().size,
                    (i + 1) * self.spec_info().size,
                ) && self@[i].len() == self.spec_info().size,
    {
        assert forall|i: int| 0 <= i < self@.len() implies #[trigger] self@[i]
            == self.bytes().subrange(i * self.spec_info().size, (i + 1) * self.spec_info().size)
            && self@[i].len() == self.spec_info().size by {
            lemma_slot_bounds(i, self.len as int, self.info.size as int);
        }
    }

    /// An empty column for values of the given layout. Nothing is allocated.
    pub fn new(info: TypeInfo) -> (r: Self)
        ensures
            r.wf(),
            r@ == Seq::<Seq<u8>>::empty(),
            r.spec_info() == info,
            r.spec_capacity() == 0,
            r.spec_borrow() == BorrowCounter::spec_new(),
    {
        BlobData { info, data: Vec::new(), len: 0, capacity: 0, borrow: BorrowCounter::new() }
    }

    /// Sets the capacity to `needed_capacity` slots and asks the allocator
    /// for the room. A column of zero-sized values takes the sentinel
    /// capacity instead and touches no memory.
    pub fn allocate(&mut self, needed_capacity: usize)
        requires
            old(self).wf(),
            needed_capacity >= old(self)@.len(),
        ensures
            final(self).wf(),
            final(self)@ == old(self)@,
            final(self).spec_info() == old(self).spec_info(),
            final(self).spec_borrow() == old(self).spec_borrow(),
            final(self).spec_capacity() == if old(self).spec_info().size == 0 {
                usize::MAX
            } else {
                needed_capacity
            },
    {
        if self.info.size == 0 {
            self.capacity = usize::MAX;
            return ;
        }
        let slots: usize = needed_capacity - self.len;
        match slots.checked_mul(self.info.size) {
            Some(additional) => {
                let _ = self.data.try_reserve(additional);
            },
            None => {},
        }
        self.capacity = needed_capacity;
    }

    /// Appends one value, given as its bytes. A full column first grows to
    /// [`grown_capacity`] of its capacity.
    pub fn push_bytes(&mut self, bytes: &[u8])
        requires
            old(self).wf(),
            bytes@.len() == old(self).spec_info().size,
            old(self)@.len() < usize::MAX,
        ensures
            final(self).wf(),
            final(self)@ == old(self)@.push(bytes@),
            final(self).spec_info() == old(self).spec_info(),
            final(self).spec_borrow() == old(self).spec_borrow(),
            final(self).spec_capacity() == if old(self)@.len() < old(self).spec_capacity() {
                old(self).spec_capacity()
            } else if old(self).spec_info().size == 0 {
                usize::MAX
            } else {
                grown_capacity(old(self).spec_capacity())
            },
    {
        if self.len == self.capacity {
            let next: usize = if self.capacity == 0 {
                8
            } else if self.capacity > usize::MAX / 2 {
                usize::MAX
            } else {
                self.capacity * 2
            };
            self.allocate(next);
        }
        if self.info.size == 0 {
            self.len = self.len + 1;
            proof {
                lemma_mul_by_zero(self.len as int);
                lemma_mul_by_zero(old(self).len as int);
                assert forall|i: int| 0 <= i < self.len implies #[trigger] self@[i]
                    == old(self)@.push(bytes@)[i] by {
                    lemma_mul_by_zero(i);
                    lemma_mul_by_zero(i + 1);
                    assert(self@[i] =~= Seq::<u8>::empty());
                    assert(old(self)@.push(bytes@)[i] =~= Seq::<u8>::empty());
                }
                assert(self@ =~= old(self)@.push(bytes@));
            }
            return ;
        }
        let ghost before = self.data@;
        self.data.extend_from_slice(bytes);
        self.len = self.len + 1;
        proof {
            let size = self.info.size as int;
            let n = old(self).len as int;
            lemma_slot_bounds(n, n + 1, size);
            assert(self.data@ =~= before + bytes@);
            assert forall|i: int| 0 <= i < n + 1 implies #[trigger] self@[i] == old(self)@.push(
                bytes@,
            )[i] by {
                lemma_slot_bounds(i, n + 1, size);
                if i < n {
                    lemma_slot_bounds(i, n, size);
                    assert(self.data@.subrange(i * size, (i + 1) * size) =~= before.subrange(
                        i * size,
                        (i + 1) * size,
                    ));
                } else {
                    assert(self.data@.subrange(i * size, (i + 1) * size) =~= bytes@);
                }
            }
            assert(self@ =~= old(self)@.push(bytes@));
        }
    }

    /// Appends one value and takes ownership of its bytes.
    pub fn push(&mut self, value: Vec<u8>)
        requires
            old(self).wf(),
            value@.len() == old(self).spec_info().size,
            old(self)@.len() < usize::MAX,
        ensures
            final(self).wf(),
            final(self)@ == old(self)@.push(value@),
            final(self).spec_info() == old(self).spec_info(),
            final(self).spec_borrow() == old(self).spec_borrow(),
            final(self).spec_capacity() == if old(self)@.len() < old(self).spec_capacity() {
                old(self).spec_capacity()
            } else if old(self).spec_info().size == 0 {
                usize::MAX
            } else {
                grown_capacity(old(self).spec_capacity())
            },
    {
        self.push_bytes(value.as_slice());
    }

    /// The value at `index`, or `None` past the end.
    #[must_use]
    pub fn get(&self, index: usize) -> (r: Option<&[u8]>)
        requires
            self.wf(),
        ensures
            r.is_some() == (index < self@.len()),
            r matches Some(bytes) ==> bytes@ == self@[index as int],
    {
        if index >= self.len {
            return None;
        }
        Some(self.get_bytes(index))
    }

    /// The value at `index`.
    #[must_use]
    pub fn get_bytes(&self, index: usize) -> (r: &[u8])
        requires
            self.wf(),
            index < self@.len(),
        ensures
            r@ == self@[index as int],
    {
        let total: usize = self.data.len();
        proof {
            lemma_slot_bounds(index as int, self.len as int, self.info.size as int);
        }
        let start: usize = index * self.info.size;
        vstd::slice::slice_subrange(self.data.as_slice(), start, start + self.info.size)
    }

    /// Overwrites the value at `index` and hands back the bytes it held.
    pub fn replace(&mut self, index: usize, bytes: &[u8]) -> (previous: Vec<u8>)
        requires
            old(self).wf(),
            index < old(self)@.len(),
            bytes@.len() == old(self).spec_info().size,
        ensures
            final(self).wf(),
            previous@ == old(self)@[index as int],
            final(self)@ == old(self)@.update(index as int, bytes@),
            final(self).spec_info() == old(self).spec_info(),
            final(self).spec_borrow() == old(self).spec_borrow(),
            final(self).spec_capacity() == old(self).spec_capacity(),
    {
        let size: usize = self.info.size;
        let total: usize = self.data.len();
        proof {
            lemma_slot_bounds(index as int, self.len as int, size as int);
        }
        let start: usize = index * size;
        let mut previous: Vec<u8> = Vec::new();
        let mut k: usize = 0;
        while k < size
            invariant
                0 <= k <= size,
                size == self.info.size,
                start == index * size,
                start + size <= self.data@.len(),
                self.data@.len() == old(self).data@.len(),
                self.data@.len() == total,
                self.len == old(self).len,
                self.capacity == old(self).capacity,
                self.info == old(self).info,
                self.borrow == old(self).borrow,
                bytes@.len() == size,
                previous@ == old(self).data@.subrange(start as int, start + k),
                forall|p: int|
                    0 <= p < self.data@.len() ==> #[trigger] self.data@[p] == if start <= p < start
                        + k {
                        bytes@[p - start]
                    } else {
                        old(self).data@[p]
                    },
            decreases size - k,
        {
            let byte: u8 = self.data[start + k];
            previous.push(byte);
            self.data[start + k] = bytes[k];
            k = k + 1;
            assert(previous@ =~= old(self).data@.subrange(start as int, start + k));
        }
        proof {
            let n = self.len as int;
            assert forall|i: int| 0 <= i < n implies #[trigger] self@[i] == old(self)@.update(
                index as int,
                bytes@,
            )[i] by {
                lemma_slot_bounds(i, n, size as int);
                if i < index {
                    lemma_slots_disjoint(i, index as int, size as int);
                } else if i > index {
                    lemma_slots_disjoint(index as int, i, size as int);
                }
                if i == index {
                    assert(self.data@.subrange(i * size, (i + 1) * size) =~= bytes@);
                } else {
                    assert(self.data@.subrange(i * size, (i + 1) * size)
                        =~= old(self).data@.subrange(i * size, (i + 1) * size));
                }
            }
            assert(self@ =~= old(self)@.update(index as int, bytes@));
        }
        previous
    }

    /// Removes the value at `index` by moving the last value into its place,
    /// and hands back the removed bytes.
    #[must_use]
    pub fn swap_remove(&mut self, index: usize) -> (removed: Vec<u8>)
        requires
            old(self).wf(),
            index < old(self)@.len(),
        ensures
            final(self).wf(),
            removed@ == old(self)@[index as int],
            final(self)@ == swap_removed(old(self)@, index as int),
            final(self).spec_info() == old(self).spec_info(),
            final(self).spec_borrow() == old(self).spec_borrow(),
            final(self).spec_capacity() == old(self).spec_capacity(),
    {
        if index == self.len - 1 {
            let removed = self.pop();
            assert(self@ =~= swap_removed(old(self)@, index as int));
            return removed;
        }
        self.swap(index, self.len - 1);
        let removed = self.pop();
        assert(self@ =~= swap_removed(old(self)@, index as int));
        removed
    }

    /// Exchanges the values at two different indices.
    pub fn swap(&mut self, a: usize, b: usize)
        requires
            old(self).wf(),
            a != b,
            a < old(self)@.len(),
            b < old(self)@.len(),
        ensures
            final(self).wf(),
            final(self)@ == old(self)@.update(a as int, old(self)@[b as int]).update(
                b as int,
                old(self)@[a as int],
            ),
            final(self).spec_info() == old(self).spec_info(),
            final(self).spec_borrow() == old(self).spec_borrow(),
            final(self).spec_capacity() == old(self).spec_capacity(),
    {
        let size: usize = self.info.size;
        let total: usize = self.data.len();
        proof {
            lemma_slot_bounds(a as int, self.len as int, size as int);
            lemma_slot_bounds(b as int, self.len as int, size as int);
            if a < b {
                lemma_slots_disjoint(a as int, b as int, size as int);
            } else {
                lemma_slots_disjoint(b as int, a as int, size as int);
            }
        }
        let at_a: usize = a * size;
        let at_b: usize = b * size;
        let mut k: usize = 0;
        while k < size
            invariant
                0 <= k <= size,
                size == self.info.size,
                at_a == a * size,
                at_b == b * size,
                at_a + size <= self.data@.len(),
                at_b + size <= self.data@.len(),
                at_a + size <= at_b || at_b + size <= at_a,
                self.data@.len() == old(self).data@.len(),
                self.data@.len() == total,
                self.len == old(self).len,
                self.capacity == old(self).capacity,
                self.info == old(self).info,
                self.borrow == old(self).borrow,
                forall|p: int|
                    0 <= p < self.data@.len() ==> #[trigger] self.data@[p] == if at_a <= p < at_a
                        + k {
                        old(self).data@[p - at_a + at_b]
                    } else if at_b <= p < at_b + k {
                        old(self).data@[p - at_b + at_a]
                    } else {
                        old(self).data@[p]
                    },
            decreases size - k,
        {
            let x: u8 = self.data[at_a + k];
            let y: u8 = self.data[at_b + k];
            self.data[at_a + k] = y;
            self.data[at_b + k] = x;
            k = k + 1;
        }
        proof {
            let n = self.len as int;
            let expected = old(self)@.update(a as int, old(self)@[b as int]).update(
                b as int,
                old(self)@[a as int],
            );
            assert forall|i: int| 0 <= i < n implies #[trigger] self@[i] == expected[i] by {
                lemma_slot_bounds(i, n, size as int);
                if i < a {
                    lemma_slots_disjoint(i, a as int, size as int);
                } else if i > a {
                    lemma_slots_disjoint(a as int, i, size as int);
                }
                if i < b {
                    lemma_slots_disjoint(i, b as int, size as int);
                } else if i > b {
                    lemma_slots_disjoint(b as int, i, size as int);
                }
                if i == a {
                    assert(self.data@.subrange(i * size, (i + 1) * size)
                        =~= old(self).data@.subrange(b * size, (b + 1) * size));
                } else if i == b {
                    assert(self.data@.subrange(i * size, (i + 1) * size)
                        =~= old(self).data@.subrange(a * size, (a + 1) * size));
                } else {
                    assert(self.data@.subrange(i * size, (i + 1) * size)
                        =~= old(self).data@.subrange(i * size, (i + 1) * size));
                }
            }
            assert(self@ =~= expected);
        }
    }

    /// Removes the last value and hands back its bytes.
    #[must_use]
    pub fn pop(&mut self) -> (removed: Vec<u8>)
        requires
            old(self).wf(),
            old(self)@.len() > 0,
        ensures
            final(self).wf(),
            removed@ == old(self)@.last(),
            final(self)@ == old(self)@.drop_last(),
            final(self).spec_info() == old(self).spec_info(),
            final(self).spec_borrow() == old(self).spec_borrow(),
            final(self).spec_capacity() == old(self).spec_capacity(),
    {
        let size: usize = self.info.size;
        let total: usize = self.data.len();
        proof {
            lemma_slot_bounds(self.len - 1, self.len as int, size as int);
        }
        let at: usize = (self.len - 1) * size;
        let removed = self.data.split_off(at);
        self.len = self.len - 1;
        proof {
            let n = self.len as int;
            assert(removed@ =~= old(self)@.last());
            assert forall|i: int| 0 <= i < n implies #[trigger] self@[i] == old(self)@[i] by {
                lemma_slot_bounds(i, n, size as int);
                assert(self.data@.subrange(i * size, (i + 1) * size)
                    =~= old(self).data@.subrange(i * size, (i + 1) * size));
            }
            assert(self@ =~= old(self)@.drop_last());
        }
        removed
    }

    /// The whole column as one slice: every value, in order, back to back.
    #[must_use]
    pub fn as_slice(&self) -> (r: &[u8])
        ensures
            r@ == self.bytes(),
    {
        self.data.as_slice()
    }

    /// Tries to take a shared borrow of the column.
    #[must_use]
    pub fn borrow(&mut self) -> (ok: bool)
        ensures
            ok == old(self).spec_borrow().can_share(),
            final(self).spec_borrow() == if ok {
                old(self).spec_borrow().shared_taken()
            } else {
                old(self).spec_borrow()
            },
            final(self).same_values(old(self)),
    {
        self.borrow.borrow()
    }

    /// Tries to take the exclusive borrow of the column.
    #[must_use]
    pub fn borrow_mut(&mut self) -> (ok: bool)
        ensures
            ok == old(self).spec_borrow().is_free(),
            final(self).spec_borrow() == if ok {
                old(self).spec_borrow().exclusive_taken()
            } else {
                old(self).spec_borrow()
            },
            final(self).same_values(old(self)),
    {
        self.borrow.borrow_mut()
    }

    /// Gives back one shared borrow of the column, if any is held.
    pub fn release(&mut self)
        ensures
            final(self).spec_borrow() == old(self).spec_borrow().shared_released(),
            final(self).same_values(old(self)),
    {
        self.borrow.release();
    }

    /// Gives back the exclusive borrow of the column, if it is held.
    pub fn release_mut(&mut self)
        ensures
            final(self).spec_borrow() == old(self).spec_borrow().exclusive_released(),
            final(self).same_values(old(self)),
    {
        self.borrow.release_mut();
    }

    /// Two columns that differ at most in their outstanding borrows.
    pub open spec fn same_values(&self, other: &BlobData) -> bool {
        &&& self@ == other@
        &&& self.bytes() == other.bytes()
        &&& self.spec_info() == other.spec_info()
        &&& self.spec_capacity() == other.spec_capacity()
        &&& self.wf() == other.wf()
    }

    /// The layout of the values in this column.
    #[must_use]
    pub fn type_info(&self) -> (r: &TypeInfo)
        ensures
            *r == self.spec_info(),
    {
        &self.info
    }

    /// Number of values in the column.
    #[must_use]
    pub fn len(&self) -> (r: usize)
        ensures
            r == self@.len(),
    {
        self.len
    }

    /// Slots available before the column grows again.
    #[must_use]
    pub fn capacity(&self) -> (r: usize)
        ensures
            r == self.spec_capacity(),
    {
        self.capacity
    }

    /// Reports whether no borrow is outstanding on the column.
    #[must_use]
    pub fn is_unborrowed(&self) -> (r: bool)
        ensures
            r == self.spec_borrow().is_free(),
    {
        self.borrow.is_unborrowed()
    }
}

} // verus!
