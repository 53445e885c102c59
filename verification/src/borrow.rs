//! Borrow tracking for a single column.

use vstd::prelude::*;

verus! {

/// Counts the borrows that are outstanding on a column.
///
/// Any number of shared borrows may be held at once, or a single exclusive
/// one. The exclusive borrow is recorded by a sentinel value that no count of
/// shared borrows can reach.
#[derive(Clone, Copy, Debug, PartialEq, Eq, Structural)]
pub struct BorrowCounter {
    count: usize,
}

impl BorrowCounter {
    /// True when the exclusive borrow is held.
    pub closed spec fn is_exclusive(&self) -> bool {
        self.count == usize::MAX
    }

    /// Number of shared borrows held; zero while the exclusive borrow is held.
    pub closed spec fn readers(&self) -> nat {
        if self.count == usize::MAX {
            0
        } else {
            self.count as nat
        }
    }

    /// True when no borrow of either kind is held.
    pub open spec fn is_free(&self) -> bool {
        !self.is_exclusive() && self.readers() == 0
    }

    /// True when one more shared borrow can be taken.
    pub open spec fn can_share(&self) -> bool {
        !self.is_exclusive() && self.readers() + 1 < usize::MAX
    }

    /// The counter with no borrow outstanding.
    pub closed spec fn spec_new() -> BorrowCounter {
        BorrowCounter { count: 0 }
    }

    /// The counter after one more shared borrow was granted.
    pub closed spec fn shared_taken(&self) -> BorrowCounter {
        BorrowCounter { count: (self.count + 1) as usize }
    }

    /// The counter after the exclusive borrow was granted.
    pub closed spec fn exclusive_taken(&self) -> BorrowCounter {
        BorrowCounter { count: usize::MAX }
    }

    /// The counter after one shared borrow was given back, if any was held.
    pub closed spec fn shared_released(&self) -> BorrowCounter {
        if self.count != usize::MAX && self.count > 0 {
            BorrowCounter { count: (self.count - 1) as usize }
        } else {
            *self
        }
    }

    /// The counter after the exclusive borrow was given back, if it was held.
    pub closed spec fn exclusive_released(&self) -> BorrowCounter {
        if self.count == usize::MAX {
            BorrowCounter { count: 0 }
        } else {
            *self
        }
    }

    /// What each step does to the two observations of a counter, and that
    /// giving a borrow back undoes taking it.
    pub proof fn lemma_steps(&self)
        ensures
            BorrowCounter::spec_new().is_free(),
            self.can_share() ==> !self.shared_taken().is_exclusive()
                && self.shared_taken().readers()
                == self.readers() + 1 && self.shared_taken().shared_released() == *self,
            self.is_free() ==> *self == BorrowCounter::spec_new(),
            self.exclusive_taken().is_exclusive() && self.exclusive_taken().readers() == 0,
            self.is_free() ==> self.exclusive_taken().exclusive_released() == *self,
            self.shared_released().is_exclusive() == self.is_exclusive(),
            self.shared_released().readers() == if self.readers() > 0 {
                (self.readers() - 1) as nat
            } else {
                0
            },
            !self.exclusive_released().is_exclusive(),
            self.exclusive_released().readers() == self.readers(),
    {
    }

    /// Two counters that agree on both observations are the same counter.
    pub proof fn lemma_extensional(a: BorrowCounter, b: BorrowCounter)
        requires
            a.is_exclusive() == b.is_exclusive(),
            a.readers() == b.readers(),
        ensures
            a == b,
    {
    }

    /// A counter with no borrow outstanding.
    pub fn new() -> (r: Self)
        ensures
            r == BorrowCounter::spec_new(),
            r.is_free(),
    {
        BorrowCounter { count: 0 }
    }

    /// Tries to take a shared borrow. It is granted unless the exclusive
    /// borrow is held or the count would reach the sentinel.
    pub fn borrow(&mut self) -> (ok: bool)
        ensures
            ok == old(self).can_share(),
            ok ==> *final(self) == old(self).shared_taken(),
            !ok ==> *final(self) == *old(self),
    {
        if self.count >= usize::MAX - 1 {
            false
        } else {
            self.count = self.count + 1;
            true
        }
    }

    /// Tries to take the exclusive borrow. It is granted only when nothing
    /// is borrowed.
    pub fn borrow_mut(&mut self) -> (ok: bool)
        ensures
            ok == old(self).is_free(),
            ok ==> *final(self) == old(self).exclusive_taken(),
            !ok ==> *final(self) == *old(self),
    {
        if self.count == 0 {
            self.count = usize::MAX;
            true
        } else {
            false
        }
    }

    /// Gives back one shared borrow. Does nothing when none is held.
    pub fn release(&mut self)
        ensures
            *final(self) == old(self).shared_released(),
    {
        if self.count != usize::MAX && self.count > 0 {
            self.count = self.count - 1;
        }
    }

    /// Gives back the exclusive borrow. Does nothing when it is not held.
    pub fn release_mut(&mut self)
        ensures
            *final(self) == old(self).exclusive_released(),
    {
        if self.count == usize::MAX {
            self.count = 0;
        }
    }

    /// Reports whether nothing is borrowed.
    pub fn is_unborrowed(&self) -> (r: bool)
        ensures
            r == self.is_free(),
    {
        self.count == 0
    }
}

} // verus!
