//! The cursor primitive: "the next free address in a chunk".
//!
//! One interface with two implementations, selected per arena variant, so the
//! bump-pointer arithmetic is written once.  [`CursorCell`] stands for a plain
//! non-atomic cell (single-owner arenas); [`CursorAtomic`] stands for an
//! atomic word updated by compare-and-swap (shared arenas).  In this model
//! both hold the address directly; the contracts state exactly the
//! load/store/replace-if-equal behaviour that the bump logic relies on.

use vstd::prelude::*;

verus! {

/// Load, store and compare-and-exchange over a cursor address.
pub trait CasPtr: Sized {
    /// The address currently held.
    spec fn addr(&self) -> usize;

    fn new(value: usize) -> (r: Self)
        ensures
            r.addr() == value;

    fn load(&self) -> (r: usize)
        ensures
            r == self.addr();

    fn set(&mut self, value: usize)
        ensures
            final(self).addr() == value;

    /// Replaces the held address with `new` only if it currently equals
    /// `current`; otherwise reports the address actually held.
    fn compare_exchange(&mut self, current: usize, new: usize) -> (r: Result<(), usize>)
        ensures
            old(self).addr() == current ==> r == Ok::<(), usize>(()) && final(self).addr() == new,
            old(self).addr() != current ==> r == Err::<(), usize>(old(self).addr())
                && final(self).addr() == old(self).addr();

    /// Weak variant; in this model it never fails spuriously.
    fn compare_exchange_weak(&mut self, current: usize, new: usize) -> (r: Result<(), usize>)
        ensures
            old(self).addr() == current ==> r == Ok::<(), usize>(()) && final(self).addr() == new,
            old(self).addr() != current ==> r == Err::<(), usize>(old(self).addr())
                && final(self).addr() == old(self).addr();
}

/// Non-atomic cursor cell for single-owner arenas.
pub struct CursorCell {
    value: usize,
}

impl CasPtr for CursorCell {
    closed spec fn addr(&self) -> usize {
        self.value
    }

    fn new(value: usize) -> (r: Self) {
        CursorCell { value }
    }

    fn load(&self) -> (r: usize) {
        self.value
    }

    fn set(&mut self, value: usize) {
        self.value = value;
    }

    fn compare_exchange(&mut self, current: usize, new: usize) -> (r: Result<(), usize>) {
        if self.value == current {
            self.value = new;
            Ok(())
        } else {
            Err(self.value)
        }
    }

    fn compare_exchange_weak(&mut self, current: usize, new: usize) -> (r: Result<(), usize>) {
        if self.value == current {
            self.value = new;
            Ok(())
        } else {
            Err(self.value)
        }
    }
}

/// Cursor standing for an atomic word for shared arenas.  Exclusive access is
/// enforced through `&mut`, so the compare-and-exchange here is the sequential
/// meaning of the atomic operation.
pub struct CursorAtomic {
    value: usize,
}

impl CasPtr for CursorAtomic {
    closed spec fn addr(&self) -> usize {
        self.value
    }

    fn new(value: usize) -> (r: Self) {
        CursorAtomic { value }
    }

    fn load(&self) -> (r: usize) {
        self.value
    }

    fn set(&mut self, value: usize) {
        self.value = value;
    }

    fn compare_exchange(&mut self, current: usize, new: usize) -> (r: Result<(), usize>) {
        if self.value == current {
            self.value = new;
            Ok(())
        } else {
            Err(self.value)
        }
    }

    fn compare_exchange_weak(&mut self, current: usize, new: usize) -> (r: Result<(), usize>) {
        if self.value == current {
            self.value = new;
            Ok(())
        } else {
            Err(self.value)
        }
    }
}

} // verus!
