//! The deferred-destruction list: an intrusive list of finalizer records.
//!
//! A record is carved out of arena memory next to the value(s) it governs,
//! so registration never allocates.  Here a record is identified by its
//! arena address (`handle`) and the number of contiguous values it governs.
//! Registration links at the front (LIFO); a reset finalizes every record
//! exactly once, newest first, and empties the list.  The caller invokes
//! the type-erased destructors in the order this module hands the records
//! back.

use vstd::prelude::*;

verus! {

/// One finalizer record: where it lives and how many contiguous values it
/// governs (1 for a plain value, `n` for a slice).
#[derive(Clone, Copy, Debug, PartialEq, Eq, Structural)]
pub struct DropItem {
    /// Arena address of the record.
    pub handle: usize,
    /// Number of governed values.
    pub count: usize,
}

impl DropItem {
    /// A record governing one value at `handle`.
    pub fn init_value(handle: usize) -> (r: DropItem)
        ensures
            r == (DropItem { handle, count: 1 }),
    {
        DropItem { handle, count: 1 }
    }

    /// A record governing a slice of `count` values at `handle`.
    pub fn init_slice(handle: usize, count: usize) -> (r: DropItem)
        requires
            count > 0,
        ensures
            r == (DropItem { handle, count }),
    {
        DropItem { handle, count }
    }
}

/// Intrusive list of finalizer records, newest first.
pub struct DropList {
    /// Registration order, oldest first; the root of the intrusive list is
    /// the last element.
    pub items: Vec<DropItem>,
}

impl DropList {
    /// An empty list.
    pub fn new() -> (r: DropList)
        ensures
            r.items@ == Seq::<DropItem>::empty(),
    {
        DropList { items: Vec::new() }
    }

    /// Links a freshly constructed record at the front of the list.
    /// Registration never allocates: the record's storage was already
    /// carved out of the arena by the caller.
    pub fn add(&mut self, item: DropItem)
        ensures
            final(self).items@ == old(self).items@.push(item),
    {
        self.items.push(item);
    }

    /// Finalizes every record exactly once and empties the list.  The
    /// records come back in finalization order: the reverse of the order in
    /// which they were registered, newest first.  Resetting an empty list
    /// is a no-op.
    pub fn reset(&mut self) -> (order: Vec<DropItem>)
        ensures
            final(self).items@ == Seq::<DropItem>::empty(),
            order@ == old(self).items@.reverse(),
            order.len() == old(self).items@.len(),
    {
        let ghost orig = self.items@;
        let ghost n = self.items@.len() as int;
        let mut order: Vec<DropItem> = Vec::new();
        proof {
            assert(self.items@ =~= orig.take(self.items.len() as int));
        }
        while self.items.len() > 0
            invariant
                self.items.len() <= n,
                order.len() + self.items.len() == n,
                orig == old(self).items@,
                n == orig.len(),
                self.items@ == orig.take(self.items.len() as int),
                forall|j: int|
                    0 <= j < order.len() ==> order@[j] == orig[n - 1 - j],
            decreases self.items.len(),
        {
            let ghost k = self.items.len() as int;
            let ghost pre_items = self.items@;
            let item = self.items.pop().unwrap();
            proof {
                assert(1 <= k <= n);
                assert(pre_items == orig.take(k));
                assert(orig.take(k)[k - 1] == orig[k - 1]);
                assert(item == pre_items.last());
                assert(self.items@ =~= orig.take(k - 1));
            }
            order.push(item);
        }
        proof {
            assert(order@ =~= old(self).items@.reverse());
        }
        order
    }
}

} // verus!
