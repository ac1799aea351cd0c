//! The blink-allocator contract: cheap allocation, best-effort
//! deallocation, and a reset that reclaims everything at once.
//!
//! A blink allocator *may* reuse deallocated memory but need not; typically
//! deallocation only succeeds for the most recent allocation.  The trait is
//! implemented by the single-owner allocator, the shared allocator, and the
//! thread-local proxy.

use vstd::prelude::*;

use crate::layout::{slots_disjoint, AllocError, Layout, Slot};

verus! {

/// The range `[addr, addr + len)` lies inside one of the slots.
pub open spec fn in_some_slot(allocs: Seq<Slot>, addr: int, len: int) -> bool {
    exists|k: int|
        0 <= k < allocs.len() && (#[trigger] allocs[k]).addr <= addr && addr + len
            <= allocs[k].end()
}

/// An allocator with cheap bump allocation and bulk deallocation by reset.
pub trait BlinkAllocator: Sized {
    /// Implementation invariant.
    spec fn wf(&self) -> bool;

    /// The live non-empty allocations, in allocation order.
    spec fn allocs(&self) -> Seq<Slot>;

    /// The byte stored at an owned address.
    spec fn mem_at(&self, addr: int) -> u8;

    /// The address lies in memory owned by this allocator.
    spec fn valid_addr(&self, addr: int) -> bool;

    /// Allocates a block for `layout`: an address aligned as requested, with
    /// exactly the requested length, disjoint from every live allocation.
    fn allocate(&mut self, layout: &Layout) -> (r: Result<Slot, AllocError>)
        requires
            old(self).wf(),
            layout.wf(),
        ensures
            final(self).wf(),
            match r {
                Ok(slot) => {
                    &&& slot.len == layout.size
                    &&& slot.addr as int % layout.align as int == 0
                    &&& slot.end() <= usize::MAX
                    &&& final(self).allocs() == if layout.size > 0 {
                        old(self).allocs().push(slot)
                    } else {
                        old(self).allocs()
                    }
                    &&& (slot.len > 0 ==> forall|k: int|
                        0 <= k < old(self).allocs().len() ==> slots_disjoint(
                            #[trigger] old(self).allocs()[k],
                            slot,
                        ))
                    &&& forall|a: int|
                        slot.addr <= a < slot.end() ==> #[trigger] final(self).valid_addr(a)
                    &&& forall|a: int|
                        old(self).valid_addr(a) ==> #[trigger] final(self).valid_addr(a)
                },
                Err(_) => final(self).allocs() == old(self).allocs(),
            },
    ;

    /// Like [`BlinkAllocator::allocate`], and the block reads as zeroes.
    fn allocate_zeroed(&mut self, layout: &Layout) -> (r: Result<Slot, AllocError>)
        requires
            old(self).wf(),
            layout.wf(),
        ensures
            final(self).wf(),
            match r {
                Ok(slot) => {
                    &&& slot.len == layout.size
                    &&& slot.addr as int % layout.align as int == 0
                    &&& slot.end() <= usize::MAX
                    &&& final(self).allocs() == if layout.size > 0 {
                        old(self).allocs().push(slot)
                    } else {
                        old(self).allocs()
                    }
                    &&& (slot.len > 0 ==> forall|k: int|
                        0 <= k < old(self).allocs().len() ==> slots_disjoint(
                            #[trigger] old(self).allocs()[k],
                            slot,
                        ))
                    &&& forall|a: int|
                        slot.addr <= a < slot.end() ==> #[trigger] final(self).valid_addr(a)
                            && final(self).mem_at(a) == 0u8
                    &&& forall|a: int|
                        old(self).valid_addr(a) ==> #[trigger] final(self).valid_addr(a)
                },
                Err(_) => final(self).allocs() == old(self).allocs(),
            },
    ;

    /// Best-effort deallocation; may be a no-op.
    fn deallocate(&mut self, ptr: usize, size: usize)
        requires
            old(self).wf(),
        ensures
            final(self).wf(),
    ;

    /// Resets the allocator, invalidating all allocations made from it.
    fn reset(&mut self)
        requires
            old(self).wf(),
        ensures
            final(self).wf(),
            final(self).allocs() == Seq::<Slot>::empty(),
    ;

    /// Writes `bytes` into a range inside one live allocation; nothing else
    /// changes.
    fn write(&mut self, addr: usize, bytes: &Vec<u8>)
        requires
            old(self).wf(),
            in_some_slot(old(self).allocs(), addr as int, bytes.len() as int),
        ensures
            final(self).wf(),
            final(self).allocs() == old(self).allocs(),
            forall|a: int|
                old(self).valid_addr(a) ==> #[trigger] final(self).valid_addr(a) && final(self).mem_at(a) == (if addr <= a < addr + bytes.len() {
                    bytes@[a - addr]
                } else {
                    old(self).mem_at(a)
                }),
    ;

    /// Reads the byte at an address inside a live allocation.
    fn read(&self, addr: usize) -> (r: u8)
        requires
            self.wf(),
            in_some_slot(self.allocs(), addr as int, 1),
        ensures
            r == self.mem_at(addr as int),
    ;
}

} // verus!
