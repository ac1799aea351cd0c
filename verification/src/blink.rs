//! The `Blink` adaptor: user-friendly placement of values into a blink
//! allocator, with deferred destruction.
//!
//! A value is placed by allocating a block, writing the value's bytes into
//! it, and — unless the caller opts out — registering a finalizer record in
//! the [`DropList`].  `reset` finalizes every placed value, newest first,
//! and then resets the underlying allocator.

use vstd::prelude::*;

use crate::align::is_pow2;
use crate::api::{in_some_slot, BlinkAllocator};
use crate::backing::Global;
use crate::drop_list::{DropItem, DropList};
use crate::layout::{AllocError, Layout, Slot};
use crate::local::BlinkAlloc;

verus! {

/// An allocator adaptor that places values into blink-allocated memory and
/// finalizes them on reset.
pub struct Blink<A: BlinkAllocator = BlinkAlloc<Global>> {
    pub drop_list: DropList,
    pub allocator: A,
}

impl<A: BlinkAllocator> Blink<A> {
    pub open spec fn well_formed(&self) -> bool {
        self.allocator.wf()
    }

    /// Creates a blink adaptor over the given allocator instance.
    pub fn new_in(allocator: A) -> (r: Self)
        requires
            allocator.wf(),
        ensures
            r.well_formed(),
            r.drop_list.items@ == Seq::<DropItem>::empty(),
            r.allocator == allocator,
    {
        Blink { drop_list: DropList::new(), allocator }
    }

    /// Reference to the underlying allocator instance.
    pub fn allocator(&self) -> (r: &A)
        ensures
            *r == self.allocator,
    {
        &self.allocator
    }

    /// Finalizes all placed values, newest first, without resetting the
    /// underlying allocator.  Returns the records in finalization order.
    pub fn drop_all(&mut self) -> (order: Vec<DropItem>)
        ensures
            final(self).drop_list.items@ == Seq::<DropItem>::empty(),
            final(self).allocator == old(self).allocator,
            order@ == old(self).drop_list.items@.reverse(),
    {
        self.drop_list.reset()
    }

    /// Finalizes all placed values, newest first, then resets the
    /// underlying allocator, invalidating every allocation.  Returns the
    /// records in finalization order.
    pub fn reset(&mut self) -> (order: Vec<DropItem>)
        requires
            old(self).well_formed(),
        ensures
            final(self).well_formed(),
            final(self).drop_list.items@ == Seq::<DropItem>::empty(),
            final(self).allocator.allocs() == Seq::<Slot>::empty(),
            order@ == old(self).drop_list.items@.reverse(),
    {
        let order = self.drop_list.reset();
        self.allocator.reset();
        order
    }

    /// Places the bytes of a value into the allocator and registers a
    /// finalizer record for it.  Returns the value's address; its bytes can
    /// be read back until the next reset.
    pub fn put(&mut self, value: Vec<u8>, align: usize) -> (r: Result<usize, AllocError>)
        requires
            old(self).well_formed(),
            is_pow2(align as int),
            value.len() + align <= usize::MAX,
        ensures
            final(self).well_formed(),
            match r {
                Ok(addr) => {
                    &&& addr as int % align as int == 0
                    &&& forall|i: int|
                        0 <= i < value.len() ==> #[trigger] final(self).allocator.mem_at(
                            addr + i,
                        ) == value@[i]
                    &&& final(self).drop_list.items@ == old(self).drop_list.items@.push(
                        DropItem { handle: addr, count: 1 },
                    )
                },
                Err(_) => final(self).drop_list.items@ == old(self).drop_list.items@,
            },
    {
        let emplacer = self.emplace();
        match Self::emplace_value(self, emplacer, value, align) {
            Ok(addr) => Ok(addr),
            Err(_) => Err(AllocError),
        }
    }

    /// Copies a byte slice into allocated memory and returns the address of
    /// the copy, or `None` when allocation fails.  Plain bytes need no
    /// finalizer, so nothing is registered.
    pub fn try_copy_slice(&mut self, slice: &Vec<u8>) -> (r: Option<usize>)
        requires
            old(self).well_formed(),
            slice.len() < usize::MAX,
        ensures
            final(self).well_formed(),
            final(self).drop_list.items@ == old(self).drop_list.items@,
            match r {
                Some(addr) => forall|i: int|
                    0 <= i < slice.len() ==> #[trigger] final(self).allocator.mem_at(addr + i)
                        == slice@[i],
                None => true,
            },
    {
        let layout = match Layout::from_size_align(slice.len(), 1) {
            Some(layout) => layout,
            None => {
                return None;
            },
        };
        let slot = match self.allocator.allocate(&layout) {
            Ok(slot) => slot,
            Err(_) => {
                return None;
            },
        };
        let ghost mid = *self;
        if slice.len() > 0 {
            proof {
                assert(self.allocator.allocs().last() == slot);
                assert(in_some_slot(self.allocator.allocs(), slot.addr as int, slice.len() as int));
            }
            self.allocator.write(slot.addr, slice);
            proof {
                assert forall|i: int| 0 <= i < slice.len() implies #[trigger] self.allocator.mem_at(
                    slot.addr + i,
                ) == slice@[i] by {
                    assert(mid.allocator.valid_addr(slot.addr + i));
                    assert(self.allocator.valid_addr(slot.addr + i));
                    assert(slot.addr <= slot.addr + i < slot.addr + slice.len());
                    assert(self.allocator.mem_at(slot.addr + i) == slice@[(slot.addr + i)
                        - slot.addr]);
                }
            }
        }
        Some(slot.addr)
    }

    /// Reads back the bytes of a placed value.
    pub fn read_value(&self, addr: usize, len: usize) -> (r: Vec<u8>)
        requires
            self.well_formed(),
            in_some_slot(self.allocator.allocs(), addr as int, len as int),
            addr + len <= usize::MAX,
        ensures
            r.len() == len,
            forall|i: int| 0 <= i < len ==> r@[i] == self.allocator.mem_at(addr + i),
    {
        let mut out: Vec<u8> = Vec::new();
        let mut k: usize = 0;
        while k < len
            invariant
                k <= len,
                self.well_formed(),
                in_some_slot(self.allocator.allocs(), addr as int, len as int),
                addr + len <= usize::MAX,
                out.len() == k,
                forall|i: int| 0 <= i < k ==> out@[i] == self.allocator.mem_at(addr + i),
            decreases len - k,
        {
            proof {
                let s = choose|s: int|
                    0 <= s < self.allocator.allocs().len() && (
                    #[trigger] self.allocator.allocs()[s]).addr <= addr as int && addr + len
                        <= self.allocator.allocs()[s].end();
                assert(self.allocator.allocs()[s].addr <= addr + k && addr + k + 1
                    <= self.allocator.allocs()[s].end());
                assert(in_some_slot(self.allocator.allocs(), addr + k, 1));
            }
            let b = self.allocator.read(addr + k);
            out.push(b);
            k = k + 1;
        }
        out
    }

    /// Returns an adaptor that places values and registers them for
    /// finalization on reset.
    pub fn emplace(&self) -> (r: Emplace)
        ensures
            r.no_drop == false,
    {
        Emplace { no_drop: false }
    }

    /// Returns an adaptor that places values without registering them: they
    /// are not finalized on reset.
    pub fn emplace_no_drop(&self) -> (r: Emplace)
        ensures
            r.no_drop == true,
    {
        Emplace { no_drop: true }
    }

    /// Returns an adaptor for values handed out by shared reference; such
    /// values are not finalized on reset.
    pub fn emplace_shared(&self) -> (r: Emplace)
        ensures
            r.no_drop == true,
    {
        Emplace { no_drop: true }
    }

    /// Places a value's bytes under an `Emplace` adaptor's policy.
    fn emplace_value(
        this: &mut Self,
        emplacer: Emplace,
        value: Vec<u8>,
        align: usize,
    ) -> (r: Result<usize, Vec<u8>>)
        requires
            old(this).well_formed(),
            is_pow2(align as int),
            value.len() + align <= usize::MAX,
        ensures
            final(this).well_formed(),
            match r {
                Ok(addr) => {
                    &&& addr as int % align as int == 0
                    &&& forall|i: int|
                        0 <= i < value.len() ==> #[trigger] final(this).allocator.mem_at(
                            addr + i,
                        ) == value@[i]
                    &&& final(this).drop_list.items@ == if emplacer.no_drop {
                        old(this).drop_list.items@
                    } else {
                        old(this).drop_list.items@.push(DropItem { handle: addr, count: 1 })
                    }
                },
                Err(returned) => returned@ == value@ && final(this).drop_list.items@ == old(this).drop_list.items@ && final(this).allocator.allocs() == old(this).allocator.allocs(),
            },
    {
        let layout = match Layout::from_size_align(value.len(), align) {
            Some(layout) => layout,
            None => {
                return Err(value);
            },
        };
        let slot = match this.allocator.allocate(&layout) {
            Ok(slot) => slot,
            Err(_) => {
                return Err(value);
            },
        };
        let ghost mid = *this;
        if value.len() > 0 {
            proof {
                assert(this.allocator.allocs().last() == slot);
                assert(in_some_slot(this.allocator.allocs(), slot.addr as int, value.len() as int));
            }
            this.allocator.write(slot.addr, &value);
            proof {
                assert forall|i: int| 0 <= i < value.len() implies #[trigger] this.allocator.mem_at(
                    slot.addr + i,
                ) == value@[i] by {
                    assert(mid.allocator.valid_addr(slot.addr + i));
                    assert(this.allocator.valid_addr(slot.addr + i));
                    assert(slot.addr <= slot.addr + i < slot.addr + value.len());
                    assert(this.allocator.mem_at(slot.addr + i) == value@[(slot.addr + i)
                        - slot.addr]);
                }
            }
        }
        if !emplacer.no_drop {
            this.drop_list.add(DropItem::init_value(slot.addr));
        }
        Ok(slot.addr)
    }
}

impl Blink<BlinkAlloc<Global>> {
    /// Creates a blink adaptor over a fresh single-owner blink allocator.
    pub fn new() -> (r: Self)
        ensures
            r.well_formed(),
            r.drop_list.items@ == Seq::<DropItem>::empty(),
            r.allocator.arena.chunks.len() == 0,
            r.allocator.arena.allocs@ == Seq::<Slot>::empty(),
    {
        Blink::new_in(BlinkAlloc::new())
    }

    /// Creates a blink adaptor whose allocator starts from the given chunk
    /// size.
    pub fn with_chunk_size(capacity: usize) -> (r: Self)
        ensures
            r.well_formed(),
            r.drop_list.items@ == Seq::<DropItem>::empty(),
            r.allocator.arena.chunks.len() == 0,
            r.allocator.arena.allocs@ == Seq::<Slot>::empty(),
            r.allocator.arena.min_chunk_size == capacity,
    {
        Blink::new_in(BlinkAlloc::with_chunk_size(capacity))
    }
}

/// Placement policy adaptor created by [`Blink::emplace`],
/// [`Blink::emplace_no_drop`] and [`Blink::emplace_shared`].
#[derive(Clone, Copy)]
pub struct Emplace {
    /// Placed values are not registered for finalization.
    pub no_drop: bool,
}

impl Emplace {
    /// Places a value's bytes into the blink adaptor under this policy.
    /// On allocation failure the value is handed back.
    pub fn try_value<A: BlinkAllocator>(
        &self,
        blink: &mut Blink<A>,
        value: Vec<u8>,
        align: usize,
    ) -> (r: Result<usize, Vec<u8>>)
        requires
            old(blink).well_formed(),
            is_pow2(align as int),
            value.len() + align <= usize::MAX,
        ensures
            final(blink).well_formed(),
            match r {
                Ok(addr) => {
                    &&& addr as int % align as int == 0
                    &&& forall|i: int|
                        0 <= i < value.len() ==> #[trigger] final(blink).allocator.mem_at(
                            addr + i,
                        ) == value@[i]
                    &&& final(blink).drop_list.items@ == if self.no_drop {
                        old(blink).drop_list.items@
                    } else {
                        old(blink).drop_list.items@.push(DropItem { handle: addr, count: 1 })
                    }
                },
                Err(returned) => returned@ == value@ && final(blink).drop_list.items@ == old(blink).drop_list.items@ && final(blink).allocator.allocs() == old(blink).allocator.allocs(),
            },
    {
        Blink::emplace_value(blink, *self, value, align)
    }
}

/// Sizing decision for collecting an iterator into arena memory: clamp the
/// reported upper bound to the current count, take the larger of it and the
/// lower bound, add room for one more element, and add the current count.
/// `None` when the sum overflows.
pub fn size_hint_and_one(lower: usize, upper: Option<usize>, count: usize) -> (r: Option<usize>)
    ensures
        ({
            let clamped = match upper {
                Some(u) => if u < count {
                    u as int
                } else {
                    count as int
                },
                None => count as int,
            };
            let hint = if lower as int > clamped {
                lower as int
            } else {
                clamped
            };
            r == if hint + 1 + count <= usize::MAX {
                Some((hint + 1 + count) as usize)
            } else {
                None::<usize>
            }
        }),
{
    let clamped = match upper {
        None => count,
        Some(u) => if u < count {
            u
        } else {
            count
        },
    };
    let size_hint = if lower > clamped {
        lower
    } else {
        clamped
    };
    if size_hint > usize::MAX - 1 {
        return None;
    }
    let size_hint = size_hint + 1;
    if count > usize::MAX - size_hint {
        return None;
    }
    Some(count + size_hint)
}

/// One accounting step of a saturating element count: for a reported
/// non-zero lower bound, how many elements to skip in bulk, and the total
/// once they arrive — capped so that the total never passes `usize::MAX`.
/// The step to take is always at least 1, so a bulk skip makes progress.
pub fn drain_step(drained: usize, lower: usize) -> (r: (usize, usize))
    requires
        1 <= lower,
        drained < usize::MAX,
    ensures
        r.0 == if lower <= usize::MAX - drained {
            lower as int
        } else {
            (usize::MAX - drained) as int
        },
        1 <= r.0,
        r.1 == drained + r.0,
        r.1 <= usize::MAX,
{
    let take = if lower <= usize::MAX - drained {
        lower
    } else {
        usize::MAX - drained
    };
    (take, drained + take)
}

/// Wrapper for [`Blink`] that is safe to hand to another owner: it resets
/// the adaptor on construction, so no placed value crosses with it.
pub struct SendBlink<A: BlinkAllocator> {
    pub blink: Blink<A>,
}

impl<A: BlinkAllocator> SendBlink<A> {
    /// Resets the adaptor and wraps it.
    pub fn new(blink: Blink<A>) -> (r: SendBlink<A>)
        requires
            blink.well_formed(),
        ensures
            r.blink.well_formed(),
            r.blink.drop_list.items@ == Seq::<DropItem>::empty(),
            r.blink.allocator.allocs() == Seq::<Slot>::empty(),
    {
        let mut blink = blink;
        let _ = blink.reset();
        SendBlink { blink }
    }

    /// Returns the inner adaptor.
    pub fn into_inner(self) -> (r: Blink<A>)
        ensures
            r == self.blink,
    {
        self.blink
    }
}

} // verus!
