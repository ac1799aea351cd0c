//! Process-wide allocator adapter with an explicit enabled/disabled mode.
//!
//! The adapter wraps a shared blink allocator.  In blink mode allocations
//! go through the arena; in direct mode they fall through to the backing
//! allocator, for allocations made before the arena is set up or after it
//! is torn down.  The mode switch is an ordinary state transition requiring
//! the same exclusivity as a reset.

use vstd::prelude::*;

use crate::backing::{BackingAllocator, Global};
use crate::layout::{AllocError, Layout, Slot};
use crate::sync::SyncBlinkAlloc;

verus! {

/// Allocator adapter over a shared blink allocator, with a runtime
/// blink/direct mode switch and allocation-count bookkeeping.
pub struct GlobalBlinkAlloc<B: BackingAllocator = Global> {
    pub blink: SyncBlinkAlloc<B>,
    /// Blink mode: allocations are served by the arena.  Direct mode:
    /// allocations fall through to the backing allocator.
    pub enabled: bool,
    /// Number of blocks handed out and not yet returned (bookkeeping only;
    /// saturating).
    pub allocations: u64,
}

impl<B: BackingAllocator> GlobalBlinkAlloc<B> {
    pub open spec fn well_formed(&self) -> bool {
        self.blink.well_formed()
    }

    /// Creates the adapter in direct mode: until `blink_mode` is called,
    /// allocations fall through to the backing allocator.
    pub fn new_in(allocator: B) -> (r: Self)
        requires
            allocator.wf(),
            crate::backing::regions_positive(allocator.allocated()),
        ensures
            r.well_formed(),
            r.enabled == false,
            r.allocations == 0,
    {
        GlobalBlinkAlloc { blink: SyncBlinkAlloc::new_in(allocator), enabled: false, allocations: 0 }
    }

    /// Creates the adapter in direct mode with an initial chunk size hint.
    pub fn with_chunk_size_in(chunk_size: usize, allocator: B) -> (r: Self)
        requires
            allocator.wf(),
            crate::backing::regions_positive(allocator.allocated()),
        ensures
            r.well_formed(),
            r.enabled == false,
            r.allocations == 0,
    {
        GlobalBlinkAlloc {
            blink: SyncBlinkAlloc::with_chunk_size_in(chunk_size, allocator),
            enabled: false,
            allocations: 0,
        }
    }

    /// Switches to blink mode: allocations are served by the arena.
    pub fn blink_mode(&mut self)
        requires
            old(self).well_formed(),
        ensures
            final(self).well_formed(),
            final(self).enabled == true,
            final(self).blink == old(self).blink,
    {
        self.enabled = true;
    }

    /// Switches to direct mode: the arena is reset, and allocations fall
    /// through to the backing allocator.  Requires the same exclusivity as
    /// a reset.
    pub fn direct_mode(&mut self)
        requires
            old(self).well_formed(),
        ensures
            final(self).well_formed(),
            final(self).enabled == false,
            final(self).blink.arena.allocs@ == Seq::<Slot>::empty(),
    {
        self.blink.reset();
        self.enabled = false;
    }

    /// Allocates according to the current mode.  Either way a granted block
    /// is aligned as requested and of the requested length.
    pub fn allocate(&mut self, layout: &Layout) -> (r: Result<Slot, AllocError>)
        requires
            old(self).well_formed(),
            layout.wf(),
        ensures
            final(self).well_formed(),
            final(self).enabled == old(self).enabled,
            // blink mode: served by the arena, which records the block
            old(self).enabled ==> {
                &&& (r matches Ok(slot) ==> final(self).blink.arena.allocs@ == if layout.size
                    > 0 {
                    old(self).blink.arena.allocs@.push(slot)
                } else {
                    old(self).blink.arena.allocs@
                })
                &&& (old(self).blink.arena.fast_path_fits(*layout) ==> r is Ok && final(self).blink.allocator == old(self).blink.allocator)
            },
            // direct mode: passes straight through to the backing allocator
            !old(self).enabled ==> {
                &&& crate::arena::ArenaSync::state_eq(
                    &old(self).blink.arena,
                    &final(self).blink.arena,
                )
                &&& (layout.size == 0 ==> r is Err)
                &&& (r matches Ok(slot) ==> layout.size > 0 && final(self).blink.allocator.allocated() == old(self).blink.allocator.allocated().insert(
                    slot.addr,
                    slot.len,
                ))
                &&& (r is Err ==> final(self).blink.allocator.allocated() == old(self).blink.allocator.allocated())
            },
            match r {
                Ok(slot) => slot.len == layout.size && slot.addr as int % layout.align as int
                    == 0 && slot.end() <= usize::MAX,
                Err(_) => true,
            },
    {
        let r = if self.enabled {
            self.blink.allocate_raw(layout, false)
        } else {
            if layout.size() == 0 {
                Err(AllocError)
            } else {
                match self.blink.allocator.allocate_region(layout.size(), layout.align()) {
                    Ok(base) => {
                        proof {
                            Self::lemma_direct_region_keeps_wf(old(self), self);
                        }
                        Ok(Slot { addr: base, len: layout.size() })
                    },
                    Err(e) => Err(e),
                }
            }
        };
        if r.is_ok() {
            if self.allocations < u64::MAX {
                self.allocations = self.allocations + 1;
            }
        }
        r
    }

    /// A direct-mode region grant leaves the arena's bookkeeping intact.
    proof fn lemma_direct_region_keeps_wf(pre: &Self, post: &Self)
        requires
            pre.well_formed(),
            post.blink.arena == pre.blink.arena,
            post.blink.granted@ == pre.blink.granted@,
            post.blink.grants == pre.blink.grants,
            post.blink.allocator.wf(),
            crate::backing::regions_positive(post.blink.allocator.allocated()),
            forall|b: usize|
                pre.blink.allocator.allocated().contains_key(b) ==> post.blink.allocator.allocated().contains_key(b)
                    && #[trigger] post.blink.allocator.allocated()[b]
                    == pre.blink.allocator.allocated()[b],
        ensures
            post.well_formed(),
    {
        assert forall|i: int| 0 <= i < post.blink.arena.chunks.len() implies {
            &&& post.blink.allocator.allocated().contains_key(
                ((#[trigger] post.blink.arena.chunks@[i]).base
                    - crate::chunk::HEADER_SIZE) as usize,
            )
            &&& post.blink.allocator.allocated()[(post.blink.arena.chunks@[i].base
                - crate::chunk::HEADER_SIZE) as usize]
                == post.blink.arena.chunks@[i].region_size()
        } by {
            let b = ((pre.blink.arena.chunks@[i]).base - crate::chunk::HEADER_SIZE) as usize;
            assert(pre.blink.arena.registered_in(pre.blink.allocator.allocated()));
            assert(pre.blink.allocator.allocated().contains_key(b));
            assert(post.blink.allocator.allocated()[b] == pre.blink.allocator.allocated()[b]);
        }
    }

    /// Best-effort deallocation in blink mode; in direct mode the block is
    /// returned to the backing allocator, so it must be one that direct
    /// mode handed out.
    pub fn deallocate(&mut self, ptr: usize, size: usize)
        requires
            old(self).well_formed(),
            !old(self).enabled ==> {
                &&& old(self).blink.allocator.allocated().contains_key(ptr)
                &&& old(self).blink.allocator.allocated()[ptr] == size
                &&& !crate::arena::region_bases(old(self).blink.arena.chunks@).contains(ptr)
            },
        ensures
            final(self).well_formed(),
            final(self).enabled == old(self).enabled,
    {
        if self.enabled {
            self.blink.deallocate(ptr, size);
        } else {
            self.blink.allocator.deallocate_region(ptr, size);
            proof {
                assert forall|i: int| 0 <= i < self.blink.arena.chunks.len() implies {
                    &&& self.blink.allocator.allocated().contains_key(
                        ((#[trigger] self.blink.arena.chunks@[i]).base
                            - crate::chunk::HEADER_SIZE) as usize,
                    )
                    &&& self.blink.allocator.allocated()[(self.blink.arena.chunks@[i].base
                        - crate::chunk::HEADER_SIZE) as usize]
                        == self.blink.arena.chunks@[i].region_size()
                } by {
                    let b = ((self.blink.arena.chunks@[i]).base
                        - crate::chunk::HEADER_SIZE) as usize;
                    assert(old(self).blink.arena.registered_in(
                        old(self).blink.allocator.allocated(),
                    ));
                    assert(old(self).blink.allocator.allocated().contains_key(b));
                    assert(crate::arena::region_bases(old(self).blink.arena.chunks@).contains(b));
                }
            }
        }
        if self.allocations > 0 {
            self.allocations = self.allocations - 1;
        }
    }

    /// Resets the wrapped blink allocator; requires exclusive access.
    pub fn reset(&mut self)
        requires
            old(self).well_formed(),
        ensures
            final(self).well_formed(),
            final(self).blink.arena.allocs@ == Seq::<Slot>::empty(),
            final(self).enabled == old(self).enabled,
            old(self).blink.arena.chunks.len() > 0 ==> {
                &&& final(self).blink.arena.chunks.len() == 1
                &&& final(self).blink.arena.head().base == old(self).blink.arena.head().base
                &&& final(self).blink.arena.head().end == old(self).blink.arena.head().end
                &&& final(self).blink.arena.head().cursor_addr() == old(self).blink.arena.head().base
            },
            old(self).blink.arena.chunks.len() == 0 ==> final(self).blink.arena.chunks.len()
                == 0,
    {
        self.blink.reset();
    }
}

impl GlobalBlinkAlloc<Global> {
    /// Creates the adapter over the default backing allocator, in direct
    /// mode.
    pub fn new() -> (r: Self)
        ensures
            r.well_formed(),
            r.enabled == false,
            r.allocations == 0,
    {
        GlobalBlinkAlloc::new_in(Global::new())
    }

    /// Creates the adapter over the default backing allocator with an
    /// initial chunk size hint, in direct mode.
    pub fn with_chunk_size(chunk_size: usize) -> (r: Self)
        ensures
            r.well_formed(),
            r.enabled == false,
            r.allocations == 0,
    {
        GlobalBlinkAlloc::with_chunk_size_in(chunk_size, Global::new())
    }
}

} // verus!
