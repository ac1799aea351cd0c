//! The single-owner blink allocator: an arena plus the backing allocator
//! that supplies its chunks.
//!
//! Deallocation is best-effort; `reset` frees every chunk except the last,
//! which is rewound and reused, so that with a steady workload one chunk
//! eventually serves all allocations between resets.

use vstd::prelude::*;

use crate::api::BlinkAllocator;
use crate::arena::{min_size, ArenaLocal};
use crate::backing::{regions_positive, BackingAllocator, Global};
use crate::chunk::ChunkHeader;
use crate::cursor::CursorCell;
use crate::layout::{AllocError, Layout, Slot};

verus! {

/// Single-owner blink allocator over a backing allocator `B`.
pub struct BlinkAlloc<B: BackingAllocator = Global> {
    pub arena: ArenaLocal,
    pub allocator: B,
}

impl<B: BackingAllocator> BlinkAlloc<B> {
    /// Invariant: the arena is well formed, the backing allocator is well
    /// formed, and every chunk is a region outstanding with the backing
    /// allocator.
    pub open spec fn well_formed(&self) -> bool {
        &&& self.arena.wf()
        &&& self.allocator.wf()
        &&& regions_positive(self.allocator.allocated())
        &&& self.arena.registered_in(self.allocator.allocated())
    }

    /// Creates a blink allocator drawing chunks from `allocator`.
    pub fn new_in(allocator: B) -> (r: Self)
        requires
            allocator.wf(),
            regions_positive(allocator.allocated()),
        ensures
            r.well_formed(),
            r.arena.chunks.len() == 0,
            r.arena.allocs@ == Seq::<Slot>::empty(),
            r.arena.min_chunk_size == crate::arena::CHUNK_START_SIZE,
            r.allocator == allocator,
    {
        BlinkAlloc { arena: ArenaLocal::new(), allocator }
    }

    /// Creates a blink allocator with an initial chunk size hint.
    pub fn with_chunk_size_in(chunk_size: usize, allocator: B) -> (r: Self)
        requires
            allocator.wf(),
            regions_positive(allocator.allocated()),
        ensures
            r.well_formed(),
            r.arena.chunks.len() == 0,
            r.arena.allocs@ == Seq::<Slot>::empty(),
            r.arena.min_chunk_size == chunk_size,
            r.allocator == allocator,
    {
        BlinkAlloc { arena: ArenaLocal::with_chunk_size(chunk_size), allocator }
    }

    /// Allocates memory with the given layout; grows the chunk chain through
    /// the backing allocator only when the head chunk cannot serve the
    /// request.
    pub fn allocate_raw(&mut self, layout: &Layout, zeroed: bool) -> (r: Result<Slot, AllocError>)
        requires
            old(self).well_formed(),
            layout.wf(),
        ensures
            final(self).well_formed(),
            final(self).arena.min_chunk_size == old(self).arena.min_chunk_size,
            old(self).arena.fast_path_fits(*layout) ==> r is Ok && final(self).allocator == old(self).allocator && ArenaLocal::same_chunks_shape(
                &old(self).arena,
                &final(self).arena,
            ) && (r matches Ok(slot) ==> slot.addr == old(self).arena.head().alloc_addr(
                *layout,
            )),
            !old(self).arena.fast_path_fits(*layout) && old(self).arena.grow_overflows(*layout)
                ==> r is Err && final(self).allocator == old(self).allocator,
            match r {
                Ok(slot) => {
                    &&& slot.len == layout.size
                    &&& slot.addr as int % layout.align as int == 0
                    &&& slot.end() <= usize::MAX
                    &&& final(self).arena.chunks.len() > 0
                    &&& final(self).arena.head().cursor_addr() == slot.end()
                    &&& (!old(self).arena.fast_path_fits(*layout) ==> {
                        &&& final(self).arena.chunks.len() == old(self).arena.chunks.len() + 1
                        &&& final(self).arena.head().region_size() >= old(self).arena.spec_grow_size(*layout)
                        &&& final(self).arena.head().cumulative_size == old(self).arena.spec_chain_cumulative()
                        &&& final(self).arena.head().base <= slot.addr
                        &&& slot.addr - final(self).arena.head().base < layout.align
                    })
                    &&& final(self).arena.allocs@ == if layout.size > 0 {
                        old(self).arena.allocs@.push(slot)
                    } else {
                        old(self).arena.allocs@
                    }
                    &&& forall|a: int|
                        old(self).arena.owns_addr(a) ==> final(self).arena.owns_addr(a) && final(self).arena.byte_at(a) == (if zeroed && slot.addr <= a < slot.end() {
                            0u8
                        } else {
                            old(self).arena.byte_at(a)
                        })
                    &&& forall|a: int|
                        slot.addr <= a < slot.end() ==> final(self).arena.owns_addr(a) && (
                        zeroed ==> final(self).arena.byte_at(a) == 0u8)
                    &&& final(self).arena.owns_range(slot.addr as int, slot.len as int)
                },
                Err(_) => {
                    &&& ArenaLocal::state_eq(&old(self).arena, &final(self).arena)
                    &&& final(self).allocator.allocated() == old(self).allocator.allocated()
                },
            },
    {
        let r = self.arena.allocate(layout, zeroed, &mut self.allocator);
        r
    }

    /// Resizes a block previously returned by `allocate`; in place when
    /// possible, else by allocate-and-copy.  The first `min(old, new)` bytes
    /// keep their contents either way.
    pub fn resize(
        &mut self,
        ptr: usize,
        old_layout: &Layout,
        new_layout: &Layout,
        zeroed: bool,
    ) -> (r: Result<Slot, AllocError>)
        requires
            old(self).well_formed(),
            old_layout.wf(),
            new_layout.wf(),
            ptr as int % old_layout.align as int == 0,
            old_layout.size > 0 ==> old(self).arena.is_live(ptr, old_layout.size),
        ensures
            final(self).well_formed(),
            final(self).arena.min_chunk_size == old(self).arena.min_chunk_size,
            ChunkHeader::<CursorCell>::can_shrink(*old_layout, *new_layout) && old(self).arena.chunks.len() > 0 ==> r == Ok::<Slot, AllocError>(
                Slot { addr: ptr, len: new_layout.size },
            ) && final(self).allocator == old(self).allocator,
            old(self).arena.chunks.len() > 0 && old(self).arena.head().can_grow_in_place(
                ptr,
                *old_layout,
                *new_layout,
            ) ==> r == Ok::<Slot, AllocError>(Slot { addr: ptr, len: new_layout.size })
                && final(self).allocator == old(self).allocator,
            match r {
                Ok(slot) => {
                    &&& slot.len == new_layout.size
                    &&& slot.addr as int % new_layout.align as int == 0
                    &&& slot.end() <= usize::MAX
                    &&& (slot.len > 0 ==> final(self).arena.is_live(slot.addr, slot.len))
                    &&& forall|i: int|
                        0 <= i < min_size(*old_layout, *new_layout) ==> #[trigger] final(self).arena.byte_at(slot.addr + i) == old(self).arena.byte_at(ptr + i)
                    &&& (zeroed ==> forall|i: int|
                        old_layout.size <= i < new_layout.size ==> #[trigger] final(self).arena.byte_at(slot.addr + i) == 0u8)
                },
                Err(_) => {
                    &&& ArenaLocal::state_eq(&old(self).arena, &final(self).arena)
                    &&& final(self).allocator.allocated() == old(self).allocator.allocated()
                },
            },
    {
        self.arena.resize(ptr, old_layout, new_layout, zeroed, &mut self.allocator)
    }

    /// Resets the allocator: frees every chunk but the last, which is kept
    /// with its cursor rewound, ready to serve the next cycle from warm
    /// memory.
    pub fn reset(&mut self)
        requires
            old(self).well_formed(),
        ensures
            final(self).well_formed(),
            final(self).arena.allocs@ == Seq::<Slot>::empty(),
            final(self).arena.min_chunk_size == old(self).arena.min_chunk_size,
            old(self).arena.chunks.len() > 0 ==> {
                &&& final(self).arena.chunks.len() == 1
                &&& final(self).arena.head().base == old(self).arena.head().base
                &&& final(self).arena.head().end == old(self).arena.head().end
                &&& final(self).arena.head().cursor_addr() == old(self).arena.head().base
            },
            old(self).arena.chunks.len() == 0 ==> final(self).arena.chunks.len() == 0,
    {
        self.arena.reset(true, &mut self.allocator);
    }

    /// Resets the allocator and returns every chunk, the last included, to
    /// the backing allocator.
    pub fn reset_all(&mut self)
        requires
            old(self).well_formed(),
        ensures
            final(self).well_formed(),
            final(self).arena.chunks.len() == 0,
            final(self).arena.allocs@ == Seq::<Slot>::empty(),
            final(self).allocator.allocated() == old(self).allocator.allocated().remove_keys(
                crate::arena::region_bases(old(self).arena.chunks@),
            ),
    {
        self.arena.reset(false, &mut self.allocator);
    }
}

impl BlinkAlloc<Global> {
    /// Creates a blink allocator over the default backing allocator.
    pub fn new() -> (r: Self)
        ensures
            r.well_formed(),
            r.arena.chunks.len() == 0,
            r.arena.allocs@ == Seq::<Slot>::empty(),
            r.arena.min_chunk_size == crate::arena::CHUNK_START_SIZE,
    {
        BlinkAlloc::new_in(Global::new())
    }

    /// Creates a blink allocator over the default backing allocator, with an
    /// initial chunk size hint.
    pub fn with_chunk_size(chunk_size: usize) -> (r: Self)
        ensures
            r.well_formed(),
            r.arena.chunks.len() == 0,
            r.arena.allocs@ == Seq::<Slot>::empty(),
            r.arena.min_chunk_size == chunk_size,
    {
        BlinkAlloc::with_chunk_size_in(chunk_size, Global::new())
    }
}

impl<B: BackingAllocator> BlinkAllocator for BlinkAlloc<B> {
    open spec fn wf(&self) -> bool {
        self.well_formed()
    }

    open spec fn allocs(&self) -> Seq<Slot> {
        self.arena.allocs@
    }

    open spec fn mem_at(&self, addr: int) -> u8 {
        self.arena.byte_at(addr)
    }

    open spec fn valid_addr(&self, addr: int) -> bool {
        self.arena.owns_addr(addr)
    }

    fn allocate(&mut self, layout: &Layout) -> (r: Result<Slot, AllocError>) {
        let r = self.allocate_raw(layout, false);
        proof {
            if r is Ok {
                let slot = r->Ok_0;
                if layout.size > 0 {
                    assert forall|k: int| 0 <= k < old(self).arena.allocs@.len() implies
                        crate::layout::slots_disjoint(
                        #[trigger] old(self).arena.allocs@[k],
                        slot,
                    ) by {
                        assert(self.arena.allocs@[k] == old(self).arena.allocs@[k]);
                        assert(self.arena.allocs@.last() == slot);
                        self.arena.lemma_allocs_disjoint(k, self.arena.allocs@.len() - 1);
                    }
                }
            }
        }
        r
    }

    fn allocate_zeroed(&mut self, layout: &Layout) -> (r: Result<Slot, AllocError>) {
        let r = self.allocate_raw(layout, true);
        proof {
            if r is Ok {
                let slot = r->Ok_0;
                if layout.size > 0 {
                    assert forall|k: int| 0 <= k < old(self).arena.allocs@.len() implies
                        crate::layout::slots_disjoint(
                        #[trigger] old(self).arena.allocs@[k],
                        slot,
                    ) by {
                        assert(self.arena.allocs@[k] == old(self).arena.allocs@[k]);
                        assert(self.arena.allocs@.last() == slot);
                        self.arena.lemma_allocs_disjoint(k, self.arena.allocs@.len() - 1);
                    }
                }
            }
        }
        r
    }

    /// Best-effort deallocation: rewinds the head cursor only when `ptr` was
    /// the most recent allocation.
    fn deallocate(&mut self, ptr: usize, size: usize) {
        let hit = self.arena.dealloc(ptr, size);
        proof {
            if hit {
                let h = old(self).arena.head_idx();
                assert forall|i: int| 0 <= i < self.arena.chunks.len() implies {
                    &&& self.allocator.allocated().contains_key(
                        ((#[trigger] self.arena.chunks@[i]).base
                            - crate::chunk::HEADER_SIZE) as usize,
                    )
                    &&& self.allocator.allocated()[(self.arena.chunks@[i].base
                        - crate::chunk::HEADER_SIZE) as usize]
                        == self.arena.chunks@[i].region_size()
                } by {
                    if i == h {
                        assert(ChunkHeader::<CursorCell>::same_shape(
                            &old(self).arena.chunks@[h],
                            &self.arena.chunks@[h],
                        ));
                    } else {
                        assert(self.arena.chunks@[i] == old(self).arena.chunks@[i]);
                    }
                }
            }
        }
    }

    fn reset(&mut self) {
        BlinkAlloc::reset(self);
    }

    fn write(&mut self, addr: usize, bytes: &Vec<u8>) {
        proof {
            let k = choose|k: int|
                0 <= k < self.arena.allocs@.len() && (#[trigger] self.arena.allocs@[k]).addr
                    <= addr as int && addr + bytes.len() <= self.arena.allocs@[k].end();
            let i = choose|i: int|
                0 <= i < self.arena.chunks.len() && crate::arena::slot_live_in(
                    self.arena.allocs@[k],
                    #[trigger] self.arena.chunks@[i],
                );
            assert(self.arena.chunks@[i].base <= addr && addr + bytes.len()
                <= self.arena.chunks@[i].end);
            assert(self.arena.owns_range(addr as int, bytes.len() as int));
        }
        self.arena.write_bytes(addr, bytes);
    }

    fn read(&self, addr: usize) -> (r: u8) {
        proof {
            let k = choose|k: int|
                0 <= k < self.arena.allocs@.len() && (#[trigger] self.arena.allocs@[k]).addr
                    <= addr as int && addr + 1 <= self.arena.allocs@[k].end();
            let i = choose|i: int|
                0 <= i < self.arena.chunks.len() && crate::arena::slot_live_in(
                    self.arena.allocs@[k],
                    #[trigger] self.arena.chunks@[i],
                );
            assert(self.arena.chunks@[i].base <= addr && (addr as int) < self.arena.chunks@[i].end);
            assert(self.arena.owns_addr(addr as int));
        }
        self.arena.read_byte(addr)
    }
}

} // verus!
