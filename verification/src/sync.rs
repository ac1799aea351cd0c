//! The shared blink allocator and its thread-local proxy.
//!
//! The shared variant runs the same chunk and cursor logic as the
//! single-owner one.  In the running system its fast path holds only a read
//! lock and advances the cursor by compare-and-swap, while chunk-chain
//! growth takes the write lock and re-validates the head before growing;
//! here that discipline is modelled by exclusive access, with the
//! re-validation step kept in the allocation path.
//!
//! A thread-local proxy draws whole chunks from the shared allocator and
//! bump-allocates from them without synchronization; the chunks remain owned
//! by the shared allocator and are reclaimed when it resets.

use vstd::prelude::*;

use crate::api::BlinkAllocator;
use crate::arena::{min_size, slot_live_in, ArenaLocal, ArenaSync};
use crate::backing::{regions_positive, BackingAllocator, Global};
use crate::chunk::{ChunkHeader, HEADER_SIZE};
use crate::cursor::CursorAtomic;
use crate::layout::{slots_disjoint, AllocError, Layout, Slot};

verus! {

/// Shared blink allocator over a backing allocator `B`.
pub struct SyncBlinkAlloc<B: BackingAllocator = Global> {
    pub arena: ArenaSync,
    pub allocator: B,
    /// Largest chunk a local proxy has used; sizes the next proxy's first
    /// chunk.
    pub max_local_alloc: usize,
    /// Regions granted to local proxies since the last reset.
    pub granted: Ghost<Map<usize, usize>>,
    /// Number of grants since the last reset.  While any are outstanding,
    /// best-effort deallocation is disabled so granted regions stay intact.
    pub grants: usize,
}

impl<B: BackingAllocator> SyncBlinkAlloc<B> {
    /// Invariant: arena and backing allocator are well formed, chunks are
    /// registered, and every granted region is backed by a live allocation.
    pub open spec fn well_formed(&self) -> bool {
        &&& self.arena.wf()
        &&& self.allocator.wf()
        &&& regions_positive(self.allocator.allocated())
        &&& self.arena.registered_in(self.allocator.allocated())
        &&& forall|b: usize|
            self.granted@.contains_key(b) ==> #[trigger] self.granted@[b] >= 1 && exists|k: int|
                0 <= k < self.arena.allocs@.len() && self.arena.allocs@[k] == (Slot {
                    addr: b,
                    len: self.granted@[b],
                })
        &&& (self.grants == 0 ==> self.granted@ == Map::<usize, usize>::empty())
    }

    /// Creates a shared blink allocator drawing chunks from `allocator`.
    pub fn new_in(allocator: B) -> (r: Self)
        requires
            allocator.wf(),
            regions_positive(allocator.allocated()),
        ensures
            r.well_formed(),
            r.arena.chunks.len() == 0,
            r.arena.allocs@ == Seq::<Slot>::empty(),
            r.arena.min_chunk_size == crate::arena::CHUNK_START_SIZE,
            r.allocator == allocator,
            r.grants == 0,
            r.granted@ == Map::<usize, usize>::empty(),
    {
        SyncBlinkAlloc {
            arena: ArenaSync::new(),
            allocator,
            max_local_alloc: 0,
            granted: Ghost(Map::empty()),
            grants: 0,
        }
    }

    /// Creates a shared blink allocator with an initial chunk size hint.
    pub fn with_chunk_size_in(chunk_size: usize, allocator: B) -> (r: Self)
        requires
            allocator.wf(),
            regions_positive(allocator.allocated()),
        ensures
            r.well_formed(),
            r.arena.chunks.len() == 0,
            r.arena.allocs@ == Seq::<Slot>::empty(),
            r.arena.min_chunk_size == chunk_size,
            r.allocator == allocator,
            r.grants == 0,
            r.granted@ == Map::<usize, usize>::empty(),
    {
        SyncBlinkAlloc {
            arena: ArenaSync::with_chunk_size(chunk_size),
            allocator,
            max_local_alloc: 0,
            granted: Ghost(Map::empty()),
            grants: 0,
        }
    }

    /// Allocates with the given layout.  The fast path is one bump of the
    /// head chunk's cursor; on a miss the path that would take the write
    /// lock first re-validates the head chunk — another thread may have
    /// grown the chain — and only then grows it.
    pub fn allocate_raw(&mut self, layout: &Layout, zeroed: bool) -> (r: Result<Slot, AllocError>)
        requires
            old(self).well_formed(),
            layout.wf(),
        ensures
            final(self).well_formed(),
            final(self).arena.min_chunk_size == old(self).arena.min_chunk_size,
            final(self).max_local_alloc == old(self).max_local_alloc,
            final(self).grants == old(self).grants,
            final(self).granted@ == old(self).granted@,
            old(self).arena.fast_path_fits(*layout) ==> r is Ok && final(self).allocator == old(self).allocator && ArenaSync::same_chunks_shape(
                &old(self).arena,
                &final(self).arena,
            ) && (r matches Ok(slot) ==> slot.addr == old(self).arena.head().alloc_addr(
                *layout,
            )),
            match r {
                Ok(slot) => {
                    &&& slot.len == layout.size
                    &&& slot.addr as int % layout.align as int == 0
                    &&& slot.end() <= usize::MAX
                    &&& final(self).arena.chunks.len() > 0
                    &&& final(self).arena.head().cursor_addr() == slot.end()
                    &&& (!old(self).arena.fast_path_fits(*layout) ==> {
                        &&& final(self).arena.chunks.len() == old(self).arena.chunks.len() + 1
                        &&& final(self).arena.head().region_size() >= old(self).arena.spec_grow_size(*layout)
                        &&& final(self).arena.head().cumulative_size == old(self).arena.spec_chain_cumulative()
                        &&& final(self).arena.head().base <= slot.addr
                        &&& slot.addr - final(self).arena.head().base < layout.align
                    })
                    &&& final(self).arena.allocs@ == if layout.size > 0 {
                        old(self).arena.allocs@.push(slot)
                    } else {
                        old(self).arena.allocs@
                    }
                    &&& forall|a: int|
                        old(self).arena.owns_addr(a) ==> final(self).arena.owns_addr(a) && final(self).arena.byte_at(a) == (if zeroed && slot.addr <= a < slot.end() {
                            0u8
                        } else {
                            old(self).arena.byte_at(a)
                        })
                    &&& forall|a: int|
                        slot.addr <= a < slot.end() ==> final(self).arena.owns_addr(a) && (
                        zeroed ==> final(self).arena.byte_at(a) == 0u8)
                    &&& final(self).arena.owns_range(slot.addr as int, slot.len as int)
                },
                Err(_) => {
                    &&& ArenaSync::state_eq(&old(self).arena, &final(self).arena)
                    &&& final(self).allocator.allocated() == old(self).allocator.allocated()
                },
            },
    {
        let ghost pre = *self;
        let r = match self.arena.alloc_fast(layout, zeroed) {
            Some(slot) => {
                proof {
                    Self::lemma_fast_keeps_registered(&pre, self);
                }
                Ok(slot)
            },
            None => {
                // write-lock path: re-validate the head chunk before
                // growing the chain
                match self.arena.alloc_fast(layout, zeroed) {
                    Some(slot) => {
                        proof {
                            Self::lemma_fast_keeps_registered(&pre, self);
                        }
                        Ok(slot)
                    },
                    None => self.arena.alloc_slow(layout, zeroed, &mut self.allocator),
                }
            },
        };
        proof {
            assert forall|b: usize| self.granted@.contains_key(b) implies
                #[trigger] self.granted@[b] >= 1 && exists|k: int|
                0 <= k < self.arena.allocs@.len() && self.arena.allocs@[k] == (Slot {
                    addr: b,
                    len: self.granted@[b],
                }) by {
                let k = choose|k: int|
                    0 <= k < pre.arena.allocs@.len() && #[trigger] pre.arena.allocs@[k] == (Slot {
                        addr: b,
                        len: pre.granted@[b],
                    });
                assert(self.arena.allocs@[k] == pre.arena.allocs@[k]);
            }
        }
        r
    }

    /// A fast-path bump moves only the head cursor, so chunk registration
    /// with the backing allocator is untouched.
    proof fn lemma_fast_keeps_registered(pre: &Self, post: &Self)
        requires
            pre.arena.registered_in(pre.allocator.allocated()),
            post.allocator == pre.allocator,
            pre.arena.chunks.len() > 0,
            ArenaSync::same_chunks_shape(&pre.arena, &post.arena),
        ensures
            post.arena.registered_in(post.allocator.allocated()),
    {
        let h = pre.arena.head_idx();
        assert forall|i: int| 0 <= i < post.arena.chunks.len() implies {
            &&& post.allocator.allocated().contains_key(
                ((#[trigger] post.arena.chunks@[i]).base - HEADER_SIZE) as usize,
            )
            &&& post.allocator.allocated()[(post.arena.chunks@[i].base - HEADER_SIZE) as usize]
                == post.arena.chunks@[i].region_size()
        } by {
            if i == h {
                assert(ChunkHeader::<CursorAtomic>::same_shape(
                    &pre.arena.chunks@[h],
                    &post.arena.chunks@[h],
                ));
            } else {
                assert(post.arena.chunks@[i] == pre.arena.chunks@[i]);
            }
        }
    }

    /// Resizes a block previously returned by `allocate`.
    pub fn resize(
        &mut self,
        ptr: usize,
        old_layout: &Layout,
        new_layout: &Layout,
        zeroed: bool,
    ) -> (r: Result<Slot, AllocError>)
        requires
            old(self).well_formed(),
            old_layout.wf(),
            new_layout.wf(),
            ptr as int % old_layout.align as int == 0,
            old_layout.size > 0 ==> old(self).arena.is_live(ptr, old_layout.size),
            // a resized block must not be one granted to a local proxy
            !old(self).granted@.contains_key(ptr),
        ensures
            final(self).well_formed(),
            final(self).max_local_alloc == old(self).max_local_alloc,
            final(self).grants == old(self).grants,
            final(self).granted@ == old(self).granted@,
            old(self).grants == 0 && ChunkHeader::<CursorAtomic>::can_shrink(
                *old_layout,
                *new_layout,
            ) && old(self).arena.chunks.len() > 0 ==> r == Ok::<Slot, AllocError>(
                Slot { addr: ptr, len: new_layout.size },
            ) && final(self).allocator == old(self).allocator,
            match r {
                Ok(slot) => {
                    &&& slot.len == new_layout.size
                    &&& slot.addr as int % new_layout.align as int == 0
                    &&& slot.end() <= usize::MAX
                    &&& forall|i: int|
                        0 <= i < min_size(*old_layout, *new_layout) ==> #[trigger] final(self).arena.byte_at(slot.addr + i) == old(self).arena.byte_at(ptr + i)
                },
                Err(_) => ArenaSync::state_eq(&old(self).arena, &final(self).arena),
            },
    {
        if self.grants == 0 {
            let r = self.arena.resize(ptr, old_layout, new_layout, zeroed, &mut self.allocator);
            proof {
                assert(self.granted@ =~= Map::<usize, usize>::empty());
            }
            r
        } else {
            // while proxies hold granted chunks, resolve resizes by fresh
            // allocation and copy, which touches no granted region
            let ghost pre = *self;
            let copy_len = if old_layout.size() < new_layout.size() {
                old_layout.size()
            } else {
                new_layout.size()
            };
            proof {
                if copy_len > 0 {
                    let k = choose|k: int|
                        0 <= k < self.arena.allocs@.len() && #[trigger] self.arena.allocs@[k]
                            == (Slot { addr: ptr, len: old_layout.size });
                    let i = choose|i: int|
                        0 <= i < self.arena.chunks.len() && slot_live_in(
                            self.arena.allocs@[k],
                            #[trigger] self.arena.chunks@[i],
                        );
                    assert(self.arena.owns_range(ptr as int, copy_len as int));
                }
            }
            let saved: Vec<u8> = if copy_len > 0 {
                self.arena.read_range(ptr, copy_len)
            } else {
                Vec::new()
            };
            let slot = match self.allocate_raw(new_layout, zeroed) {
                Ok(slot) => slot,
                Err(e) => {
                    return Err(e);
                },
            };
            if copy_len > 0 {
                proof {
                    let k = choose|k: int|
                        0 <= k < self.arena.allocs@.len() && #[trigger] self.arena.allocs@[k]
                            == (Slot { addr: ptr, len: old_layout.size });
                    let i = choose|i: int|
                        0 <= i < self.arena.chunks.len() && slot_live_in(
                            self.arena.allocs@[k],
                            #[trigger] self.arena.chunks@[i],
                        );
                    assert(self.arena.owns_range(slot.addr as int, saved.len() as int));
                }
                self.arena.write_bytes(slot.addr, &saved);
                proof {
                    assert forall|b: usize| self.granted@.contains_key(b) implies
                        #[trigger] self.granted@[b] >= 1 && exists|k: int|
                        0 <= k < self.arena.allocs@.len() && self.arena.allocs@[k] == (Slot {
                            addr: b,
                            len: self.granted@[b],
                        }) by {
                        let k = choose|k: int|
                            0 <= k < pre.arena.allocs@.len() && pre.arena.allocs@[k] == (Slot {
                                addr: b,
                                len: pre.granted@[b],
                            });
                        assert(self.arena.allocs@[k] == pre.arena.allocs@[k]);
                    }
                    assert forall|i: int| 0 <= i < copy_len implies #[trigger] self.arena.byte_at(
                        slot.addr + i,
                    ) == old(self).arena.byte_at(ptr + i) by {
                        assert(self.arena.byte_at(slot.addr + i) == saved@[i]);
                    }
                }
            }
            Ok(slot)
        }
    }

    /// Best-effort deallocation.  A no-op while local proxies hold granted
    /// chunks, so a rewind can never cut into a granted region.
    pub fn deallocate(&mut self, ptr: usize, size: usize)
        requires
            old(self).well_formed(),
        ensures
            final(self).well_formed(),
            final(self).granted@ == old(self).granted@,
            final(self).grants == old(self).grants,
            final(self).max_local_alloc == old(self).max_local_alloc,
            final(self).allocator.allocated() == old(self).allocator.allocated(),
            old(self).grants == 0 ==> if old(self).arena.chunks.len() > 0 && old(self).arena.head().dealloc_hits(ptr, size) {
                &&& ArenaSync::same_chunks_shape(&old(self).arena, &final(self).arena)
                &&& final(self).arena.head().cursor_addr() == ptr
                &&& final(self).arena.allocs@ == crate::arena::prune(
                    old(self).arena.allocs@,
                    old(self).arena.head().base as int,
                    old(self).arena.head().end as int,
                    ptr as int,
                )
                &&& forall|a: int|
                    old(self).arena.owns_addr(a) ==> final(self).arena.owns_addr(a) && final(self).arena.byte_at(a) == old(self).arena.byte_at(a)
            } else {
                ArenaSync::state_eq(&old(self).arena, &final(self).arena)
            },
            old(self).grants > 0 ==> ArenaSync::state_eq(&old(self).arena, &final(self).arena),
    {
        if self.grants == 0 {
            let hit = self.arena.dealloc(ptr, size);
            proof {
                assert(self.granted@ =~= Map::<usize, usize>::empty());
                if hit {
                    let h = old(self).arena.head_idx();
                    assert forall|i: int| 0 <= i < self.arena.chunks.len() implies {
                        &&& self.allocator.allocated().contains_key(
                            ((#[trigger] self.arena.chunks@[i]).base - HEADER_SIZE) as usize,
                        )
                        &&& self.allocator.allocated()[(self.arena.chunks@[i].base
                            - HEADER_SIZE) as usize] == self.arena.chunks@[i].region_size()
                    } by {
                        if i == h {
                            assert(ChunkHeader::<CursorAtomic>::same_shape(
                                &old(self).arena.chunks@[h],
                                &self.arena.chunks@[h],
                            ));
                        } else {
                            assert(self.arena.chunks@[i] == old(self).arena.chunks@[i]);
                        }
                    }
                }
            }
        }
    }

    /// Resets the shared allocator, invalidating all allocations and all
    /// chunks granted to proxies; requires exclusive access.
    pub fn reset(&mut self)
        requires
            old(self).well_formed(),
        ensures
            final(self).well_formed(),
            final(self).arena.allocs@ == Seq::<Slot>::empty(),
            final(self).granted@ == Map::<usize, usize>::empty(),
            final(self).grants == 0,
            old(self).arena.chunks.len() > 0 ==> {
                &&& final(self).arena.chunks.len() == 1
                &&& final(self).arena.head().base == old(self).arena.head().base
                &&& final(self).arena.head().end == old(self).arena.head().end
                &&& final(self).arena.head().cursor_addr() == old(self).arena.head().base
            },
            old(self).arena.chunks.len() == 0 ==> final(self).arena.chunks.len() == 0,
    {
        self.arena.reset(true, &mut self.allocator);
        proof {
            self.granted@ = Map::empty();
        }
        self.grants = 0;
    }

    /// Creates a thread-local proxy that bump-allocates without
    /// synchronization and draws whole chunks from this allocator.  Its
    /// first chunk is sized by the largest chunk any proxy has used.
    pub fn local(&self) -> (r: LocalBlinkAlloc)
        ensures
            r.arena.chunks.len() == 0,
            r.arena.allocs@ == Seq::<Slot>::empty(),
            r.arena.min_chunk_size == self.max_local_alloc,
            r.arena.wf(),
    {
        LocalBlinkAlloc { arena: ArenaLocal::with_chunk_size(self.max_local_alloc) }
    }
}

impl SyncBlinkAlloc<Global> {
    /// Creates a shared blink allocator over the default backing allocator.
    pub fn new() -> (r: Self)
        ensures
            r.well_formed(),
            r.arena.chunks.len() == 0,
            r.arena.allocs@ == Seq::<Slot>::empty(),
            r.arena.min_chunk_size == crate::arena::CHUNK_START_SIZE,
            r.grants == 0,
    {
        SyncBlinkAlloc::new_in(Global::new())
    }
}

impl<B: BackingAllocator> BackingAllocator for SyncBlinkAlloc<B> {
    /// The regions granted to local proxies.
    open spec fn allocated(&self) -> Map<usize, usize> {
        self.granted@
    }

    open spec fn wf(&self) -> bool {
        self.well_formed()
    }

    /// A chunk grant to a local proxy: served by the ordinary allocation
    /// path, remembered so that the region is never handed out twice before
    /// a reset.
    fn allocate_region(&mut self, size: usize, align: usize) -> (r: Result<usize, AllocError>) {
        let layout = match Layout::from_size_align(size, align) {
            Some(layout) => layout,
            None => {
                return Err(AllocError);
            },
        };
        let ghost pre = *self;
        match self.allocate_raw(&layout, false) {
            Ok(slot) => {
                proof {
                    assert(self.arena.allocs@.last() == slot);
                    assert forall|b: usize| pre.granted@.contains_key(b) implies b
                        + #[trigger] pre.granted@[b] <= slot.addr || slot.addr + size <= b by {
                        let k = choose|k: int|
                            0 <= k < pre.arena.allocs@.len() && pre.arena.allocs@[k] == (Slot {
                                addr: b,
                                len: pre.granted@[b],
                            });
                        assert(self.arena.allocs@[k] == pre.arena.allocs@[k]);
                        self.arena.lemma_allocs_disjoint(k, self.arena.allocs@.len() - 1);
                        assert(slots_disjoint(
                            Slot { addr: b, len: pre.granted@[b] },
                            slot,
                        ));
                    }
                    self.granted@ = self.granted@.insert(slot.addr, size);
                }
                if self.grants < usize::MAX {
                    self.grants = self.grants + 1;
                }
                proof {
                    assert forall|b: usize| self.granted@.contains_key(b) implies
                        #[trigger] self.granted@[b] >= 1 && exists|k: int|
                        0 <= k < self.arena.allocs@.len() && self.arena.allocs@[k] == (Slot {
                            addr: b,
                            len: self.granted@[b],
                        }) by {
                        if b == slot.addr {
                            assert(self.arena.allocs@.last() == slot);
                        } else {
                            let k = choose|k: int|
                                0 <= k < pre.arena.allocs@.len() && pre.arena.allocs@[k] == (Slot {
                                    addr: b,
                                    len: pre.granted@[b],
                                });
                            assert(self.arena.allocs@[k] == pre.arena.allocs@[k]);
                        }
                    }
                }
                Ok(slot.addr)
            },
            Err(e) => Err(e),
        }
    }

    /// A proxy handing a grant back; the chunk itself stays with the shared
    /// arena until its reset.
    fn deallocate_region(&mut self, base: usize, size: usize) {
        proof {
            self.granted@ = self.granted@.remove(base);
        }
    }
}

impl<B: BackingAllocator> BlinkAllocator for SyncBlinkAlloc<B> {
    open spec fn wf(&self) -> bool {
        self.well_formed()
    }

    open spec fn allocs(&self) -> Seq<Slot> {
        self.arena.allocs@
    }

    open spec fn mem_at(&self, addr: int) -> u8 {
        self.arena.byte_at(addr)
    }

    open spec fn valid_addr(&self, addr: int) -> bool {
        self.arena.owns_addr(addr)
    }

    fn allocate(&mut self, layout: &Layout) -> (r: Result<Slot, AllocError>) {
        let r = self.allocate_raw(layout, false);
        proof {
            if r is Ok {
                let slot = r->Ok_0;
                if layout.size > 0 {
                    assert forall|k: int| 0 <= k < old(self).arena.allocs@.len() implies
                        slots_disjoint(#[trigger] old(self).arena.allocs@[k], slot) by {
                        assert(self.arena.allocs@[k] == old(self).arena.allocs@[k]);
                        assert(self.arena.allocs@.last() == slot);
                        self.arena.lemma_allocs_disjoint(k, self.arena.allocs@.len() - 1);
                    }
                }
            }
        }
        r
    }

    fn allocate_zeroed(&mut self, layout: &Layout) -> (r: Result<Slot, AllocError>) {
        let r = self.allocate_raw(layout, true);
        proof {
            if r is Ok {
                let slot = r->Ok_0;
                if layout.size > 0 {
                    assert forall|k: int| 0 <= k < old(self).arena.allocs@.len() implies
                        slots_disjoint(#[trigger] old(self).arena.allocs@[k], slot) by {
                        assert(self.arena.allocs@[k] == old(self).arena.allocs@[k]);
                        assert(self.arena.allocs@.last() == slot);
                        self.arena.lemma_allocs_disjoint(k, self.arena.allocs@.len() - 1);
                    }
                }
            }
        }
        r
    }

    fn deallocate(&mut self, ptr: usize, size: usize) {
        SyncBlinkAlloc::deallocate(self, ptr, size);
    }

    fn reset(&mut self) {
        SyncBlinkAlloc::reset(self);
    }

    fn write(&mut self, addr: usize, bytes: &Vec<u8>) {
        let ghost pre = *self;
        proof {
            let k = choose|k: int|
                0 <= k < self.arena.allocs@.len() && (#[trigger] self.arena.allocs@[k]).addr
                    <= addr as int && addr + bytes.len() <= self.arena.allocs@[k].end();
            let i = choose|i: int|
                0 <= i < self.arena.chunks.len() && slot_live_in(
                    self.arena.allocs@[k],
                    #[trigger] self.arena.chunks@[i],
                );
            assert(self.arena.owns_range(addr as int, bytes.len() as int));
        }
        self.arena.write_bytes(addr, bytes);
        proof {
            assert forall|b: usize| self.granted@.contains_key(b) implies
                #[trigger] self.granted@[b] >= 1 && exists|k: int|
                0 <= k < self.arena.allocs@.len() && self.arena.allocs@[k] == (Slot {
                    addr: b,
                    len: self.granted@[b],
                }) by {
                let k = choose|k: int|
                    0 <= k < pre.arena.allocs@.len() && pre.arena.allocs@[k] == (Slot {
                        addr: b,
                        len: pre.granted@[b],
                    });
                assert(self.arena.allocs@[k] == pre.arena.allocs@[k]);
            }
        }
    }

    fn read(&self, addr: usize) -> (r: u8) {
        proof {
            let k = choose|k: int|
                0 <= k < self.arena.allocs@.len() && (#[trigger] self.arena.allocs@[k]).addr
                    <= addr as int && addr + 1 <= self.arena.allocs@[k].end();
            let i = choose|i: int|
                0 <= i < self.arena.chunks.len() && slot_live_in(
                    self.arena.allocs@[k],
                    #[trigger] self.arena.chunks@[i],
                );
            assert(self.arena.owns_addr(addr as int));
        }
        self.arena.read_byte(addr)
    }
}

/// Thread-local proxy for a shared blink allocator.  It owns a single-owner
/// arena whose chunks are drawn from the shared allocator, passed to each
/// call; in the running system the proxy simply borrows the shared
/// allocator for its lifetime.
pub struct LocalBlinkAlloc {
    pub arena: ArenaLocal,
}

impl LocalBlinkAlloc {
    /// Invariant relative to the shared allocator the proxy draws from.
    pub open spec fn well_formed_with<B: BackingAllocator>(
        &self,
        shared: &SyncBlinkAlloc<B>,
    ) -> bool {
        &&& self.arena.wf()
        &&& shared.well_formed()
        &&& self.arena.registered_in(shared.granted@)
    }

    /// Allocates from the proxy's own chunks, drawing a new chunk from the
    /// shared allocator on a miss.
    pub fn allocate<B: BackingAllocator>(
        &mut self,
        shared: &mut SyncBlinkAlloc<B>,
        layout: &Layout,
    ) -> (r: Result<Slot, AllocError>)
        requires
            old(self).well_formed_with(old(shared)),
            layout.wf(),
        ensures
            final(self).well_formed_with(final(shared)),
            old(self).arena.fast_path_fits(*layout) ==> r is Ok && *final(shared) == *old(shared)
                && (r matches Ok(slot) ==> slot.addr == old(self).arena.head().alloc_addr(
                *layout,
            )),
            match r {
                Ok(slot) => {
                    &&& slot.len == layout.size
                    &&& slot.addr as int % layout.align as int == 0
                    &&& slot.end() <= usize::MAX
                    &&& final(self).arena.allocs@ == if layout.size > 0 {
                        old(self).arena.allocs@.push(slot)
                    } else {
                        old(self).arena.allocs@
                    }
                },
                Err(_) => ArenaLocal::state_eq(&old(self).arena, &final(self).arena),
            },
    {
        self.arena.allocate(layout, false, shared)
    }

    /// Like [`LocalBlinkAlloc::allocate`], and the block reads as zeroes.
    pub fn allocate_zeroed<B: BackingAllocator>(
        &mut self,
        shared: &mut SyncBlinkAlloc<B>,
        layout: &Layout,
    ) -> (r: Result<Slot, AllocError>)
        requires
            old(self).well_formed_with(old(shared)),
            layout.wf(),
        ensures
            final(self).well_formed_with(final(shared)),
            old(self).arena.fast_path_fits(*layout) ==> r is Ok && *final(shared) == *old(shared),
            match r {
                Ok(slot) => {
                    &&& slot.len == layout.size
                    &&& slot.addr as int % layout.align as int == 0
                    &&& forall|a: int|
                        slot.addr <= a < slot.end() ==> final(self).arena.owns_addr(a) && final(self).arena.byte_at(a) == 0u8
                },
                Err(_) => ArenaLocal::state_eq(&old(self).arena, &final(self).arena),
            },
    {
        self.arena.allocate(layout, true, shared)
    }

    /// Best-effort deallocation within the proxy's own chunks.
    pub fn deallocate(&mut self, ptr: usize, size: usize)
        requires
            old(self).arena.wf(),
        ensures
            final(self).arena.wf(),
            forall|m: Map<usize, usize>|
                old(self).arena.registered_in(m) ==> final(self).arena.registered_in(m),
    {
        let hit = self.arena.dealloc(ptr, size);
        proof {
            if hit {
                let h = old(self).arena.head_idx();
                assert forall|m: Map<usize, usize>|
                    old(self).arena.registered_in(m) implies final(self).arena.registered_in(
                    m,
                ) by {
                    assert forall|i: int| 0 <= i < self.arena.chunks.len() implies {
                        &&& m.contains_key(
                            ((#[trigger] self.arena.chunks@[i]).base - HEADER_SIZE) as usize,
                        )
                        &&& m[(self.arena.chunks@[i].base - HEADER_SIZE) as usize]
                            == self.arena.chunks@[i].region_size()
                    } by {
                        if i == h {
                            assert(ChunkHeader::<crate::cursor::CursorCell>::same_shape(
                                &old(self).arena.chunks@[h],
                                &self.arena.chunks@[h],
                            ));
                        } else {
                            assert(self.arena.chunks@[i] == old(self).arena.chunks@[i]);
                        }
                    }
                }
            }
        }
    }

    /// Resets the proxy: its chunks are forgotten, not freed — they stay
    /// with the shared allocator until its own reset — and the size of the
    /// last chunk is recorded to warm up the next proxy.
    pub fn reset<B: BackingAllocator>(&mut self, shared: &mut SyncBlinkAlloc<B>)
        requires
            old(self).well_formed_with(old(shared)),
        ensures
            final(self).well_formed_with(final(shared)),
            final(self).arena.chunks.len() == 0,
            final(self).arena.allocs@ == Seq::<Slot>::empty(),
            final(shared).arena == old(shared).arena,
    {
        let last = self.arena.last_chunk_size();
        self.arena.reset_leak(false);
        if last > shared.max_local_alloc {
            shared.max_local_alloc = last;
        }
    }
}

} // verus!
