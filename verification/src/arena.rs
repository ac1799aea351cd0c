//! The arena engine: a chain of chunks, a growth hint, and the bump-pointer
//! fast path with a chunk-growing slow path.
//!
//! The chain is held newest-last in a `Vec`; the last element is the head
//! chunk that serves allocations.  A ghost history `allocs` records every
//! live non-empty allocation; the arena invariant keeps all history entries
//! inside the allocated part of some chunk, ordered and disjoint, which is
//! what the disjointness law rests on.
//!
//! The engine is generic over the cursor primitive, so the single-owner and
//! the shared arena share one implementation of the bump arithmetic.

use vstd::prelude::*;

use crate::align::{align_up, next_power_of_two};
use crate::backing::{regions_positive, BackingAllocator};
use crate::chunk::{ChunkHeader, CHUNK_ALIGN, HEADER_SIZE};
use crate::cursor::CasPtr;
use crate::layout::{AllocError, Layout, Slot};

verus! {

/// Initial chunk size hint.
pub const CHUNK_START_SIZE: usize = 256;

/// Below this size a new chunk size is rounded up to the next power of two.
pub const CHUNK_POWER_OF_TWO_THRESHOLD: usize = 16384;

/// From the threshold on, a new chunk size is rounded up to this page size.
pub const CHUNK_PAGE_SIZE_THRESHOLD: usize = 4096;

/// Minimum chunk size growth step.
pub const CHUNK_MIN_GROW_STEP: usize = 64;

/// The slot lies within the chunk's usable address range.
pub open spec fn in_chunk_range<T: CasPtr>(s: Slot, c: ChunkHeader<T>) -> bool {
    c.base <= s.addr && s.end() <= c.end
}

/// The slot lies within the already-allocated part of the chunk.
pub open spec fn slot_live_in<T: CasPtr>(s: Slot, c: ChunkHeader<T>) -> bool {
    c.base <= s.addr && s.end() <= c.cursor_addr()
}

/// The two chunks' backing regions do not overlap.
pub open spec fn regions_disjoint<T: CasPtr>(a: ChunkHeader<T>, b: ChunkHeader<T>) -> bool {
    a.end <= b.region_base() || b.end <= a.region_base()
}

/// The chunk chain engine, generic over the cursor primitive.
pub struct Arena<T> {
    /// Chunks, oldest first; the last one is the head.
    pub chunks: Vec<ChunkHeader<T>>,
    /// Hint for the size of the next chunk.
    pub min_chunk_size: usize,
    /// History of the live non-empty allocations, oldest first.
    pub allocs: Ghost<Seq<Slot>>,
}

impl<T: CasPtr> Arena<T> {
    /// Every chunk is well formed and the backing regions are disjoint.
    pub open spec fn chunks_wf(&self) -> bool {
        &&& forall|i: int| 0 <= i < self.chunks.len() ==> (#[trigger] self.chunks@[i]).wf()
        &&& forall|i: int, j: int|
            0 <= i < j < self.chunks.len() ==> regions_disjoint(
                #[trigger] self.chunks@[i],
                #[trigger] self.chunks@[j],
            )
    }

    /// Every history entry is non-empty, lies in the allocated part of some
    /// chunk, and entries sharing a chunk appear in address order.
    pub open spec fn allocs_wf(&self) -> bool {
        &&& forall|k: int|
            0 <= k < self.allocs@.len() ==> (#[trigger] self.allocs@[k]).len > 0
        &&& forall|k: int|
            0 <= k < self.allocs@.len() ==> exists|i: int|
                0 <= i < self.chunks.len() && slot_live_in(
                    #[trigger] self.allocs@[k],
                    #[trigger] self.chunks@[i],
                )
        &&& forall|i: int, k: int, l: int|
            0 <= i < self.chunks.len() && 0 <= k < l < self.allocs@.len()
                && in_chunk_range(#[trigger] self.allocs@[k], #[trigger] self.chunks@[i])
                && in_chunk_range(#[trigger] self.allocs@[l], self.chunks@[i])
                ==> self.allocs@[k].end() <= self.allocs@[l].addr
    }

    pub open spec fn wf(&self) -> bool {
        self.chunks_wf() && self.allocs_wf()
    }

    /// Index of the head chunk.
    pub open spec fn head_idx(&self) -> int {
        self.chunks.len() - 1
    }

    pub open spec fn head(&self) -> ChunkHeader<T> {
        self.chunks@[self.head_idx()]
    }

    /// All chunk regions are registered with the backing allocator.
    pub open spec fn registered_in(&self, allocated: Map<usize, usize>) -> bool {
        forall|i: int|
            0 <= i < self.chunks.len() ==> {
                &&& allocated.contains_key(
                    ((#[trigger] self.chunks@[i]).base - HEADER_SIZE) as usize,
                )
                &&& allocated[(self.chunks@[i].base - HEADER_SIZE) as usize]
                    == self.chunks@[i].region_size()
            }
    }

    /// Some chunk covers this address.
    pub open spec fn owns_addr(&self, addr: int) -> bool {
        exists|i: int|
            0 <= i < self.chunks.len() && (#[trigger] self.chunks@[i]).base <= addr
                < self.chunks@[i].end
    }

    /// Index of the chunk covering this address.
    pub open spec fn chunk_of(&self, addr: int) -> int {
        choose|i: int|
            0 <= i < self.chunks.len() && (#[trigger] self.chunks@[i]).base <= addr
                < self.chunks@[i].end
    }

    /// The byte stored at an owned address.
    pub open spec fn byte_at(&self, addr: int) -> u8 {
        self.chunks@[self.chunk_of(addr)].byte_at(addr)
    }

    /// A whole range lies within one chunk's usable address range.
    pub open spec fn owns_range(&self, addr: int, len: int) -> bool {
        exists|i: int|
            0 <= i < self.chunks.len() && (#[trigger] self.chunks@[i]).base <= addr && addr
                + len <= self.chunks@[i].end
    }

    /// Two distinct chunks cannot both contain the range of one slot.
    pub proof fn lemma_range_owner_unique(&self, s: Slot, i: int, j: int)
        requires
            self.chunks_wf(),
            0 <= i < self.chunks.len(),
            0 <= j < self.chunks.len(),
            in_chunk_range(s, self.chunks@[i]),
            in_chunk_range(s, self.chunks@[j]),
        ensures
            i == j,
    {
        if i != j {
            assert(regions_disjoint(self.chunks@[i], self.chunks@[j]) || regions_disjoint(
                self.chunks@[j],
                self.chunks@[i],
            ));
        }
    }

    /// Two distinct chunks cannot both cover one address.
    pub proof fn lemma_addr_owner_unique(&self, addr: int, i: int, j: int)
        requires
            self.chunks_wf(),
            0 <= i < self.chunks.len(),
            0 <= j < self.chunks.len(),
            self.chunks@[i].base <= addr < self.chunks@[i].end,
            self.chunks@[j].base <= addr < self.chunks@[j].end,
        ensures
            i == j,
    {
        if i != j {
            assert(regions_disjoint(self.chunks@[i], self.chunks@[j]) || regions_disjoint(
                self.chunks@[j],
                self.chunks@[i],
            ));
        }
    }

    /// The observable state is unchanged.
    pub open spec fn state_eq(pre: &Self, post: &Self) -> bool {
        &&& post.chunks@ == pre.chunks@
        &&& post.min_chunk_size == pre.min_chunk_size
        &&& post.allocs@ == pre.allocs@
    }

    /// Everything but the head chunk's cursor and bytes is unchanged, and
    /// the head only moved its cursor forward or rewrote bytes.
    pub open spec fn same_chunks_shape(pre: &Self, post: &Self) -> bool {
        &&& post.chunks.len() == pre.chunks.len()
        &&& post.min_chunk_size == pre.min_chunk_size
        &&& forall|i: int|
            0 <= i < pre.chunks.len() && i != pre.head_idx() ==> post.chunks@[i]
                == #[trigger] pre.chunks@[i]
        &&& pre.chunks.len() > 0 ==> ChunkHeader::<T>::same_shape(
            &pre.chunks@[pre.head_idx()],
            &post.chunks@[post.head_idx()],
        )
    }

    /// A fresh arena with the given chunk size hint; owns no chunks.
    pub fn with_chunk_size(min_chunk_size: usize) -> (r: Self)
        ensures
            r.wf(),
            r.chunks.len() == 0,
            r.allocs@ == Seq::<Slot>::empty(),
            r.min_chunk_size == min_chunk_size,
    {
        Arena { chunks: Vec::new(), min_chunk_size, allocs: Ghost(Seq::empty()) }
    }

    /// A fresh arena with the default chunk size hint.
    pub fn new() -> (r: Self)
        ensures
            r.wf(),
            r.chunks.len() == 0,
            r.allocs@ == Seq::<Slot>::empty(),
            r.min_chunk_size == CHUNK_START_SIZE,
    {
        Self::with_chunk_size(CHUNK_START_SIZE)
    }

    /// Usable capacity of the head chunk, 0 without chunks.
    pub fn last_chunk_size(&self) -> (r: usize)
        requires
            self.wf(),
        ensures
            r == if self.chunks.len() == 0 {
                0int
            } else {
                self.head().spec_cap()
            },
    {
        let n = self.chunks.len();
        if n == 0 {
            0
        } else {
            self.chunks[n - 1].cap()
        }
    }

    /// The head chunk can serve the request without any backing call.
    pub open spec fn fast_path_fits(&self, layout: Layout) -> bool {
        self.chunks.len() > 0 && self.head().alloc_fits(layout)
    }

    /// Bump allocation from the head chunk.  Succeeds exactly when a head
    /// chunk exists and the request fits in it; neither the chunk chain nor
    /// the backing allocator is otherwise touched.
    pub fn alloc_fast(&mut self, layout: &Layout, zeroed: bool) -> (r: Option<Slot>)
        requires
            old(self).wf(),
            layout.wf(),
        ensures
            final(self).wf(),
            r is Some <==> old(self).fast_path_fits(*layout),
            match r {
                Some(slot) => {
                    &&& slot.len == layout.size
                    &&& slot.addr as int % layout.align as int == 0
                    &&& slot.addr == old(self).head().alloc_addr(*layout)
                    &&& slot.end() <= usize::MAX
                    &&& Self::same_chunks_shape(old(self), final(self))
                    &&& final(self).allocs@ == if layout.size > 0 {
                        old(self).allocs@.push(slot)
                    } else {
                        old(self).allocs@
                    }
                    &&& final(self).head().cursor_addr() == slot.end()
                    &&& old(self).head().cursor_addr() <= slot.addr
                    &&& forall|a: int|
                        old(self).owns_addr(a) ==> final(self).owns_addr(a)
                            && final(self).byte_at(a) == (
                        if zeroed && slot.addr <= a < slot.end() {
                            0u8
                        } else {
                            old(self).byte_at(a)
                        })
                    &&& forall|a: int| slot.addr <= a < slot.end() ==> final(self).owns_addr(a)
                        && (zeroed ==> final(self).byte_at(a) == 0u8)
                    &&& final(self).owns_range(slot.addr as int, slot.len as int)
                },
                None => Self::state_eq(old(self), final(self)),
            },
    {
        let n = self.chunks.len();
        if n == 0 {
            return None;
        }
        let mut head = self.chunks.pop().unwrap();
        let ghost pre_head = head;
        let r = head.allocate(layout, zeroed);
        self.chunks.push(head);
        proof {
            assert(old(self).chunks@ =~= old(self).chunks@.drop_last().push(pre_head));
        }
        match r {
            Some(slot) => {
                proof {
                    if layout.size > 0 {
                        self.allocs@ = self.allocs@.push(slot);
                    }
                    self.lemma_after_fast_alloc(old(self), slot, *layout, zeroed);
                    let h = self.head_idx();
                    assert(self.chunks@[h].base <= slot.addr && slot.addr + slot.len
                        <= self.chunks@[h].end);
                    assert(self.owns_range(slot.addr as int, slot.len as int));
                }
                Some(slot)
            },
            None => {
                proof {
                    assert(self.chunks@ =~= old(self).chunks@);
                }
                None
            },
        }
    }

    /// Re-establishes the invariant and the byte-level frame after a
    /// successful fast-path allocation from the head chunk.
    proof fn lemma_after_fast_alloc(
        &self,
        pre: &Self,
        slot: Slot,
        layout: Layout,
        zeroed: bool,
    )
        requires
            pre.wf(),
            layout.wf(),
            pre.chunks.len() > 0,
            self.chunks.len() == pre.chunks.len(),
            self.min_chunk_size == pre.min_chunk_size,
            forall|i: int|
                0 <= i < pre.chunks.len() && i != pre.head_idx() ==> self.chunks@[i]
                    == #[trigger] pre.chunks@[i],
            ChunkHeader::<T>::same_shape(&pre.head(), &self.head()),
            self.head().wf(),
            self.head().base == pre.head().base,
            slot.len == layout.size,
            pre.head().base <= slot.addr,
            pre.head().cursor_addr() <= slot.addr,
            slot.end() == self.head().cursor_addr(),
            slot.end() <= pre.head().end,
            forall|i: int|
                0 <= i < pre.head().data.len() ==> self.head().data@[i] == (
                if zeroed && slot.addr - pre.head().base <= i < slot.end() - pre.head().base {
                    0u8
                } else {
                    pre.head().data@[i]
                }),
            self.allocs@ == if layout.size > 0 {
                pre.allocs@.push(slot)
            } else {
                pre.allocs@
            },
        ensures
            self.wf(),
            forall|a: int|
                pre.owns_addr(a) ==> self.owns_addr(a) && self.byte_at(a) == (
                if zeroed && slot.addr <= a < slot.end() {
                    0u8
                } else {
                    pre.byte_at(a)
                }),
            forall|a: int| slot.addr <= a < slot.end() ==> self.owns_addr(a)
                && (zeroed ==> self.byte_at(a) == 0u8),
    {
        let h = pre.head_idx();
        // chunk well-formedness and disjointness carry over unchanged.
        assert forall|i: int| 0 <= i < self.chunks.len() implies (#[trigger] self.chunks@[i]).wf() by {
            if i != h {
                assert(self.chunks@[i] == pre.chunks@[i]);
            }
        }
        assert forall|i: int, j: int| 0 <= i < j < self.chunks.len() implies regions_disjoint(
            #[trigger] self.chunks@[i],
            #[trigger] self.chunks@[j],
        ) by {
            assert(regions_disjoint(pre.chunks@[i], pre.chunks@[j]));
        }
        // history entries stay inside their chunks.
        assert forall|k: int| 0 <= k < self.allocs@.len() implies (#[trigger] self.allocs@[k]).len
            > 0 && exists|i: int|
            0 <= i < self.chunks.len() && slot_live_in(self.allocs@[k], #[trigger] self.chunks@[i]) by {
            if k < pre.allocs@.len() {
                assert(self.allocs@[k] == pre.allocs@[k]);
                let i = choose|i: int|
                    0 <= i < pre.chunks.len() && slot_live_in(
                        pre.allocs@[k],
                        #[trigger] pre.chunks@[i],
                    );
                if i == h {
                    assert(pre.head().cursor_addr() <= self.head().cursor_addr());
                    assert(slot_live_in(self.allocs@[k], self.chunks@[i]));
                } else {
                    assert(self.chunks@[i] == pre.chunks@[i]);
                    assert(slot_live_in(self.allocs@[k], self.chunks@[i]));
                }
            } else {
                assert(self.allocs@[k] == slot);
                assert(layout.size > 0);
                assert(slot_live_in(slot, self.chunks@[h]));
            }
        }
        // ordering within each chunk.
        assert forall|i: int, k: int, l: int|
            0 <= i < self.chunks.len() && 0 <= k < l < self.allocs@.len()
                && in_chunk_range(#[trigger] self.allocs@[k], #[trigger] self.chunks@[i])
                && in_chunk_range(#[trigger] self.allocs@[l], self.chunks@[i])
            implies self.allocs@[k].end() <= self.allocs@[l].addr by {
            assert(ChunkHeader::<T>::same_shape(&pre.chunks@[i], &self.chunks@[i]));
            if l < pre.allocs@.len() {
                assert(in_chunk_range(pre.allocs@[k], pre.chunks@[i]));
                assert(in_chunk_range(pre.allocs@[l], pre.chunks@[i]));
            } else {
                // l is the new slot; k is an older entry in the same chunk,
                // which must be the head, where k lies below the old cursor.
                assert(self.allocs@[l] == slot);
                assert(in_chunk_range(pre.allocs@[k], pre.chunks@[i]));
                let j = choose|j: int|
                    0 <= j < pre.chunks.len() && slot_live_in(
                        pre.allocs@[k],
                        #[trigger] pre.chunks@[j],
                    );
                assert(in_chunk_range(pre.allocs@[k], pre.chunks@[j]));
                assert(in_chunk_range(slot, pre.chunks@[h]));
                pre.lemma_range_owner_unique(self.allocs@[k], i, j);
                pre.lemma_range_owner_unique(slot, i, h);
                assert(pre.allocs@[k].end() <= pre.chunks@[h].cursor_addr());
            }
        }
        // byte-level frame.
        assert forall|a: int| pre.owns_addr(a) implies self.owns_addr(a) && self.byte_at(a) == (
        if zeroed && slot.addr <= a < slot.end() {
            0u8
        } else {
            pre.byte_at(a)
        }) by {
            let i = pre.chunk_of(a);
            assert(0 <= i < pre.chunks.len() && pre.chunks@[i].base <= a < pre.chunks@[i].end);
            assert(self.chunks@[i].base <= a < self.chunks@[i].end);
            assert(self.owns_addr(a));
            let j = self.chunk_of(a);
            assert(0 <= j < self.chunks.len() && self.chunks@[j].base <= a < self.chunks@[j].end);
            self.lemma_addr_owner_unique(a, i, j);
            if i == h {
                assert(self.byte_at(a) == self.head().data@[a - self.head().base]);
                if slot.addr <= a < slot.end() {
                    if zeroed {
                        assert(self.byte_at(a) == 0u8);
                    } else {
                        assert(self.byte_at(a) == pre.byte_at(a));
                    }
                } else {
                    assert(!(slot.addr - pre.head().base <= a - pre.head().base < slot.end()
                        - pre.head().base));
                    assert(self.byte_at(a) == pre.byte_at(a));
                }
            } else {
                assert(self.chunks@[i] == pre.chunks@[i]);
                // the slot lies in the head chunk; `a` lies in chunk i != h.
                if slot.addr <= a < slot.end() {
                    assert(in_chunk_range(slot, pre.chunks@[h]));
                    assert(pre.chunks@[h].base <= a < pre.chunks@[h].end);
                    pre.lemma_addr_owner_unique(a, i, h);
                    assert(false);
                }
                assert(self.byte_at(a) == pre.byte_at(a));
            }
        }
        assert forall|a: int| slot.addr <= a < slot.end() implies self.owns_addr(a) && (zeroed
            ==> self.byte_at(a) == 0u8) by {
            assert(self.head().base <= a < self.head().end);
            assert(self.owns_addr(a));
            let j = self.chunk_of(a);
            self.lemma_addr_owner_unique(a, j, self.head_idx());
        }
    }

    /// Re-establishes the invariant and the byte-level frame after a fresh,
    /// zero-filled chunk was appended and served the slot.
    proof fn lemma_after_append(&self, pre: &Self, slot: Slot, layout: Layout)
        requires
            pre.wf(),
            layout.wf(),
            self.chunks.len() == pre.chunks.len() + 1,
            forall|i: int|
                0 <= i < pre.chunks.len() ==> self.chunks@[i] == #[trigger] pre.chunks@[i],
            self.head().wf(),
            forall|i: int|
                0 <= i < pre.chunks.len() ==> regions_disjoint(
                    #[trigger] pre.chunks@[i],
                    self.head(),
                ),
            slot.len == layout.size,
            self.head().base <= slot.addr,
            slot.end() == self.head().cursor_addr(),
            forall|i: int| 0 <= i < self.head().data.len() ==> self.head().data@[i] == 0u8,
            self.allocs@ == if layout.size > 0 {
                pre.allocs@.push(slot)
            } else {
                pre.allocs@
            },
        ensures
            self.wf(),
            forall|a: int|
                pre.owns_addr(a) ==> self.owns_addr(a) && self.byte_at(a) == pre.byte_at(a),
            forall|a: int|
                slot.addr <= a < slot.end() ==> self.owns_addr(a) && self.byte_at(a) == 0u8,
    {
        let n = pre.chunks.len() as int;
        assert forall|i: int| 0 <= i < self.chunks.len() implies (
        #[trigger] self.chunks@[i]).wf() by {
            if i < n {
                assert(self.chunks@[i] == pre.chunks@[i]);
            }
        }
        assert forall|i: int, j: int| 0 <= i < j < self.chunks.len() implies regions_disjoint(
            #[trigger] self.chunks@[i],
            #[trigger] self.chunks@[j],
        ) by {
            if j < n {
                assert(regions_disjoint(pre.chunks@[i], pre.chunks@[j]));
            } else {
                assert(regions_disjoint(pre.chunks@[i], self.head()));
            }
        }
        // an old entry cannot lie in the new chunk's range
        assert forall|k: int, i: int|
            0 <= k < pre.allocs@.len() && 0 <= i < n && in_chunk_range(
                pre.allocs@[k],
                self.chunks@[n],
            ) implies !in_chunk_range(#[trigger] pre.allocs@[k], #[trigger] pre.chunks@[i])
            || pre.allocs@[k].len == 0 by {
            if in_chunk_range(pre.allocs@[k], pre.chunks@[i]) && pre.allocs@[k].len > 0 {
                let s = pre.allocs@[k];
                assert(regions_disjoint(pre.chunks@[i], self.head()));
                assert(s.addr >= self.head().base > self.head().region_base());
                assert(s.end() <= self.head().end);
                assert(s.addr >= pre.chunks@[i].base);
                assert(s.end() <= pre.chunks@[i].end);
            }
        }
        assert forall|k: int| 0 <= k < self.allocs@.len() implies (#[trigger] self.allocs@[k]).len
            > 0 && exists|i: int|
            0 <= i < self.chunks.len() && slot_live_in(self.allocs@[k], #[trigger] self.chunks@[i]) by {
            if k < pre.allocs@.len() {
                assert(self.allocs@[k] == pre.allocs@[k]);
                let i = choose|i: int|
                    0 <= i < pre.chunks.len() && slot_live_in(
                        pre.allocs@[k],
                        #[trigger] pre.chunks@[i],
                    );
                assert(slot_live_in(self.allocs@[k], self.chunks@[i]));
            } else {
                assert(self.allocs@[k] == slot);
                assert(slot_live_in(slot, self.chunks@[n]));
            }
        }
        assert forall|i: int, k: int, l: int|
            0 <= i < self.chunks.len() && 0 <= k < l < self.allocs@.len()
                && in_chunk_range(#[trigger] self.allocs@[k], #[trigger] self.chunks@[i])
                && in_chunk_range(#[trigger] self.allocs@[l], self.chunks@[i])
            implies self.allocs@[k].end() <= self.allocs@[l].addr by {
            let ka = self.allocs@[k];
            let la = self.allocs@[l];
            assert(ka.len > 0 && la.len > 0);
            if l < pre.allocs@.len() {
                // both entries are old
                if i < n {
                    assert(in_chunk_range(pre.allocs@[k], pre.chunks@[i]));
                    assert(in_chunk_range(pre.allocs@[l], pre.chunks@[i]));
                } else {
                    // old entries cannot lie in the new chunk
                    let j = choose|j: int|
                        0 <= j < pre.chunks.len() && slot_live_in(
                            pre.allocs@[k],
                            #[trigger] pre.chunks@[j],
                        );
                    assert(in_chunk_range(pre.allocs@[k], pre.chunks@[j]));
                    assert(!in_chunk_range(pre.allocs@[k], self.chunks@[n]));
                }
            } else {
                // l is the new slot, which lies only in the new chunk
                assert(la == slot);
                if i < n {
                    assert(in_chunk_range(slot, self.chunks@[n]));
                    assert(regions_disjoint(pre.chunks@[i], self.head()));
                } else {
                    let j = choose|j: int|
                        0 <= j < pre.chunks.len() && slot_live_in(
                            pre.allocs@[k],
                            #[trigger] pre.chunks@[j],
                        );
                    assert(in_chunk_range(pre.allocs@[k], pre.chunks@[j]));
                    assert(!in_chunk_range(pre.allocs@[k], self.chunks@[n]));
                }
            }
        }
        assert forall|a: int| pre.owns_addr(a) implies self.owns_addr(a) && self.byte_at(a)
            == pre.byte_at(a) by {
            let i = pre.chunk_of(a);
            assert(0 <= i < pre.chunks.len() && pre.chunks@[i].base <= a < pre.chunks@[i].end);
            assert(self.chunks@[i].base <= a < self.chunks@[i].end);
            assert(self.owns_addr(a));
            let j = self.chunk_of(a);
            self.lemma_addr_owner_unique(a, i, j);
        }
        assert forall|a: int| slot.addr <= a < slot.end() implies self.owns_addr(a)
            && self.byte_at(a) == 0u8 by {
            assert(self.head().base <= a < self.head().end);
            assert(self.owns_addr(a));
            let j = self.chunk_of(a);
            self.lemma_addr_owner_unique(a, j, n);
        }
    }

    /// The next chunk's size before rounding, by the growth heuristic:
    /// start from the hint, or from the chain's cumulative size when a
    /// chain exists, add the request (at least the minimum growth step),
    /// leave room for a stronger alignment, and add the header.
    pub open spec fn spec_grow_size(&self, layout: Layout) -> int {
        let start = if self.chunks.len() > 0 {
            let from = if self.head().cumulative_size > self.min_chunk_size {
                self.head().cumulative_size as int
            } else {
                self.min_chunk_size as int
            };
            let step = if layout.size > CHUNK_MIN_GROW_STEP {
                layout.size as int
            } else {
                CHUNK_MIN_GROW_STEP as int
            };
            from + step
        } else {
            if layout.size > self.min_chunk_size {
                layout.size as int
            } else {
                self.min_chunk_size as int
            }
        };
        start + (if layout.align > CHUNK_ALIGN {
            layout.align as int
        } else {
            0int
        }) + HEADER_SIZE
    }

    /// Cumulative capacity a fresh head chunk records: the old head's
    /// capacity plus its own cumulative size; 0 for the first chunk.
    pub open spec fn spec_chain_cumulative(&self) -> int {
        if self.chunks.len() > 0 {
            self.head().spec_cap() + self.head().cumulative_size
        } else {
            0int
        }
    }

    /// The growth arithmetic overflows the address space: either the next
    /// chunk's un-rounded size or the cumulative-size bookkeeping does.
    pub open spec fn grow_overflows(&self, layout: Layout) -> bool {
        self.spec_grow_size(layout) > usize::MAX || self.spec_chain_cumulative() > usize::MAX
    }

    /// Size of the next chunk, by the growth heuristic: the un-rounded size
    /// of `spec_grow_size`, rounded up — to the next power of two below the
    /// threshold, to the page size above it (or kept as it is when even the
    /// page padding overflows).  Fails exactly when the un-rounded size
    /// overflows the address space.
    fn next_chunk_size(&self, layout: &Layout) -> (r: Result<usize, AllocError>)
        requires
            self.wf(),
            layout.wf(),
        ensures
            r is Err <==> self.spec_grow_size(*layout) > usize::MAX,
            match r {
                Ok(size) => {
                    &&& layout.size + HEADER_SIZE + (if layout.align > CHUNK_ALIGN {
                        layout.align as int
                    } else {
                        0int
                    }) <= size
                    &&& HEADER_SIZE <= size
                    &&& self.spec_grow_size(*layout) <= size
                    &&& (self.spec_grow_size(*layout) < CHUNK_POWER_OF_TWO_THRESHOLD ==> {
                        &&& crate::align::is_pow2(size as int)
                        &&& size < 2 * self.spec_grow_size(*layout)
                    })
                    &&& (self.spec_grow_size(*layout) >= CHUNK_POWER_OF_TWO_THRESHOLD ==> size
                        == (if self.spec_grow_size(*layout) + CHUNK_PAGE_SIZE_THRESHOLD - 1
                            <= usize::MAX {
                            crate::align::align_up_spec(
                                self.spec_grow_size(*layout),
                                CHUNK_PAGE_SIZE_THRESHOLD as int,
                            )
                        } else {
                            self.spec_grow_size(*layout)
                        }))
                },
                Err(_) => true,
            },
    {
        let mut chunk_size = self.min_chunk_size;
        let n = self.chunks.len();
        if n > 0 {
            let head_cumulative = self.chunks[n - 1].cumulative_size;
            if head_cumulative > chunk_size {
                chunk_size = head_cumulative;
            }
            let grow = if layout.size() > CHUNK_MIN_GROW_STEP {
                layout.size()
            } else {
                CHUNK_MIN_GROW_STEP
            };
            if chunk_size > usize::MAX - grow {
                return Err(AllocError);
            }
            chunk_size = chunk_size + grow;
        } else {
            if layout.size() > chunk_size {
                chunk_size = layout.size();
            }
        }
        if layout.align() > CHUNK_ALIGN {
            if chunk_size > usize::MAX - layout.align() {
                return Err(AllocError);
            }
            chunk_size = chunk_size + layout.align();
        }
        if chunk_size > usize::MAX - HEADER_SIZE {
            return Err(AllocError);
        }
        chunk_size = chunk_size + HEADER_SIZE;
        if chunk_size < CHUNK_POWER_OF_TWO_THRESHOLD {
            chunk_size = next_power_of_two(chunk_size);
        } else {
            chunk_size = match align_up(chunk_size, CHUNK_PAGE_SIZE_THRESHOLD) {
                Some(rounded) => rounded,
                None => chunk_size,
            };
        }
        Ok(chunk_size)
    }

    /// Grows the chain by one chunk sized by the heuristic and serves the
    /// request from it.  When the growth arithmetic overflows, the call
    /// fails without consulting the backing allocator at all; otherwise a
    /// failure can only come from the backing allocator's side — a refusal,
    /// or a granted region so close to the end of the address space that
    /// the padded request overflows (the region is then given back).
    /// Either way a failure leaves everything unchanged.  On success the
    /// new head chunk has exactly the heuristic's rounded size, records the
    /// chain's cumulative capacity, and its cursor stands at the end of the
    /// returned slot.
    pub fn alloc_slow<B: BackingAllocator>(
        &mut self,
        layout: &Layout,
        zeroed: bool,
        backing: &mut B,
    ) -> (r: Result<Slot, AllocError>)
        requires
            old(self).wf(),
            layout.wf(),
            old(backing).wf(),
            regions_positive(old(backing).allocated()),
            old(self).registered_in(old(backing).allocated()),
        ensures
            final(self).wf(),
            final(backing).wf(),
            regions_positive(final(backing).allocated()),
            final(self).registered_in(final(backing).allocated()),
            final(self).min_chunk_size == old(self).min_chunk_size,
            old(self).grow_overflows(*layout) ==> r is Err && *final(backing) == *old(backing),
            match r {
                Ok(slot) => {
                    &&& slot.len == layout.size
                    &&& slot.addr as int % layout.align as int == 0
                    &&& slot.end() <= usize::MAX
                    &&& final(self).chunks.len() == old(self).chunks.len() + 1
                    &&& forall|i: int|
                        0 <= i < old(self).chunks.len() ==> final(self).chunks@[i]
                            == #[trigger] old(self).chunks@[i]
                    &&& final(self).allocs@ == if layout.size > 0 {
                        old(self).allocs@.push(slot)
                    } else {
                        old(self).allocs@
                    }
                    &&& final(self).head().spec_cap() >= layout.size
                    &&& final(self).head().region_size() >= layout.size + HEADER_SIZE
                    &&& final(self).head().region_size() >= old(self).spec_grow_size(*layout)
                    &&& (old(self).spec_grow_size(*layout) < CHUNK_POWER_OF_TWO_THRESHOLD
                        ==> crate::align::is_pow2(final(self).head().region_size())
                        && final(self).head().region_size() < 2 * old(self).spec_grow_size(
                        *layout,
                    ))
                    &&& (old(self).spec_grow_size(*layout) >= CHUNK_POWER_OF_TWO_THRESHOLD
                        ==> final(self).head().region_size() == (if old(self).spec_grow_size(
                        *layout,
                    ) + CHUNK_PAGE_SIZE_THRESHOLD - 1 <= usize::MAX {
                        crate::align::align_up_spec(
                            old(self).spec_grow_size(*layout),
                            CHUNK_PAGE_SIZE_THRESHOLD as int,
                        )
                    } else {
                        old(self).spec_grow_size(*layout)
                    }))
                    &&& final(self).head().cumulative_size == old(self).spec_chain_cumulative()
                    &&& final(self).head().cursor_addr() == slot.end()
                    &&& final(self).head().base <= slot.addr
                    &&& slot.addr - final(self).head().base < layout.align
                    &&& final(backing).allocated() == old(backing).allocated().insert(
                        (final(self).head().base - HEADER_SIZE) as usize,
                        final(self).head().region_size() as usize,
                    )
                    &&& forall|a: int|
                        old(self).owns_addr(a) ==> final(self).owns_addr(a) && final(self).byte_at(a) == old(self).byte_at(a)
                    &&& forall|a: int|
                        slot.addr <= a < slot.end() ==> final(self).owns_addr(a) && final(self).byte_at(a) == 0u8
                    &&& final(self).owns_range(slot.addr as int, slot.len as int)
                },
                Err(_) => {
                    &&& Self::state_eq(old(self), final(self))
                    &&& final(backing).allocated() == old(backing).allocated()
                },
            },
    {
        let chunk_size = match self.next_chunk_size(layout) {
            Ok(size) => size,
            Err(e) => {
                return Err(e);
            },
        };
        let n = self.chunks.len();
        let cumulative = if n > 0 {
            let head_cap = self.chunks[n - 1].cap();
            let head_cumulative = self.chunks[n - 1].cumulative_size;
            if head_cap > usize::MAX - head_cumulative {
                return Err(AllocError);
            }
            head_cap + head_cumulative
        } else {
            0
        };
        let region_base = match backing.allocate_region(chunk_size, CHUNK_ALIGN) {
            Ok(base) => base,
            Err(e) => {
                return Err(e);
            },
        };
        let mut fresh = ChunkHeader::<T>::init_chunk(region_base, chunk_size, cumulative);
        let served = fresh.allocate(layout, zeroed);
        match served {
            Some(slot) => {
                let ghost pre = *self;
                self.chunks.push(fresh);
                proof {
                    if layout.size > 0 {
                        self.allocs@ = self.allocs@.push(slot);
                    }
                    assert forall|i: int|
                        0 <= i < pre.chunks.len() implies regions_disjoint(
                        #[trigger] pre.chunks@[i],
                        self.head(),
                    ) by {
                        let b = (pre.chunks@[i].base - HEADER_SIZE) as usize;
                        assert(old(backing).allocated().contains_key(b));
                        assert(b + old(backing).allocated()[b] <= region_base || region_base
                            + chunk_size <= b);
                    }
                    self.lemma_after_append(&pre, slot, *layout);
                    let h = self.head_idx();
                    assert(self.chunks@[h].base <= slot.addr && slot.addr + slot.len
                        <= self.chunks@[h].end);
                    assert(self.owns_range(slot.addr as int, slot.len as int));
                    assert forall|i: int| 0 <= i < self.chunks.len() implies {
                        &&& final(backing).allocated().contains_key(
                            ((#[trigger] self.chunks@[i]).base - HEADER_SIZE) as usize,
                        )
                        &&& final(backing).allocated()[(self.chunks@[i].base
                            - HEADER_SIZE) as usize] == self.chunks@[i].region_size()
                    } by {
                        if i < pre.chunks.len() {
                            let b = (pre.chunks@[i].base - HEADER_SIZE) as usize;
                            assert(old(backing).allocated().contains_key(b));
                            assert(b + old(backing).allocated()[b] <= region_base
                                || region_base + chunk_size <= b);
                        }
                    }
                }
                Ok(slot)
            },
            None => {
                // the granted region sits too close to the end of the
                // address space for the padded request; give it back.
                backing.deallocate_region(region_base, chunk_size);
                proof {
                    if old(backing).allocated().contains_key(region_base) {
                        assert(region_base + old(backing).allocated()[region_base]
                            <= region_base || region_base + chunk_size <= region_base);
                        assert(old(backing).allocated()[region_base] >= 1);
                    }
                    assert(final(backing).allocated() =~= old(backing).allocated());
                }
                Err(AllocError)
            },
        }
    }

    /// Allocates `layout` from this arena: the head chunk first, a grown
    /// chain on a miss.  Whenever the head chunk can serve the request, the
    /// call succeeds without touching the backing allocator at all.
    pub fn allocate<B: BackingAllocator>(
        &mut self,
        layout: &Layout,
        zeroed: bool,
        backing: &mut B,
    ) -> (r: Result<Slot, AllocError>)
        requires
            old(self).wf(),
            layout.wf(),
            old(backing).wf(),
            regions_positive(old(backing).allocated()),
            old(self).registered_in(old(backing).allocated()),
        ensures
            final(self).wf(),
            final(backing).wf(),
            regions_positive(final(backing).allocated()),
            final(self).registered_in(final(backing).allocated()),
            final(self).min_chunk_size == old(self).min_chunk_size,
            old(self).fast_path_fits(*layout) ==> r is Ok && *final(backing) == *old(backing)
                && (r matches Ok(slot) ==> slot.addr == old(self).head().alloc_addr(*layout)),
            !old(self).fast_path_fits(*layout) && old(self).grow_overflows(*layout) ==> r is Err
                && *final(backing) == *old(backing),
            match r {
                Ok(slot) => {
                    &&& slot.len == layout.size
                    &&& slot.addr as int % layout.align as int == 0
                    &&& slot.end() <= usize::MAX
                    &&& final(self).chunks.len() > 0
                    &&& final(self).head().cursor_addr() == slot.end()
                    &&& final(self).allocs@ == if layout.size > 0 {
                        old(self).allocs@.push(slot)
                    } else {
                        old(self).allocs@
                    }
                    &&& (!old(self).fast_path_fits(*layout) ==> {
                        &&& final(self).chunks.len() == old(self).chunks.len() + 1
                        &&& final(self).head().region_size() >= old(self).spec_grow_size(
                            *layout,
                        )
                        &&& final(self).head().cumulative_size == old(
                            self,
                        ).spec_chain_cumulative()
                        &&& final(self).head().base <= slot.addr
                        &&& slot.addr - final(self).head().base < layout.align
                    })
                    &&& (old(self).fast_path_fits(*layout) ==> Self::same_chunks_shape(
                        old(self),
                        final(self),
                    ))
                    &&& forall|a: int|
                        old(self).owns_addr(a) ==> final(self).owns_addr(a) && final(self).byte_at(a) == (if zeroed && slot.addr <= a < slot.end() {
                            0u8
                        } else {
                            old(self).byte_at(a)
                        })
                    &&& forall|a: int|
                        slot.addr <= a < slot.end() ==> final(self).owns_addr(a) && (zeroed
                            ==> final(self).byte_at(a) == 0u8)
                    &&& final(self).owns_range(slot.addr as int, slot.len as int)
                },
                Err(_) => {
                    &&& Self::state_eq(old(self), final(self))
                    &&& final(backing).allocated() == old(backing).allocated()
                },
            },
    {
        match self.alloc_fast(layout, zeroed) {
            Some(slot) => {
                proof {
                    let h = old(self).head_idx();
                    assert forall|i: int| 0 <= i < self.chunks.len() implies {
                        &&& final(backing).allocated().contains_key(
                            ((#[trigger] self.chunks@[i]).base - HEADER_SIZE) as usize,
                        )
                        &&& final(backing).allocated()[(self.chunks@[i].base
                            - HEADER_SIZE) as usize] == self.chunks@[i].region_size()
                    } by {
                        if i == h {
                            assert(ChunkHeader::<T>::same_shape(
                                &old(self).chunks@[h],
                                &self.chunks@[h],
                            ));
                        } else {
                            assert(self.chunks@[i] == old(self).chunks@[i]);
                        }
                    }
                }
                Ok(slot)
            },
            None => {
                let r = self.alloc_slow(layout, zeroed, backing);
                proof {
                    if r is Ok {
                        let slot = r->Ok_0;
                        assert forall|a: int| old(self).owns_addr(a) implies final(self).owns_addr(a) && final(self).byte_at(a) == (
                        if zeroed && slot.addr <= a < slot.end() {
                            0u8
                        } else {
                            old(self).byte_at(a)
                        }) by {
                            if slot.addr <= a < slot.end() {
                                assert(final(self).byte_at(a) == 0u8);
                                if !zeroed {
                                    // a fresh chunk is zero-filled, and old
                                    // addresses keep their bytes; the slot is
                                    // in the fresh chunk, so an old address
                                    // inside it reads zero either way.
                                    assert(final(self).byte_at(a) == old(self).byte_at(a));
                                }
                            }
                        }
                    }
                }
                r
            },
        }
    }
}

/// Base addresses of the backing regions of a chunk sequence.
pub open spec fn region_bases<T: CasPtr>(chunks: Seq<ChunkHeader<T>>) -> Set<usize> {
    Set::new(
        |b: usize|
            exists|i: int|
                0 <= i < chunks.len() && ((#[trigger] chunks[i]).base - HEADER_SIZE) as usize
                    == b,
    )
}

/// The entry survives a rewind of the head chunk's cursor to `ptr`: it is
/// kept unless it lies in the head chunk and reaches past `ptr`.
pub open spec fn keep_slot(s: Slot, head_base: int, head_end: int, ptr: int) -> bool {
    !(head_base <= s.addr && s.end() <= head_end && s.end() > ptr)
}

/// The history after a rewind of the head chunk's cursor to `ptr`.
pub open spec fn prune(history: Seq<Slot>, head_base: int, head_end: int, ptr: int) -> Seq<Slot>
    decreases history.len(),
{
    if history.len() == 0 {
        Seq::empty()
    } else {
        let rest = prune(history.drop_last(), head_base, head_end, ptr);
        if keep_slot(history.last(), head_base, head_end, ptr) {
            rest.push(history.last())
        } else {
            rest
        }
    }
}

/// `a` is a subsequence of `b`: every entry of `a` appears in `b`, and every
/// pair of entries of `a` appears in `b` in the same order.
pub open spec fn subseq_of(a: Seq<Slot>, b: Seq<Slot>) -> bool {
    &&& forall|k: int|
        0 <= k < a.len() ==> exists|j: int| 0 <= j < b.len() && #[trigger] a[k] == #[trigger] b[j]
    &&& forall|k: int, l: int|
        0 <= k < l < a.len() ==> exists|j1: int, j2: int|
            0 <= j1 < j2 < b.len() && #[trigger] a[k] == b[j1] && #[trigger] a[l] == b[j2]
}

/// Pruning keeps only surviving entries and preserves their order.
pub proof fn lemma_prune_sub(history: Seq<Slot>, hb: int, he: int, ptr: int)
    ensures
        subseq_of(prune(history, hb, he, ptr), history),
        forall|k: int|
            0 <= k < prune(history, hb, he, ptr).len() ==> keep_slot(
                #[trigger] prune(history, hb, he, ptr)[k],
                hb,
                he,
                ptr,
            ),
    decreases history.len(),
{
    let p = prune(history, hb, he, ptr);
    if history.len() == 0 {
    } else {
        let h0 = history.drop_last();
        let p0 = prune(h0, hb, he, ptr);
        lemma_prune_sub(h0, hb, he, ptr);
        assert forall|k: int| 0 <= k < p.len() implies keep_slot(#[trigger] p[k], hb, he, ptr)
            && exists|j: int| 0 <= j < history.len() && p[k] == #[trigger] history[j] by {
            if k < p0.len() {
                assert(p[k] == p0[k]);
                let j = choose|j: int| 0 <= j < h0.len() && p0[k] == #[trigger] h0[j];
                assert(history[j] == h0[j]);
            } else {
                assert(p[k] == history.last());
                assert(history[history.len() - 1] == history.last());
            }
        }
        assert forall|k: int, l: int| 0 <= k < l < p.len() implies exists|j1: int, j2: int|
            0 <= j1 < j2 < history.len() && #[trigger] p[k] == history[j1] && #[trigger] p[l]
                == history[j2] by {
            if l < p0.len() {
                let (j1, j2): (int, int) = choose|j1: int, j2: int|
                    0 <= j1 < j2 < h0.len() && #[trigger] p0[k] == h0[j1] && #[trigger] p0[l]
                        == h0[j2];
                assert(p[k] == p0[k] && p[l] == p0[l]);
                assert(history[j1] == h0[j1] && history[j2] == h0[j2]);
                assert(0 <= j1 < j2 < history.len() && p[k] == history[j1] && p[l]
                    == history[j2]);
            } else {
                // l is the re-pushed last entry
                assert(p[l] == history.last());
                assert(p[k] == p0[k]);
                let j1 = choose|j: int| 0 <= j < h0.len() && p0[k] == #[trigger] h0[j];
                let j2 = history.len() - 1;
                assert(history[j1] == h0[j1]);
                assert(0 <= j1 < j2 < history.len() && p[k] == history[j1] && p[l]
                    == history[j2]);
            }
        }
    }
}

/// A prune that drops nothing is the identity.
pub proof fn lemma_prune_identity(history: Seq<Slot>, hb: int, he: int, ptr: int)
    requires
        forall|k: int| 0 <= k < history.len() ==> keep_slot(#[trigger] history[k], hb, he, ptr),
    ensures
        prune(history, hb, he, ptr) == history,
    decreases history.len(),
{
    if history.len() > 0 {
        lemma_prune_identity(history.drop_last(), hb, he, ptr);
        assert(history[history.len() - 1] == history.last());
        assert(prune(history, hb, he, ptr) =~= history);
    }
}

impl<T: CasPtr> Arena<T> {
    /// Chunk geometry, cursors and history are unchanged (bytes may differ).
    pub open spec fn mem_shape_eq(pre: &Self, post: &Self) -> bool {
        &&& post.chunks.len() == pre.chunks.len()
        &&& post.min_chunk_size == pre.min_chunk_size
        &&& post.allocs@ == pre.allocs@
        &&& forall|i: int|
            0 <= i < pre.chunks.len() ==> {
                &&& (#[trigger] post.chunks@[i]).base == pre.chunks@[i].base
                &&& post.chunks@[i].end == pre.chunks@[i].end
                &&& post.chunks@[i].cumulative_size == pre.chunks@[i].cumulative_size
                &&& post.chunks@[i].cursor_addr() == pre.chunks@[i].cursor_addr()
                &&& post.chunks@[i].data.len() == pre.chunks@[i].data.len()
            }
    }

    /// Best-effort deallocation: a single compare-and-exchange of the head
    /// chunk's cursor from `ptr + size` back to `ptr`.  It succeeds exactly
    /// when `ptr` lies in the head chunk and `ptr + size` is the cursor —
    /// that is, for the most recent allocation; any other pointer leaves the
    /// arena unchanged.  On success the space is reclaimed and every history
    /// entry reaching past `ptr` in the head chunk ceases to be live.
    pub fn dealloc(&mut self, ptr: usize, size: usize) -> (r: bool)
        requires
            old(self).wf(),
        ensures
            final(self).wf(),
            r <==> old(self).chunks.len() > 0 && old(self).head().dealloc_hits(ptr, size),
            if r {
                &&& Self::same_chunks_shape(old(self), final(self))
                &&& final(self).head().cursor_addr() == ptr
                &&& final(self).allocs@ == prune(
                    old(self).allocs@,
                    old(self).head().base as int,
                    old(self).head().end as int,
                    ptr as int,
                )
                &&& forall|a: int|
                    old(self).owns_addr(a) ==> final(self).owns_addr(a) && final(self).byte_at(
                        a,
                    ) == old(self).byte_at(a)
            } else {
                Self::state_eq(old(self), final(self))
            },
    {
        let n = self.chunks.len();
        if n == 0 {
            return false;
        }
        let mut head = self.chunks.pop().unwrap();
        let ghost pre_head = head;
        let hit = head.dealloc(ptr, size);
        self.chunks.push(head);
        proof {
            assert(old(self).chunks@ =~= old(self).chunks@.drop_last().push(pre_head));
        }
        if hit {
            proof {
                let hb = pre_head.base as int;
                let he = pre_head.end as int;
                self.allocs@ = prune(old(self).allocs@, hb, he, ptr as int);
                lemma_prune_sub(old(self).allocs@, hb, he, ptr as int);
                self.lemma_after_rewind(old(self), ptr);
            }
            true
        } else {
            proof {
                assert(self.chunks@ =~= old(self).chunks@);
            }
            false
        }
    }

    /// Re-establishes the invariant and the byte frame after the head
    /// chunk's cursor was rewound to `ptr` and the history pruned.
    proof fn lemma_after_rewind(&self, pre: &Self, ptr: usize)
        requires
            pre.wf(),
            pre.chunks.len() > 0,
            self.chunks.len() == pre.chunks.len(),
            forall|i: int|
                0 <= i < pre.chunks.len() && i != pre.head_idx() ==> self.chunks@[i]
                    == #[trigger] pre.chunks@[i],
            ChunkHeader::<T>::same_shape(&pre.head(), &self.head()),
            self.head().wf(),
            self.head().base == pre.head().base,
            self.head().data == pre.head().data,
            self.head().cursor_addr() == ptr,
            pre.head().base <= ptr,
            self.allocs@ == prune(
                pre.allocs@,
                pre.head().base as int,
                pre.head().end as int,
                ptr as int,
            ),
        ensures
            self.wf(),
            forall|a: int|
                pre.owns_addr(a) ==> self.owns_addr(a) && self.byte_at(a) == pre.byte_at(a),
    {
        let h = pre.head_idx();
        let hb = pre.head().base as int;
        let he = pre.head().end as int;
        lemma_prune_sub(pre.allocs@, hb, he, ptr as int);
        assert forall|i: int| 0 <= i < self.chunks.len() implies (
        #[trigger] self.chunks@[i]).wf() by {
            if i != h {
                assert(self.chunks@[i] == pre.chunks@[i]);
            }
        }
        assert forall|i: int, j: int| 0 <= i < j < self.chunks.len() implies regions_disjoint(
            #[trigger] self.chunks@[i],
            #[trigger] self.chunks@[j],
        ) by {
            assert(regions_disjoint(pre.chunks@[i], pre.chunks@[j]));
        }
        assert forall|k: int| 0 <= k < self.allocs@.len() implies (#[trigger] self.allocs@[k]).len
            > 0 && exists|i: int|
            0 <= i < self.chunks.len() && slot_live_in(self.allocs@[k], #[trigger] self.chunks@[i]) by {
            let s = self.allocs@[k];
            let j = choose|j: int| 0 <= j < pre.allocs@.len() && s == #[trigger] pre.allocs@[j];
            assert(pre.allocs@[j].len > 0);
            let i = choose|i: int|
                0 <= i < pre.chunks.len() && slot_live_in(
                    pre.allocs@[j],
                    #[trigger] pre.chunks@[i],
                );
            if i == h {
                // the entry survived the prune, so it ends at or below ptr
                assert(keep_slot(s, hb, he, ptr as int));
                assert(s.end() <= pre.head().cursor_addr());
                assert(s.end() <= he);
                assert(slot_live_in(s, self.chunks@[h]));
            } else {
                assert(self.chunks@[i] == pre.chunks@[i]);
                assert(slot_live_in(s, self.chunks@[i]));
            }
        }
        assert forall|i: int, k: int, l: int|
            0 <= i < self.chunks.len() && 0 <= k < l < self.allocs@.len()
                && in_chunk_range(#[trigger] self.allocs@[k], #[trigger] self.chunks@[i])
                && in_chunk_range(#[trigger] self.allocs@[l], self.chunks@[i])
            implies self.allocs@[k].end() <= self.allocs@[l].addr by {
            let (j1, j2): (int, int) = choose|j1: int, j2: int|
                0 <= j1 < j2 < pre.allocs@.len() && #[trigger] self.allocs@[k] == pre.allocs@[j1]
                    && #[trigger] self.allocs@[l] == pre.allocs@[j2];
            assert(in_chunk_range(pre.allocs@[j1], pre.chunks@[i]));
            assert(in_chunk_range(pre.allocs@[j2], pre.chunks@[i]));
        }
        assert forall|a: int| pre.owns_addr(a) implies self.owns_addr(a) && self.byte_at(a)
            == pre.byte_at(a) by {
            let i = pre.chunk_of(a);
            assert(0 <= i < pre.chunks.len() && pre.chunks@[i].base <= a < pre.chunks@[i].end);
            assert(self.chunks@[i].base <= a < self.chunks@[i].end);
            assert(self.owns_addr(a));
            let j = self.chunk_of(a);
            self.lemma_addr_owner_unique(a, i, j);
            if i == h {
                assert(self.byte_at(a) == self.head().data@[a - hb]);
            } else {
                assert(self.chunks@[i] == pre.chunks@[i]);
            }
        }
    }

    /// Resets the arena, invalidating all allocations.  With `keep_last` the
    /// head chunk is kept, its cursor rewound to the base and its cumulative
    /// size cleared; every other chunk — or, without `keep_last`, every
    /// chunk — is returned to the backing allocator, newest first.  This is
    /// the only path that returns memory to the backing allocator.
    pub fn reset<B: BackingAllocator>(&mut self, keep_last: bool, backing: &mut B)
        requires
            old(self).wf(),
            old(backing).wf(),
            regions_positive(old(backing).allocated()),
            old(self).registered_in(old(backing).allocated()),
        ensures
            final(self).wf(),
            final(backing).wf(),
            regions_positive(final(backing).allocated()),
            final(self).registered_in(final(backing).allocated()),
            final(self).allocs@ == Seq::<Slot>::empty(),
            final(self).min_chunk_size == old(self).min_chunk_size,
            if keep_last && old(self).chunks.len() > 0 {
                &&& final(self).chunks.len() == 1
                &&& final(self).chunks@[0].base == old(self).head().base
                &&& final(self).chunks@[0].end == old(self).head().end
                &&& final(self).chunks@[0].cursor_addr() == old(self).head().base
                &&& final(self).chunks@[0].cumulative_size == 0
                &&& final(self).chunks@[0].data == old(self).head().data
                &&& final(backing).allocated() == old(backing).allocated().remove_keys(
                    region_bases(old(self).chunks@.drop_last()),
                )
            } else {
                &&& final(self).chunks.len() == 0
                &&& final(backing).allocated() == old(backing).allocated().remove_keys(
                    region_bases(old(self).chunks@),
                )
            },
    {
        let kept: Option<ChunkHeader<T>> = if keep_last {
            self.chunks.pop()
        } else {
            None
        };
        let ghost doomed = self.chunks@;
        proof {
            assert forall|i: int, j: int| 0 <= i < j < doomed.len() implies regions_disjoint(
                #[trigger] doomed[i],
                #[trigger] doomed[j],
            ) by {
                assert(doomed[i] == old(self).chunks@[i]);
                assert(doomed[j] == old(self).chunks@[j]);
            }
            assert forall|i: int| 0 <= i < doomed.len() implies (#[trigger] doomed[i]).wf() by {
                assert(doomed[i] == old(self).chunks@[i]);
            }
            assert(self.chunks@ =~= doomed.take(self.chunks.len() as int));
            assert(backing.allocated() =~= old(backing).allocated().remove_keys(
                region_bases(doomed.skip(self.chunks.len() as int)),
            )) by {
                assert(region_bases(doomed.skip(doomed.len() as int)) =~= Set::<usize>::empty());
            }
        }
        while self.chunks.len() > 0
            invariant
                self.chunks.len() <= doomed.len(),
                self.chunks@ == doomed.take(self.chunks.len() as int),
                self.min_chunk_size == old(self).min_chunk_size,
                self.allocs@ == old(self).allocs@,
                forall|i: int, j: int|
                    0 <= i < j < doomed.len() ==> regions_disjoint(
                        #[trigger] doomed[i],
                        #[trigger] doomed[j],
                    ),
                forall|i: int| 0 <= i < doomed.len() ==> (#[trigger] doomed[i]).wf(),
                backing.wf(),
                regions_positive(backing.allocated()),
                backing.allocated() == old(backing).allocated().remove_keys(
                    region_bases(doomed.skip(self.chunks.len() as int)),
                ),
                forall|b: usize|
                    old(backing).allocated().contains_key(b) && !region_bases(doomed).contains(
                        b,
                    ) ==> backing.allocated().contains_key(b) && #[trigger] backing.allocated()[b]
                        == old(backing).allocated()[b],
                forall|i: int|
                    0 <= i < self.chunks.len() ==> {
                        &&& backing.allocated().contains_key(
                            ((#[trigger] doomed[i]).base - HEADER_SIZE) as usize,
                        )
                        &&& backing.allocated()[(doomed[i].base - HEADER_SIZE) as usize]
                            == doomed[i].region_size()
                    },
            decreases self.chunks.len(),
        {
            let ghost k = self.chunks.len() as int;
            let ghost pre_chunks = self.chunks@;
            let doomed_chunk = self.chunks.pop().unwrap();
            proof {
                assert(pre_chunks == doomed.take(k));
                assert(doomed.take(k)[k - 1] == doomed[k - 1]);
                assert(doomed_chunk == pre_chunks.last());
                assert(doomed_chunk == doomed[k - 1]);
                assert(doomed[k - 1].wf());
                assert(self.chunks@ =~= doomed.take(k - 1));
            }
            let region_base = doomed_chunk.base - HEADER_SIZE;
            let region_size = doomed_chunk.end - region_base;
            backing.deallocate_region(region_base, region_size);
            proof {
                assert(region_bases(doomed.skip(k - 1)) =~= region_bases(doomed.skip(k)).insert(
                    region_base,
                )) by {
                    assert forall|b: usize| region_bases(doomed.skip(k - 1)).contains(b) implies
                        region_bases(doomed.skip(k)).insert(region_base).contains(b) by {
                        let i = choose|i: int|
                            0 <= i < doomed.skip(k - 1).len() && ((#[trigger] doomed.skip(
                                k - 1,
                            )[i]).base - HEADER_SIZE) as usize == b;
                        if i > 0 {
                            assert(doomed.skip(k - 1)[i] == doomed.skip(k)[i - 1]);
                        }
                    }
                    assert forall|b: usize| region_bases(doomed.skip(k)).insert(
                        region_base,
                    ).contains(b) implies region_bases(doomed.skip(k - 1)).contains(b) by {
                        if b == region_base {
                            assert(doomed.skip(k - 1)[0] == doomed[k - 1]);
                        } else {
                            let i = choose|i: int|
                                0 <= i < doomed.skip(k).len() && ((#[trigger] doomed.skip(
                                    k,
                                )[i]).base - HEADER_SIZE) as usize == b;
                            assert(doomed.skip(k - 1)[i + 1] == doomed.skip(k)[i]);
                        }
                    }
                }
                assert(backing.allocated() =~= old(backing).allocated().remove_keys(
                    region_bases(doomed.skip(k - 1)),
                ));
                // distinct region bases: removing this one leaves the rest
                assert forall|i: int| 0 <= i < self.chunks.len() implies {
                    &&& backing.allocated().contains_key(
                        ((#[trigger] doomed[i]).base - HEADER_SIZE) as usize,
                    )
                    &&& backing.allocated()[(doomed[i].base - HEADER_SIZE) as usize]
                        == doomed[i].region_size()
                } by {
                    assert(regions_disjoint(doomed[i], doomed[k - 1]));
                    assert(doomed[i].wf() && doomed[k - 1].wf());
                }
            }
        }
        match kept {
            Some(mut head) => {
                head.reset();
                self.chunks.push(head);
                proof {
                    self.allocs@ = Seq::empty();
                    if old(self).chunks.len() > 0 {
                        let h = old(self).head_idx();
                        let hb = (old(self).head().base - HEADER_SIZE) as usize;
                        assert(old(backing).allocated().contains_key(hb));
                        assert forall|i: int|
                            0 <= i < doomed.len() implies ((#[trigger] doomed[i]).base
                            - HEADER_SIZE) as usize != hb by {
                            assert(doomed[i] == old(self).chunks@[i]);
                            assert(regions_disjoint(old(self).chunks@[i], old(self).chunks@[h]));
                            assert(old(self).chunks@[i].wf());
                        }
                        assert(!region_bases(doomed).contains(hb));
                        assert(backing.allocated() =~= old(backing).allocated().remove_keys(
                            region_bases(doomed),
                        ));
                    }
                }
            },
            None => {
                proof {
                    self.allocs@ = Seq::empty();
                    assert(backing.allocated() =~= old(backing).allocated().remove_keys(
                        region_bases(doomed),
                    ));
                }
            },
        }
    }

    /// Reset for callers who establish exclusivity by other means — a
    /// barrier or a join.  Exclusive access is what `&mut` already
    /// expresses here, so this is `reset` under its traditional name.
    pub fn reset_unchecked<B: BackingAllocator>(&mut self, keep_last: bool, backing: &mut B)
        requires
            old(self).wf(),
            old(backing).wf(),
            regions_positive(old(backing).allocated()),
            old(self).registered_in(old(backing).allocated()),
        ensures
            final(self).wf(),
            final(backing).wf(),
            regions_positive(final(backing).allocated()),
            final(self).registered_in(final(backing).allocated()),
            final(self).allocs@ == Seq::<Slot>::empty(),
            final(self).min_chunk_size == old(self).min_chunk_size,
            keep_last && old(self).chunks.len() > 0 ==> final(self).chunks.len() == 1,
            !(keep_last && old(self).chunks.len() > 0) ==> final(self).chunks.len() == 0,
    {
        self.reset(keep_last, backing);
    }

    /// Leaking reset for callers who establish exclusivity by other means;
    /// see `reset_unchecked`.
    pub fn reset_leak_unchecked(&mut self, keep_last: bool)
        requires
            old(self).wf(),
        ensures
            final(self).wf(),
            final(self).allocs@ == Seq::<Slot>::empty(),
            final(self).min_chunk_size == old(self).min_chunk_size,
            keep_last && old(self).chunks.len() > 0 ==> final(self).chunks.len() == 1,
            !(keep_last && old(self).chunks.len() > 0) ==> final(self).chunks.len() == 0,
    {
        self.reset_leak(keep_last);
    }

    /// Resets by forgetting chunks instead of returning them: with
    /// `keep_last` the head chunk is kept and rewound, all others are
    /// leaked; without it the whole chain is leaked.  Useful when the leaked
    /// memory is reclaimed by the backing allocator's own lifetime.
    pub fn reset_leak(&mut self, keep_last: bool)
        requires
            old(self).wf(),
        ensures
            final(self).wf(),
            final(self).allocs@ == Seq::<Slot>::empty(),
            final(self).min_chunk_size == old(self).min_chunk_size,
            forall|m: Map<usize, usize>|
                old(self).registered_in(m) ==> final(self).registered_in(m),
            if keep_last && old(self).chunks.len() > 0 {
                &&& final(self).chunks.len() == 1
                &&& final(self).chunks@[0].base == old(self).head().base
                &&& final(self).chunks@[0].end == old(self).head().end
                &&& final(self).chunks@[0].cursor_addr() == old(self).head().base
                &&& final(self).chunks@[0].cumulative_size == 0
                &&& final(self).chunks@[0].data == old(self).head().data
            } else {
                final(self).chunks.len() == 0
            },
    {
        if keep_last {
            match self.chunks.pop() {
                Some(mut head) => {
                    head.reset();
                    self.chunks.clear();
                    self.chunks.push(head);
                    proof {
                        self.allocs@ = Seq::empty();
                        let h = old(self).head_idx();
                        assert(old(self).chunks@[h].wf());
                    }
                },
                None => {
                    proof {
                        self.allocs@ = Seq::empty();
                        assert(self.chunks@ =~= old(self).chunks@);
                    }
                },
            }
        } else {
            self.chunks.clear();
            proof {
                self.allocs@ = Seq::empty();
            }
        }
    }

    /// Reads the byte stored at `addr`.
    pub fn read_byte(&self, addr: usize) -> (r: u8)
        requires
            self.wf(),
            self.owns_addr(addr as int),
        ensures
            r == self.byte_at(addr as int),
    {
        let n = self.chunks.len();
        let mut i: usize = 0;
        while i < n && !(self.chunks[i].base <= addr && addr < self.chunks[i].end)
            invariant
                i <= n,
                n == self.chunks.len(),
                forall|j: int|
                    0 <= j < i ==> !((#[trigger] self.chunks@[j]).base <= addr
                        < self.chunks@[j].end),
            decreases n - i,
        {
            i = i + 1;
        }
        if i < n {
            proof {
                self.lemma_addr_owner_unique(addr as int, i as int, self.chunk_of(addr as int));
            }
            self.chunks[i].read_at(addr - self.chunks[i].base)
        } else {
            proof {
                let w = choose|w: int|
                    0 <= w < self.chunks.len() && (#[trigger] self.chunks@[w]).base <= (
                    addr as int) < self.chunks@[w].end;
                assert(!(self.chunks@[w].base <= addr < self.chunks@[w].end));
            }
            0
        }
    }

    /// Overwrites the bytes at `addr..addr + bytes.len()`, a range that must
    /// lie within one chunk.  Nothing else changes: not the chunk layout,
    /// not the cursors, not the history, not any byte outside the range.
    pub fn write_bytes(&mut self, addr: usize, bytes: &Vec<u8>)
        requires
            old(self).wf(),
            old(self).owns_range(addr as int, bytes.len() as int),
        ensures
            final(self).wf(),
            Self::mem_shape_eq(old(self), final(self)),
            forall|a: int|
                old(self).owns_addr(a) ==> final(self).owns_addr(a) && final(self).byte_at(a)
                    == (if addr <= a < addr + bytes.len() {
                    bytes@[a - addr]
                } else {
                    old(self).byte_at(a)
                }),
    {
        let n = self.chunks.len();
        let count = bytes.len();
        let mut i: usize = 0;
        while i < n && !(self.chunks[i].base <= addr && addr <= self.chunks[i].end && count
            <= self.chunks[i].end - addr)
            invariant
                i <= n,
                n == self.chunks.len(),
                count == bytes.len(),
                forall|j: int|
                    0 <= j < i ==> !((#[trigger] self.chunks@[j]).base <= addr && addr
                        + count <= self.chunks@[j].end),
            decreases n - i,
        {
            i = i + 1;
        }
        if i < n {
            let base = self.chunks[i].base;
            let target = &mut self.chunks[i];
            target.write_range(addr - base, bytes);
            proof {
                self.lemma_after_write(old(self), i as int, addr as int, bytes@);
            }
        } else {
            proof {
                let w = choose|w: int|
                    0 <= w < old(self).chunks.len() && (#[trigger] old(self).chunks@[w]).base
                        <= addr as int && addr + bytes.len() <= old(self).chunks@[w].end;
                assert(!(self.chunks@[w].base <= addr && addr + count <= self.chunks@[w].end));
            }
        }
    }

    /// Re-establishes the invariant and the byte frame after an in-chunk
    /// byte write.
    proof fn lemma_after_write(&self, pre: &Self, i: int, addr: int, bytes: Seq<u8>)
        requires
            pre.wf(),
            0 <= i < pre.chunks.len(),
            self.chunks.len() == pre.chunks.len(),
            self.min_chunk_size == pre.min_chunk_size,
            self.allocs@ == pre.allocs@,
            forall|j: int|
                0 <= j < pre.chunks.len() && j != i ==> self.chunks@[j]
                    == #[trigger] pre.chunks@[j],
            self.chunks@[i].wf(),
            self.chunks@[i].base == pre.chunks@[i].base,
            self.chunks@[i].end == pre.chunks@[i].end,
            self.chunks@[i].cumulative_size == pre.chunks@[i].cumulative_size,
            self.chunks@[i].cursor_addr() == pre.chunks@[i].cursor_addr(),
            self.chunks@[i].data.len() == pre.chunks@[i].data.len(),
            pre.chunks@[i].base <= addr,
            addr + bytes.len() <= pre.chunks@[i].end,
            forall|j: int|
                0 <= j < pre.chunks@[i].data.len() ==> self.chunks@[i].data@[j] == (
                if addr - pre.chunks@[i].base <= j < addr - pre.chunks@[i].base + bytes.len() {
                    bytes[j - (addr - pre.chunks@[i].base)]
                } else {
                    pre.chunks@[i].data@[j]
                }),
        ensures
            self.wf(),
            Self::mem_shape_eq(pre, self),
            forall|a: int|
                pre.owns_addr(a) ==> self.owns_addr(a) && self.byte_at(a) == (
                if addr <= a < addr + bytes.len() {
                    bytes[a - addr]
                } else {
                    pre.byte_at(a)
                }),
    {
        assert forall|j: int| 0 <= j < self.chunks.len() implies (
        #[trigger] self.chunks@[j]).wf() by {
            if j != i {
                assert(self.chunks@[j] == pre.chunks@[j]);
            }
        }
        assert forall|j: int, k: int| 0 <= j < k < self.chunks.len() implies regions_disjoint(
            #[trigger] self.chunks@[j],
            #[trigger] self.chunks@[k],
        ) by {
            assert(regions_disjoint(pre.chunks@[j], pre.chunks@[k]));
        }
        assert forall|k: int| 0 <= k < self.allocs@.len() implies (#[trigger] self.allocs@[k]).len
            > 0 && exists|j: int|
            0 <= j < self.chunks.len() && slot_live_in(self.allocs@[k], #[trigger] self.chunks@[j]) by {
            let j = choose|j: int|
                0 <= j < pre.chunks.len() && slot_live_in(
                    pre.allocs@[k],
                    #[trigger] pre.chunks@[j],
                );
            assert(slot_live_in(self.allocs@[k], self.chunks@[j]));
        }
        assert forall|j: int, k: int, l: int|
            0 <= j < self.chunks.len() && 0 <= k < l < self.allocs@.len()
                && in_chunk_range(#[trigger] self.allocs@[k], #[trigger] self.chunks@[j])
                && in_chunk_range(#[trigger] self.allocs@[l], self.chunks@[j])
            implies self.allocs@[k].end() <= self.allocs@[l].addr by {
            assert(in_chunk_range(pre.allocs@[k], pre.chunks@[j]));
            assert(in_chunk_range(pre.allocs@[l], pre.chunks@[j]));
        }
        assert forall|a: int| pre.owns_addr(a) implies self.owns_addr(a) && self.byte_at(a) == (
        if addr <= a < addr + bytes.len() {
            bytes[a - addr]
        } else {
            pre.byte_at(a)
        }) by {
            let w = pre.chunk_of(a);
            assert(0 <= w < pre.chunks.len() && pre.chunks@[w].base <= a < pre.chunks@[w].end);
            assert(self.chunks@[w].base <= a < self.chunks@[w].end);
            assert(self.owns_addr(a));
            let w2 = self.chunk_of(a);
            self.lemma_addr_owner_unique(a, w, w2);
            if addr <= a < addr + bytes.len() {
                pre.lemma_addr_owner_unique(a, w, i);
                assert(self.byte_at(a) == self.chunks@[i].data@[a - self.chunks@[i].base]);
            } else {
                if w == i {
                    assert(self.byte_at(a) == self.chunks@[i].data@[a - self.chunks@[i].base]);
                    assert(!(addr - pre.chunks@[i].base <= a - pre.chunks@[i].base < addr
                        - pre.chunks@[i].base + bytes.len()));
                } else {
                    assert(self.chunks@[w] == pre.chunks@[w]);
                }
            }
        }
    }

    /// Reads `count` bytes starting at `addr`, a range within one chunk.
    pub fn read_range(&self, addr: usize, count: usize) -> (r: Vec<u8>)
        requires
            self.wf(),
            self.owns_range(addr as int, count as int),
        ensures
            r.len() == count,
            forall|i: int| 0 <= i < count ==> r@[i] == self.byte_at(addr + i),
    {
        let n = self.chunks.len();
        let mut i: usize = 0;
        while i < n && !(self.chunks[i].base <= addr && addr <= self.chunks[i].end && count
            <= self.chunks[i].end - addr)
            invariant
                i <= n,
                n == self.chunks.len(),
                forall|j: int|
                    0 <= j < i ==> !((#[trigger] self.chunks@[j]).base <= addr && addr
                        + count <= self.chunks@[j].end),
            decreases n - i,
        {
            i = i + 1;
        }
        if i < n {
            let base = self.chunks[i].base;
            let mut out: Vec<u8> = Vec::new();
            let mut k: usize = 0;
            while k < count
                invariant
                    k <= count,
                    i < n,
                    n == self.chunks.len(),
                    self.wf(),
                    out.len() == k,
                    base == self.chunks@[i as int].base,
                    self.chunks@[i as int].base <= addr,
                    addr + count <= self.chunks@[i as int].end,
                    forall|j: int| 0 <= j < k ==> out@[j] == self.byte_at(addr + j),
                decreases count - k,
            {
                let b = self.chunks[i].read_at(addr - base + k);
                proof {
                    let w = self.chunk_of(addr + k);
                    self.lemma_addr_owner_unique(addr + k, i as int, w);
                }
                out.push(b);
                k = k + 1;
            }
            out
        } else {
            proof {
                let w = choose|w: int|
                    0 <= w < self.chunks.len() && (#[trigger] self.chunks@[w]).base <= addr
                        && addr + count <= self.chunks@[w].end;
                assert(!(self.chunks@[w].base <= addr && addr + count <= self.chunks@[w].end));
            }
            Vec::new()
        }
    }

    /// `(ptr, size)` is a live allocation of this arena.
    pub open spec fn is_live(&self, ptr: usize, size: usize) -> bool {
        exists|k: int|
            0 <= k < self.allocs@.len() && #[trigger] self.allocs@[k] == (Slot {
                addr: ptr,
                len: size,
            })
    }

    /// Re-establishes the invariant and the byte frame after an in-place
    /// grow of the most recent allocation of the head chunk.
    proof fn lemma_after_grow(&self, pre: &Self, ptr: usize, old_size: int, slot: Slot, zeroed: bool)
        requires
            pre.wf(),
            pre.chunks.len() > 0,
            self.chunks.len() == pre.chunks.len(),
            forall|i: int|
                0 <= i < pre.chunks.len() && i != pre.head_idx() ==> self.chunks@[i]
                    == #[trigger] pre.chunks@[i],
            ChunkHeader::<T>::same_shape(&pre.head(), &self.head()),
            self.head().wf(),
            self.head().base == pre.head().base,
            pre.head().base <= ptr,
            0 <= old_size,
            ptr + old_size == pre.head().cursor_addr(),
            slot.addr == ptr,
            slot.len > old_size,
            slot.end() == self.head().cursor_addr(),
            slot.end() <= pre.head().end,
            forall|j: int|
                0 <= j < pre.head().data.len() ==> self.head().data@[j] == (
                if zeroed && ptr + old_size - pre.head().base <= j < slot.end()
                    - pre.head().base {
                    0u8
                } else {
                    pre.head().data@[j]
                }),
            self.allocs@ == prune(
                pre.allocs@,
                pre.head().base as int,
                pre.head().end as int,
                ptr as int,
            ).push(slot),
        ensures
            self.wf(),
            forall|a: int|
                pre.owns_addr(a) ==> self.owns_addr(a) && self.byte_at(a) == (
                if zeroed && ptr + old_size <= a < slot.end() {
                    0u8
                } else {
                    pre.byte_at(a)
                }),
            forall|a: int| slot.addr <= a < slot.end() ==> self.owns_addr(a),
    {
        let h = pre.head_idx();
        let hb = pre.head().base as int;
        let he = pre.head().end as int;
        let kept = prune(pre.allocs@, hb, he, ptr as int);
        lemma_prune_sub(pre.allocs@, hb, he, ptr as int);
        assert forall|i: int| 0 <= i < self.chunks.len() implies (
        #[trigger] self.chunks@[i]).wf() by {
            if i != h {
                assert(self.chunks@[i] == pre.chunks@[i]);
            }
        }
        assert forall|i: int, j: int| 0 <= i < j < self.chunks.len() implies regions_disjoint(
            #[trigger] self.chunks@[i],
            #[trigger] self.chunks@[j],
        ) by {
            assert(regions_disjoint(pre.chunks@[i], pre.chunks@[j]));
        }
        assert forall|k: int| 0 <= k < self.allocs@.len() implies (#[trigger] self.allocs@[k]).len
            > 0 && exists|i: int|
            0 <= i < self.chunks.len() && slot_live_in(self.allocs@[k], #[trigger] self.chunks@[i]) by {
            if k < kept.len() {
                let s = self.allocs@[k];
                assert(s == kept[k]);
                let j = choose|j: int| 0 <= j < pre.allocs@.len() && s == #[trigger] pre.allocs@[j];
                assert(pre.allocs@[j].len > 0);
                let i = choose|i: int|
                    0 <= i < pre.chunks.len() && slot_live_in(
                        pre.allocs@[j],
                        #[trigger] pre.chunks@[i],
                    );
                if i == h {
                    assert(keep_slot(s, hb, he, ptr as int));
                    assert(s.end() <= pre.head().cursor_addr());
                    assert(s.end() <= he);
                    assert(s.end() <= ptr);
                    assert(slot_live_in(s, self.chunks@[h]));
                } else {
                    assert(self.chunks@[i] == pre.chunks@[i]);
                    assert(slot_live_in(s, self.chunks@[i]));
                }
            } else {
                assert(self.allocs@[k] == slot);
                assert(slot_live_in(slot, self.chunks@[h]));
            }
        }
        assert forall|i: int, k: int, l: int|
            0 <= i < self.chunks.len() && 0 <= k < l < self.allocs@.len()
                && in_chunk_range(#[trigger] self.allocs@[k], #[trigger] self.chunks@[i])
                && in_chunk_range(#[trigger] self.allocs@[l], self.chunks@[i])
            implies self.allocs@[k].end() <= self.allocs@[l].addr by {
            if l < kept.len() {
                let (j1, j2): (int, int) = choose|j1: int, j2: int|
                    0 <= j1 < j2 < pre.allocs@.len() && #[trigger] kept[k] == pre.allocs@[j1]
                        && #[trigger] kept[l] == pre.allocs@[j2];
                assert(in_chunk_range(pre.allocs@[j1], pre.chunks@[i]));
                assert(in_chunk_range(pre.allocs@[j2], pre.chunks@[i]));
            } else {
                // l is the grown slot, which lies only in the head chunk
                assert(self.allocs@[l] == slot);
                assert(in_chunk_range(slot, pre.chunks@[h]));
                pre.lemma_range_owner_unique(slot, i, h);
                // k is a kept entry in the head chunk, ending at or below ptr
                let s = self.allocs@[k];
                assert(s == kept[k]);
                assert(keep_slot(s, hb, he, ptr as int));
                assert(in_chunk_range(s, pre.chunks@[h]));
            }
        }
        assert forall|a: int| pre.owns_addr(a) implies self.owns_addr(a) && self.byte_at(a) == (
        if zeroed && ptr + old_size <= a < slot.end() {
            0u8
        } else {
            pre.byte_at(a)
        }) by {
            let i = pre.chunk_of(a);
            assert(0 <= i < pre.chunks.len() && pre.chunks@[i].base <= a < pre.chunks@[i].end);
            assert(self.chunks@[i].base <= a < self.chunks@[i].end);
            assert(self.owns_addr(a));
            let j = self.chunk_of(a);
            self.lemma_addr_owner_unique(a, i, j);
            if i == h {
                assert(self.byte_at(a) == self.head().data@[a - hb]);
            } else {
                assert(self.chunks@[i] == pre.chunks@[i]);
                if ptr + old_size <= a < slot.end() {
                    assert(pre.chunks@[h].base <= a < pre.chunks@[h].end);
                    pre.lemma_addr_owner_unique(a, i, h);
                }
            }
        }
        assert forall|a: int| slot.addr <= a < slot.end() implies self.owns_addr(a) by {
            assert(self.head().base <= a < self.head().end);
            assert(self.owns_addr(a));
        }
    }

    /// Optimistic in-place resize against the head chunk: a shrink with no
    /// stronger alignment always succeeds at the same address; a grow with
    /// no stronger alignment succeeds when the block is the most recent
    /// allocation and the extra bytes fit its chunk.  Returns `None`, with
    /// the arena untouched, when the caller must fall back to
    /// allocate-and-copy.
    pub fn resize_fast(
        &mut self,
        ptr: usize,
        old_layout: &Layout,
        new_layout: &Layout,
        zeroed: bool,
    ) -> (r: Option<Slot>)
        requires
            old(self).wf(),
            old_layout.wf(),
            new_layout.wf(),
            ptr as int % old_layout.align as int == 0,
            old_layout.size > 0 ==> old(self).is_live(ptr, old_layout.size),
        ensures
            final(self).wf(),
            final(self).min_chunk_size == old(self).min_chunk_size,
            forall|m: Map<usize, usize>|
                old(self).registered_in(m) ==> final(self).registered_in(m),
            ChunkHeader::<T>::can_shrink(*old_layout, *new_layout) && old(self).chunks.len() > 0
                ==> r == Some(Slot { addr: ptr, len: new_layout.size }),
            old(self).chunks.len() > 0 && old(self).head().can_grow_in_place(
                ptr,
                *old_layout,
                *new_layout,
            ) ==> r == Some(Slot { addr: ptr, len: new_layout.size }),
            match r {
                Some(slot) => {
                    &&& slot.len == new_layout.size
                    &&& slot.addr as int % new_layout.align as int == 0
                    &&& slot.end() <= usize::MAX
                    &&& (slot.len > 0 ==> final(self).is_live(slot.addr, slot.len))
                    &&& forall|i: int|
                        0 <= i < min_size(*old_layout, *new_layout) ==> #[trigger] final(self).byte_at(slot.addr + i) == old(self).byte_at(ptr + i)
                    &&& (zeroed ==> forall|i: int|
                        old_layout.size <= i < new_layout.size ==> #[trigger] final(self).byte_at(slot.addr + i) == 0u8)
                },
                None => Self::state_eq(old(self), final(self)),
            },
    {
        let n = self.chunks.len();
        if n == 0 {
            return None;
        }
        let mut head = self.chunks.pop().unwrap();
        let ghost pre_head = head;
        let in_place = head.resize_in_place(ptr, old_layout, new_layout, zeroed);
        self.chunks.push(head);
        proof {
            assert(old(self).chunks@ =~= old(self).chunks@.drop_last().push(pre_head));
        }
        match in_place {
            Some(slot) => {
                proof {
                    crate::align::lemma_aligned_to_smaller(
                        ptr as int,
                        new_layout.align as int,
                        old_layout.align as int,
                    );
                    if ChunkHeader::<T>::can_shrink(*old_layout, *new_layout) {
                        assert(self.chunks@ =~= old(self).chunks@);
                        if 0 < new_layout.size {
                            let k = choose|k: int|
                                0 <= k < old(self).allocs@.len()
                                    && #[trigger] old(self).allocs@[k] == (Slot {
                                    addr: ptr,
                                    len: old_layout.size,
                                });
                            let shrunk = Slot { addr: ptr, len: new_layout.size };
                            self.allocs@ = old(self).allocs@.update(k, shrunk);
                            Self::lemma_shrink_wf(old(self), self, ptr, old_layout.size, new_layout.size, k);
                        }
                    } else {
                        assert(pre_head.can_grow_in_place(ptr, *old_layout, *new_layout));
                        let hb = pre_head.base as int;
                        let he = pre_head.end as int;
                        self.allocs@ = prune(old(self).allocs@, hb, he, ptr as int).push(slot);
                        self.lemma_after_grow(
                            old(self),
                            ptr,
                            old_layout.size as int,
                            slot,
                            zeroed,
                        );
                        assert(self.allocs@.last() == slot);
                    }
                    let h = old(self).head_idx();
                    assert forall|m: Map<usize, usize>| old(self).registered_in(m) implies
                        self.registered_in(m) by {
                        assert forall|i: int| 0 <= i < self.chunks.len() implies {
                            &&& m.contains_key(
                                ((#[trigger] self.chunks@[i]).base - HEADER_SIZE) as usize,
                            )
                            &&& m[(self.chunks@[i].base - HEADER_SIZE) as usize]
                                == self.chunks@[i].region_size()
                        } by {
                            if i == h {
                                assert(ChunkHeader::<T>::same_shape(
                                    &old(self).chunks@[h],
                                    &self.chunks@[h],
                                ));
                            } else {
                                assert(self.chunks@[i] == old(self).chunks@[i]);
                            }
                        }
                    }
                }
                Some(slot)
            },
            None => {
                proof {
                    assert(self.chunks@ =~= old(self).chunks@);
                }
                None
            },
        }
    }

    /// Resize by fresh allocation and copy, for the cases the in-place
    /// attempt cannot serve: the old block is abandoned, never reused
    /// before a reset, and the first `min(old_size, new_size)` bytes are
    /// copied into the fresh block.
    pub fn resize_slow<B: BackingAllocator>(
        &mut self,
        ptr: usize,
        old_layout: &Layout,
        new_layout: &Layout,
        zeroed: bool,
        backing: &mut B,
    ) -> (r: Result<Slot, AllocError>)
        requires
            old(self).wf(),
            old_layout.wf(),
            new_layout.wf(),
            old_layout.size > 0 ==> old(self).is_live(ptr, old_layout.size),
            old(backing).wf(),
            regions_positive(old(backing).allocated()),
            old(self).registered_in(old(backing).allocated()),
        ensures
            final(self).wf(),
            final(backing).wf(),
            regions_positive(final(backing).allocated()),
            final(self).registered_in(final(backing).allocated()),
            final(self).min_chunk_size == old(self).min_chunk_size,
            old(self).fast_path_fits(*new_layout) ==> r is Ok && *final(backing) == *old(
                backing,
            ),
            match r {
                Ok(slot) => {
                    &&& slot.len == new_layout.size
                    &&& slot.addr as int % new_layout.align as int == 0
                    &&& slot.end() <= usize::MAX
                    &&& (slot.len > 0 ==> final(self).is_live(slot.addr, slot.len))
                    &&& forall|i: int|
                        0 <= i < min_size(*old_layout, *new_layout) ==> #[trigger] final(self).byte_at(slot.addr + i) == old(self).byte_at(ptr + i)
                    &&& (zeroed ==> forall|i: int|
                        old_layout.size <= i < new_layout.size ==> #[trigger] final(self).byte_at(slot.addr + i) == 0u8)
                },
                Err(_) => {
                    &&& Self::state_eq(old(self), final(self))
                    &&& final(backing).allocated() == old(backing).allocated()
                },
            },
    {
        let copy_len = if old_layout.size() < new_layout.size() {
            old_layout.size()
        } else {
            new_layout.size()
        };
        let ghost mid = *self;
        proof {
            if copy_len > 0 {
                let k = choose|k: int|
                    0 <= k < self.allocs@.len() && #[trigger] self.allocs@[k] == (Slot {
                        addr: ptr,
                        len: old_layout.size,
                    });
                let i = choose|i: int|
                    0 <= i < self.chunks.len() && slot_live_in(
                        self.allocs@[k],
                        #[trigger] self.chunks@[i],
                    );
                assert(self.chunks@[i].base <= ptr && ptr + copy_len <= self.chunks@[i].end);
                assert(self.owns_range(ptr as int, copy_len as int));
            }
        }
        let saved: Vec<u8> = if copy_len > 0 {
            self.read_range(ptr, copy_len)
        } else {
            Vec::new()
        };
        let slot = match self.allocate(new_layout, zeroed, backing) {
            Ok(slot) => slot,
            Err(e) => {
                return Err(e);
            },
        };
        if copy_len > 0 {
            self.write_bytes(slot.addr, &saved);
            proof {
                assert forall|i: int| 0 <= i < copy_len implies #[trigger] self.byte_at(
                    slot.addr + i,
                ) == old(self).byte_at(ptr + i) by {
                    assert(self.byte_at(slot.addr + i) == saved@[i]);
                }
                if zeroed {
                    assert forall|i: int|
                        old_layout.size <= i < new_layout.size implies #[trigger] self.byte_at(
                        slot.addr + i,
                    ) == 0u8 by {
                        assert(copy_len == old_layout.size);
                        assert(slot.addr + old_layout.size <= slot.addr + i < slot.end());
                    }
                }
                if slot.len > 0 {
                    assert(self.allocs@ == mid.allocs@.push(slot));
                    assert(self.allocs@[self.allocs@.len() - 1] == slot);
                }
            }
        } else {
            proof {
                if slot.len > 0 {
                    assert(self.allocs@[self.allocs@.len() - 1] == slot);
                }
            }
        }
        Ok(slot)
    }

    /// Resizes a block previously returned by `allocate`.  A shrink with no
    /// stronger alignment, or a grow of the most recent allocation with room
    /// left in its chunk, resolves in place at the same address without any
    /// backing call; anything else allocates a fresh block and copies.
    /// Either way the first `min(old_size, new_size)` bytes of content are
    /// preserved, and with `zeroed` the grown bytes read zero.  The old
    /// block, when abandoned, is never reused before a reset.
    pub fn resize<B: BackingAllocator>(
        &mut self,
        ptr: usize,
        old_layout: &Layout,
        new_layout: &Layout,
        zeroed: bool,
        backing: &mut B,
    ) -> (r: Result<Slot, AllocError>)
        requires
            old(self).wf(),
            old_layout.wf(),
            new_layout.wf(),
            ptr as int % old_layout.align as int == 0,
            old_layout.size > 0 ==> old(self).is_live(ptr, old_layout.size),
            old(backing).wf(),
            regions_positive(old(backing).allocated()),
            old(self).registered_in(old(backing).allocated()),
        ensures
            final(self).wf(),
            final(backing).wf(),
            regions_positive(final(backing).allocated()),
            final(self).registered_in(final(backing).allocated()),
            final(self).min_chunk_size == old(self).min_chunk_size,
            ChunkHeader::<T>::can_shrink(*old_layout, *new_layout) && old(self).chunks.len() > 0
                ==> r is Ok && *final(backing) == *old(backing) && r == Ok::<Slot, AllocError>(
                Slot { addr: ptr, len: new_layout.size },
            ),
            old(self).chunks.len() > 0 && old(self).head().can_grow_in_place(
                ptr,
                *old_layout,
                *new_layout,
            ) ==> r == Ok::<Slot, AllocError>(Slot { addr: ptr, len: new_layout.size })
                && *final(backing) == *old(backing),
            match r {
                Ok(slot) => {
                    &&& slot.len == new_layout.size
                    &&& slot.addr as int % new_layout.align as int == 0
                    &&& slot.end() <= usize::MAX
                    &&& (slot.len > 0 ==> final(self).is_live(slot.addr, slot.len))
                    &&& forall|i: int|
                        0 <= i < min_size(*old_layout, *new_layout) ==> #[trigger] final(self).byte_at(slot.addr + i) == old(self).byte_at(ptr + i)
                    &&& (zeroed ==> forall|i: int|
                        old_layout.size <= i < new_layout.size ==> #[trigger] final(self).byte_at(slot.addr + i) == 0u8)
                },
                Err(_) => {
                    &&& Self::state_eq(old(self), final(self))
                    &&& final(backing).allocated() == old(backing).allocated()
                },
            },
    {
        match self.resize_fast(ptr, old_layout, new_layout, zeroed) {
            Some(slot) => Ok(slot),
            None => self.resize_slow(ptr, old_layout, new_layout, zeroed, backing),
        }
    }

    /// After an in-place shrink the live entry for `(ptr, old_size)` stands
    /// for `(ptr, new_size)`; empty blocks are not tracked, so a shrink to
    /// zero leaves the history as it was.
    proof fn lemma_shrink_wf(
        pre: &Self,
        post: &Self,
        ptr: usize,
        old_size: usize,
        new_size: usize,
        k: int,
    )
        requires
            pre.wf(),
            post.chunks@ == pre.chunks@,
            0 < new_size <= old_size,
            0 <= k < pre.allocs@.len(),
            pre.allocs@[k] == (Slot { addr: ptr, len: old_size }),
            post.allocs@ == pre.allocs@.update(k, Slot { addr: ptr, len: new_size }),
        ensures
            post.wf(),
            post.is_live(ptr, new_size),
    {
            let shrunk = Slot { addr: ptr, len: new_size };
            assert forall|m: int| 0 <= m < post.allocs@.len() implies (
            #[trigger] post.allocs@[m]).len > 0 && exists|i: int|
                0 <= i < post.chunks.len() && slot_live_in(
                    post.allocs@[m],
                    #[trigger] post.chunks@[i],
                ) by {
                if m == k {
                    let i = choose|i: int|
                        0 <= i < pre.chunks.len() && slot_live_in(
                            pre.allocs@[k],
                            #[trigger] pre.chunks@[i],
                        );
                    assert(slot_live_in(shrunk, post.chunks@[i]));
                } else {
                    assert(post.allocs@[m] == pre.allocs@[m]);
                    let i = choose|i: int|
                        0 <= i < pre.chunks.len() && slot_live_in(
                            pre.allocs@[m],
                            #[trigger] pre.chunks@[i],
                        );
                    assert(slot_live_in(post.allocs@[m], post.chunks@[i]));
                }
            }
            assert forall|i: int, m: int, l: int|
                0 <= i < post.chunks.len() && 0 <= m < l < post.allocs@.len()
                    && in_chunk_range(#[trigger] post.allocs@[m], #[trigger] post.chunks@[i])
                    && in_chunk_range(#[trigger] post.allocs@[l], post.chunks@[i])
                implies post.allocs@[m].end() <= post.allocs@[l].addr by {
                if m == k {
                    assert(in_chunk_range(pre.allocs@[k], pre.chunks@[i]));
                    assert(in_chunk_range(pre.allocs@[l], pre.chunks@[i]));
                } else if l == k {
                    assert(in_chunk_range(pre.allocs@[m], pre.chunks@[i]));
                    assert(in_chunk_range(pre.allocs@[k], pre.chunks@[i]));
                } else {
                    assert(in_chunk_range(pre.allocs@[m], pre.chunks@[i]));
                    assert(in_chunk_range(pre.allocs@[l], pre.chunks@[i]));
                }
            }
            assert(post.allocs@[k] == shrunk);
    }
}

impl<T: CasPtr> Arena<T> {
    /// Disjointness law: between two resets, no two live allocations
    /// overlap — for any well-formed arena, any two distinct history entries
    /// cover disjoint byte ranges.
    pub proof fn lemma_allocs_disjoint(&self, k: int, l: int)
        requires
            self.wf(),
            0 <= k < self.allocs@.len(),
            0 <= l < self.allocs@.len(),
            k != l,
        ensures
            crate::layout::slots_disjoint(self.allocs@[k], self.allocs@[l]),
    {
        let a = self.allocs@[k];
        let b = self.allocs@[l];
        let i = choose|i: int|
            0 <= i < self.chunks.len() && slot_live_in(self.allocs@[k], #[trigger] self.chunks@[i]);
        let j = choose|j: int|
            0 <= j < self.chunks.len() && slot_live_in(self.allocs@[l], #[trigger] self.chunks@[j]);
        assert(in_chunk_range(a, self.chunks@[i]));
        assert(in_chunk_range(b, self.chunks@[j]));
        if i == j {
            if k < l {
                assert(a.end() <= b.addr);
            } else {
                assert(b.end() <= a.addr);
            }
        } else {
            assert(a.len > 0 && b.len > 0);
            assert(regions_disjoint(self.chunks@[i], self.chunks@[j]) || regions_disjoint(
                self.chunks@[j],
                self.chunks@[i],
            ));
        }
    }
}

/// The smaller of the two layouts' sizes.
pub open spec fn min_size(old_layout: Layout, new_layout: Layout) -> int {
    if old_layout.size < new_layout.size {
        old_layout.size as int
    } else {
        new_layout.size as int
    }
}

/// Single-owner arena: the cursor is a plain cell.
pub type ArenaLocal = Arena<crate::cursor::CursorCell>;

/// Shared arena: the cursor stands for an atomic word; chunk-chain growth is
/// serialized by the surrounding lock, modelled here by exclusive access.
pub type ArenaSync = Arena<crate::cursor::CursorAtomic>;

} // verus!
