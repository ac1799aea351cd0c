//! One contiguous memory block obtained from a backing allocator.
//!
//! A chunk covers the address range `[region_base, end)`.  The first
//! `HEADER_SIZE` bytes stand for the header of the backing allocation; the
//! usable memory is `[base, end)` with `base == region_base + HEADER_SIZE`,
//! and its bytes are owned by the chunk as a `Vec<u8>` (`data[i]` is the byte
//! at address `base + i`).  The cursor moves monotonically from `base`
//! towards `end`, except when a reset or a successful best-effort
//! deallocation rewinds it.

use vstd::prelude::*;

use crate::align::{align_down, align_up_spec, lemma_align_down};
use crate::cursor::CasPtr;
use crate::layout::{layout_sum, Layout, Slot};

verus! {

/// Bytes reserved at the start of every backing region for the chunk header.
pub const HEADER_SIZE: usize = 32;

/// Alignment of every backing region, and hence of every chunk base.
pub const CHUNK_ALIGN: usize = 8;

/// Creates a zero-filled byte buffer of length `n`.
pub fn zeroed_vec(n: usize) -> (r: Vec<u8>)
    ensures
        r.len() == n,
        forall|i: int| 0 <= i < n ==> r@[i] == 0u8,
{
    let mut v: Vec<u8> = Vec::new();
    let mut k: usize = 0;
    while k < n
        invariant
            k <= n,
            v.len() == k,
            forall|i: int| 0 <= i < k ==> v@[i] == 0u8,
        decreases n - k,
    {
        v.push(0u8);
        k = k + 1;
    }
    v
}

/// Overwrites `count` bytes of `v` starting at `start` with zeroes.
pub fn zero_range(v: &mut Vec<u8>, start: usize, count: usize)
    requires
        start + count <= old(v).len(),
    ensures
        final(v).len() == old(v).len(),
        forall|i: int|
            0 <= i < old(v).len() ==> final(v)@[i] == (if start <= i < start + count {
                0u8
            } else {
                old(v)@[i]
            }),
{
    let mut k: usize = 0;
    while k < count
        invariant
            k <= count,
            start + count <= v.len(),
            v.len() == old(v).len(),
            forall|i: int|
                0 <= i < v.len() ==> v@[i] == (if start <= i < start + k {
                    0u8
                } else {
                    old(v)@[i]
                }),
        decreases count - k,
    {
        v[start + k] = 0u8;
        k = k + 1;
    }
}

/// The header of one chunk, with its owned bytes.  The cursor type is the
/// [`CasPtr`] implementation chosen by the arena variant.
pub struct ChunkHeader<T> {
    pub cursor: T,
    pub base: usize,
    pub end: usize,
    pub cumulative_size: usize,
    pub data: Vec<u8>,
}

impl<T: CasPtr> ChunkHeader<T> {
    /// Chunk invariant: the cursor stays between base and end, the byte
    /// buffer covers exactly `[base, end)`, the base leaves room for the
    /// header below it and is aligned for the header.
    pub open spec fn wf(&self) -> bool {
        &&& HEADER_SIZE <= self.base
        &&& self.base <= self.cursor.addr()
        &&& self.cursor.addr() <= self.end
        &&& self.data.len() == self.end - self.base
        &&& self.base as int % (CHUNK_ALIGN as int) == 0
    }

    /// First address of the backing region (start of the header).
    pub open spec fn region_base(&self) -> int {
        self.base - HEADER_SIZE
    }

    /// Size of the backing region.
    pub open spec fn region_size(&self) -> int {
        self.end - self.region_base()
    }

    /// Usable capacity.
    pub open spec fn spec_cap(&self) -> int {
        self.end - self.base
    }

    pub open spec fn cursor_addr(&self) -> usize {
        self.cursor.addr()
    }

    /// The byte at address `addr` (meaningful for `base <= addr < end`).
    pub open spec fn byte_at(&self, addr: int) -> u8 {
        self.data@[addr - self.base]
    }

    /// Geometry (everything but cursor and bytes) is unchanged.
    pub open spec fn same_shape(pre: &Self, post: &Self) -> bool {
        &&& post.base == pre.base
        &&& post.end == pre.end
        &&& post.cumulative_size == pre.cumulative_size
        &&& post.data.len() == pre.data.len()
    }

    /// Usable capacity of this chunk.
    pub fn cap(&self) -> (r: usize)
        requires
            self.wf(),
        ensures
            r == self.spec_cap(),
    {
        self.end - self.base
    }

    /// Builds the header for a fresh backing region `[region_base,
    /// region_base + size)`, its memory zero-filled, its cursor at the base.
    pub fn init_chunk(region_base: usize, size: usize, cumulative_size: usize) -> (r: Self)
        requires
            region_base as int % (CHUNK_ALIGN as int) == 0,
            HEADER_SIZE <= size,
            region_base + size <= usize::MAX,
        ensures
            r.wf(),
            r.base == region_base + HEADER_SIZE,
            r.end == region_base + size,
            r.cursor_addr() == r.base,
            r.cumulative_size == cumulative_size,
            r.region_base() == region_base,
            r.region_size() == size,
            forall|i: int| 0 <= i < r.data.len() ==> r.data@[i] == 0u8,
    {
        let base = region_base + HEADER_SIZE;
        let end = region_base + size;
        let data = zeroed_vec(end - base);
        proof {
            assert(base as int % (CHUNK_ALIGN as int) == 0) by {
                vstd::arithmetic::div_mod::lemma_mod_add_multiples_vanish(
                    region_base as int,
                    CHUNK_ALIGN as int,
                );
                assert(HEADER_SIZE as int == 4 * CHUNK_ALIGN as int);
                vstd::arithmetic::div_mod::lemma_mod_multiples_vanish(
                    4,
                    region_base as int,
                    CHUNK_ALIGN as int,
                );
            }
        }
        ChunkHeader { cursor: T::new(base), base, end, cumulative_size, data }
    }

    /// The request fits below `end` after aligning the cursor up.
    pub open spec fn alloc_fits(&self, layout: Layout) -> bool {
        &&& self.cursor_addr() + layout.size + layout.align - 1 <= usize::MAX
        &&& align_up_spec(self.cursor_addr() as int, layout.align as int) + layout.size
            <= self.end
    }

    /// The address a fitting request is served at.
    pub open spec fn alloc_addr(&self, layout: Layout) -> int {
        align_up_spec(self.cursor_addr() as int, layout.align as int)
    }

    /// One bump allocation: aligns the cursor up for the request, and on
    /// success advances the cursor to the end of the returned slot.  Fails
    /// exactly when the padded request overflows the address space or the
    /// slot would cross `end`; the chunk is then untouched.
    pub fn allocate(&mut self, layout: &Layout, zeroed: bool) -> (r: Option<Slot>)
        requires
            old(self).wf(),
            layout.wf(),
        ensures
            final(self).wf(),
            Self::same_shape(old(self), final(self)),
            r is Some <==> old(self).alloc_fits(*layout),
            match r {
                Some(slot) => {
                    &&& slot.addr == old(self).alloc_addr(*layout)
                    &&& slot.len == layout.size
                    &&& slot.addr as int % layout.align as int == 0
                    &&& old(self).cursor_addr() <= slot.addr
                    &&& slot.addr - old(self).cursor_addr() < layout.align
                    &&& slot.end() == final(self).cursor_addr()
                    &&& old(self).base <= slot.addr
                    &&& slot.end() <= old(self).end
                    &&& forall|i: int|
                        0 <= i < old(self).data.len() ==> final(self).data@[i] == (
                        if zeroed && slot.addr - old(self).base <= i < slot.end()
                            - old(self).base {
                            0u8
                        } else {
                            old(self).data@[i]
                        })
                },
                None => *final(self) == *old(self),
            },
    {
        let cursor = self.cursor.load();
        let ls = layout_sum(layout);
        if cursor > usize::MAX - ls {
            return None;
        }
        let unaligned = cursor + ls;
        let aligned = align_down(unaligned - layout.size(), layout.align());
        proof {
            lemma_align_down((unaligned - layout.size()) as int, layout.align as int);
            assert(aligned >= cursor);
        }
        let next = aligned + layout.size();
        if next > self.end {
            proof {
                assert(!old(self).alloc_fits(*layout));
            }
            return None;
        }
        let exchanged = self.cursor.compare_exchange_weak(cursor, next);
        proof {
            assert(exchanged is Ok);
        }
        if zeroed {
            let start = aligned - self.base;
            zero_range(&mut self.data, start, layout.size());
        }
        Some(Slot { addr: aligned, len: layout.size() })
    }

    /// A shrink, or a grow with no stronger alignment, can keep the address.
    pub open spec fn can_shrink(old_layout: Layout, new_layout: Layout) -> bool {
        &&& new_layout.align <= old_layout.align
        &&& new_layout.size <= old_layout.size
    }

    /// An in-place grow is possible exactly when the block is the most
    /// recent allocation of this chunk and the extra bytes fit below `end`.
    pub open spec fn can_grow_in_place(
        &self,
        ptr: usize,
        old_layout: Layout,
        new_layout: Layout,
    ) -> bool {
        &&& new_layout.align <= old_layout.align
        &&& new_layout.size > old_layout.size
        &&& self.base <= ptr
        &&& ptr + old_layout.size == self.cursor_addr()
        &&& ptr + new_layout.size <= self.end
    }

    /// Optimistic in-place resize: a shrink succeeds trivially; a grow
    /// succeeds only for the most recent allocation with room below `end`
    /// (the cursor then advances past the grown block).  Any other case
    /// returns `None` and leaves the chunk untouched; the caller falls back
    /// to allocate-and-copy.
    pub fn resize_in_place(
        &mut self,
        ptr: usize,
        old_layout: &Layout,
        new_layout: &Layout,
        zeroed: bool,
    ) -> (r: Option<Slot>)
        requires
            old(self).wf(),
            old_layout.wf(),
            new_layout.wf(),
        ensures
            final(self).wf(),
            Self::same_shape(old(self), final(self)),
            if Self::can_shrink(*old_layout, *new_layout) {
                r == Some(Slot { addr: ptr, len: new_layout.size })
                    && *final(self) == *old(self)
            } else if old(self).can_grow_in_place(ptr, *old_layout, *new_layout) {
                &&& r == Some(Slot { addr: ptr, len: new_layout.size })
                &&& final(self).cursor_addr() == ptr + new_layout.size
                &&& forall|i: int|
                    0 <= i < old(self).data.len() ==> final(self).data@[i] == (
                    if zeroed && ptr + old_layout.size - old(self).base <= i < ptr
                        + new_layout.size - old(self).base {
                        0u8
                    } else {
                        old(self).data@[i]
                    })
            } else {
                r is None && *final(self) == *old(self)
            },
    {
        if new_layout.align() <= old_layout.align() {
            if new_layout.size() <= old_layout.size() {
                return Some(Slot { addr: ptr, len: new_layout.size() });
            }
            let cursor = self.cursor.load();
            if self.base <= ptr && ptr <= usize::MAX - old_layout.size() && ptr
                + old_layout.size() == cursor {
                if ptr <= usize::MAX - new_layout.size() && ptr + new_layout.size()
                    <= self.end {
                    let next = ptr + new_layout.size();
                    let exchanged = self.cursor.compare_exchange(cursor, next);
                    proof {
                        assert(exchanged is Ok);
                    }
                    if zeroed {
                        let start = ptr + old_layout.size() - self.base;
                        zero_range(
                            &mut self.data,
                            start,
                            new_layout.size() - old_layout.size(),
                        );
                    }
                    return Some(Slot { addr: ptr, len: new_layout.size() });
                }
            }
        }
        None
    }

    /// The best-effort deallocation succeeds: `ptr` lies in this chunk and
    /// `ptr + size` is exactly the cursor.
    pub open spec fn dealloc_hits(&self, ptr: usize, size: usize) -> bool {
        &&& self.base <= ptr
        &&& ptr + size == self.cursor_addr()
    }

    /// Best-effort deallocation: one compare-and-exchange of the cursor from
    /// `ptr + size` back to `ptr`.  Rewinds exactly when `ptr` is the most
    /// recent allocation of this chunk; any other pointer is a no-op.
    pub fn dealloc(&mut self, ptr: usize, size: usize) -> (r: bool)
        requires
            old(self).wf(),
        ensures
            final(self).wf(),
            Self::same_shape(old(self), final(self)),
            r == old(self).dealloc_hits(ptr, size),
            if old(self).dealloc_hits(ptr, size) {
                final(self).cursor_addr() == ptr && final(self).data == old(self).data
            } else {
                *final(self) == *old(self)
            },
    {
        if self.base <= ptr && ptr <= usize::MAX - size {
            let cursor = self.cursor.load();
            if ptr + size == cursor {
                let exchanged = self.cursor.compare_exchange(cursor, ptr);
                proof {
                    assert(exchanged is Ok);
                }
                return true;
            }
        }
        false
    }

    /// Reads the byte at offset `offset` from the base.
    pub fn read_at(&self, offset: usize) -> (r: u8)
        requires
            offset < self.data.len(),
        ensures
            r == self.data@[offset as int],
    {
        self.data[offset]
    }

    /// Overwrites the bytes at offsets `offset..offset + bytes.len()`.
    pub fn write_range(&mut self, offset: usize, bytes: &Vec<u8>)
        requires
            old(self).wf(),
            offset + bytes.len() <= old(self).data.len(),
        ensures
            final(self).wf(),
            final(self).base == old(self).base,
            final(self).end == old(self).end,
            final(self).cumulative_size == old(self).cumulative_size,
            final(self).cursor_addr() == old(self).cursor_addr(),
            final(self).data.len() == old(self).data.len(),
            forall|j: int|
                0 <= j < old(self).data.len() ==> final(self).data@[j] == (
                if offset <= j < offset + bytes.len() {
                    bytes@[j - offset]
                } else {
                    old(self).data@[j]
                }),
    {
        let mut k: usize = 0;
        let count = bytes.len();
        while k < count
            invariant
                k <= count,
                offset + count <= self.data.len(),
                count == bytes.len(),
                self.base == old(self).base,
                self.end == old(self).end,
                self.cumulative_size == old(self).cumulative_size,
                self.cursor_addr() == old(self).cursor_addr(),
                self.data.len() == old(self).data.len(),
                forall|j: int|
                    0 <= j < self.data.len() ==> self.data@[j] == (
                    if offset <= j < offset + k {
                        bytes@[j - offset]
                    } else {
                        old(self).data@[j]
                    }),
            decreases count - k,
        {
            self.data[offset + k] = bytes[k];
            k = k + 1;
        }
    }

    /// Rewinds the cursor to the base and clears the cumulative-size
    /// heuristic; the bytes are kept as they are.
    pub fn reset(&mut self)
        requires
            old(self).wf(),
        ensures
            final(self).wf(),
            final(self).base == old(self).base,
            final(self).end == old(self).end,
            final(self).data == old(self).data,
            final(self).cursor_addr() == old(self).base,
            final(self).cumulative_size == 0,
    {
        let base = self.base;
        self.cursor.set(base);
        self.cumulative_size = 0;
    }
}

} // verus!
