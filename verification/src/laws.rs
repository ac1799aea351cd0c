//! The allocator's laws, stated over the arena model and proved once for
//! every cursor variant.
//!
//! Alignment and resize content preservation are stated directly in the
//! `ensures` of `Arena::allocate` and `Arena::resize`; disjointness is
//! `Arena::lemma_allocs_disjoint`.  This module states the laws that relate
//! several operations: reuse after a LIFO deallocation, reuse of the kept
//! chunk after a reset, and full release after a reset that keeps nothing.

use vstd::prelude::*;

use crate::align::lemma_align_up_below;
use crate::arena::{
    in_chunk_range, keep_slot, lemma_prune_identity, lemma_prune_sub, prune, Arena,
};
use crate::cursor::CasPtr;
use crate::layout::{Layout, Slot};

verus! {

/// LIFO reuse: when `deallocate(ptr, size)` succeeds — `ptr` is the most
/// recent live allocation and ends exactly at the cursor — the history
/// loses exactly that block, and an immediate `allocate` of the same size
/// with an alignment `ptr` satisfies fits the head chunk and returns `ptr`
/// itself.  (Deallocating any other pointer leaves the arena unchanged:
/// that is the `ensures` of `Arena::dealloc`.)
pub proof fn lemma_lifo_reuse<T: CasPtr>(
    pre: &Arena<T>,
    post: &Arena<T>,
    ptr: usize,
    size: usize,
    layout: Layout,
)
    requires
        pre.wf(),
        pre.chunks.len() > 0,
        size > 0,
        pre.allocs@.len() > 0,
        pre.allocs@.last() == (Slot { addr: ptr, len: size }),
        pre.head().dealloc_hits(ptr, size),
        // `post` is the state `Arena::dealloc` ensures on success:
        Arena::same_chunks_shape(pre, post),
        post.head().cursor_addr() == ptr,
        post.allocs@ == prune(
            pre.allocs@,
            pre.head().base as int,
            pre.head().end as int,
            ptr as int,
        ),
        // the follow-up request: same size, alignment that `ptr` satisfies
        layout.wf(),
        layout.size == size,
        ptr as int % layout.align as int == 0,
        ptr + size + layout.align - 1 <= usize::MAX,
    ensures
        post.allocs@ == pre.allocs@.drop_last(),
        post.fast_path_fits(layout),
        post.head().alloc_addr(layout) == ptr,
{
    let hb = pre.head().base as int;
    let he = pre.head().end as int;
    let h = pre.head_idx();
    let last = Slot { addr: ptr, len: size };
    // every earlier entry survives the rewind ...
    assert forall|k: int| 0 <= k < pre.allocs@.drop_last().len() implies keep_slot(
        #[trigger] pre.allocs@.drop_last()[k],
        hb,
        he,
        ptr as int,
    ) by {
        let s = pre.allocs@[k];
        assert(pre.allocs@.drop_last()[k] == s);
        if hb <= s.addr && s.end() <= he {
            assert(in_chunk_range(s, pre.chunks@[h]));
            assert(in_chunk_range(last, pre.chunks@[h]));
            assert(pre.allocs@[pre.allocs@.len() - 1] == last);
            assert(s.end() <= last.addr);
        }
    }
    lemma_prune_identity(pre.allocs@.drop_last(), hb, he, ptr as int);
    // ... and the last one does not
    assert(!keep_slot(last, hb, he, ptr as int));
    assert(pre.allocs@[pre.allocs@.len() - 1] == last);
    assert(post.allocs@ =~= pre.allocs@.drop_last());
    // the rewound head serves the request at `ptr` again
    lemma_align_up_below(ptr as int, layout.align as int);
    assert(post.head().alloc_addr(layout) == ptr);
    assert(ptr + size == pre.head().cursor_addr());
    assert(post.head().end == pre.head().end);
}

/// Reset reuse: after a reset that kept the last chunk, any request that
/// fits the kept chunk's capacity — size plus worst-case alignment padding
/// — is served on the fast path, so no backing-allocator call is made
/// (that is the fast-path clause of `Arena::allocate`).
pub proof fn lemma_reset_reuse<T: CasPtr>(arena: &Arena<T>, layout: Layout)
    requires
        arena.wf(),
        arena.chunks.len() > 0,
        arena.head().cursor_addr() == arena.head().base,
        layout.wf(),
        layout.size + layout.align - 1 <= arena.head().spec_cap(),
    ensures
        arena.fast_path_fits(layout),
{
    let base = arena.head().base as int;
    let align = layout.align as int;
    crate::align::lemma_align_down(base + align - 1, align);
    assert(arena.head().alloc_addr(layout) <= base + align - 1);
    assert(arena.head().alloc_addr(layout) + layout.size <= arena.head().end);
}

/// Full reset release: a reset that keeps nothing leaves the arena with
/// zero chunks and removes every chunk region from the backing allocator
/// (the `ensures` of `Arena::reset`); when those regions were the only
/// outstanding ones, the backing allocator ends with none at all.
pub proof fn lemma_full_reset_release(allocated: Map<usize, usize>, bases: Set<usize>)
    requires
        forall|b: usize| allocated.contains_key(b) ==> bases.contains(b),
    ensures
        allocated.remove_keys(bases) == Map::<usize, usize>::empty(),
{
    assert(allocated.remove_keys(bases) =~= Map::<usize, usize>::empty());
}

} // verus!
