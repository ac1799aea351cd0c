//! Arena ("blink") allocator family: amortized-O(1) bump allocation with bulk
//! deallocation by reset instead of per-object free.
//!
//! Memory is modelled as a flat address space of `usize` addresses.  Each chunk
//! owns its bytes as a `Vec<u8>`; an allocation is a [`Slot`]: an address and a
//! length.  All bump-pointer arithmetic, the chunk growth heuristic, the
//! best-effort LIFO deallocation, resize, reset and the deferred-destruction
//! list are verified against the contracts stated in each module.
//!
//! [`Slot`]: crate::layout::Slot

mod align;
mod api;
mod arena;
mod backing;
mod blink;
mod chunk;
mod cursor;
mod drop_list;
mod global_alloc;
mod laws;
mod layout;
mod local;
mod sync;

pub use align::{align_down, align_up, align_ptr_offset, is_aligned_to};
pub use api::BlinkAllocator;
pub use arena::{Arena, ArenaLocal, ArenaSync};
pub use backing::{BackingAllocator, Global};
pub use chunk::ChunkHeader;
pub use cursor::{CasPtr, CursorAtomic, CursorCell};
pub use blink::{drain_step, size_hint_and_one, Blink, Emplace, SendBlink};
pub use drop_list::{DropItem, DropList};
pub use layout::{layout_sum, AllocError, Layout, Slot};
pub use global_alloc::GlobalBlinkAlloc;
pub use laws::{lemma_full_reset_release, lemma_lifo_reuse, lemma_reset_reuse};
pub use local::BlinkAlloc;
pub use sync::{LocalBlinkAlloc, SyncBlinkAlloc};
