//! Request layouts, allocation results and the single error kind.

use vstd::prelude::*;
use crate::align::is_pow2;

verus! {

/// The single error kind: backing-allocator refusal or arithmetic overflow in
/// a size or alignment computation.
#[derive(Clone, Copy, Debug, PartialEq, Eq, Structural)]
pub struct AllocError;

/// A size/alignment pair describing an allocation request.
///
/// A valid layout has a power-of-two alignment and a size small enough that
/// padding the size by `align - 1` cannot overflow the address space.
#[derive(Clone, Copy, Debug)]
pub struct Layout {
    pub size: usize,
    pub align: usize,
}

impl Layout {
    /// Validity: power-of-two alignment, padded size fits the address space.
    pub open spec fn wf(&self) -> bool {
        &&& is_pow2(self.align as int)
        &&& self.size + self.align <= usize::MAX
    }

    pub open spec fn spec_size(&self) -> usize {
        self.size
    }

    pub open spec fn spec_align(&self) -> usize {
        self.align
    }

    /// Builds a layout, rejecting a zero or non-power-of-two alignment and a
    /// size too close to `usize::MAX` to be padded by `align - 1`.
    pub fn from_size_align(size: usize, align: usize) -> (r: Option<Layout>)
        ensures
            match r {
                Some(l) => l.wf() && l.spec_size() == size && l.spec_align() == align,
                None => !(Layout { size, align }).wf(),
            },
    {
        if crate::align::check_pow2(align) && size <= usize::MAX - align {
            Some(Layout { size, align })
        } else {
            None
        }
    }

    #[verifier::when_used_as_spec(spec_size)]
    pub fn size(&self) -> (r: usize)
        ensures
            r == self.spec_size(),
    {
        self.size
    }

    #[verifier::when_used_as_spec(spec_align)]
    pub fn align(&self) -> (r: usize)
        ensures
            r == self.spec_align(),
    {
        self.align
    }
}

/// A positive power of two is at least 1.
pub proof fn lemma_pow2_pos(a: int)
    requires
        is_pow2(a),
    ensures
        a >= 1,
{
}

/// The sum of a layout's size and its alignment mask `align - 1`.
/// A valid layout guarantees this cannot overflow.
pub fn layout_sum(layout: &Layout) -> (r: usize)
    requires
        layout.wf(),
    ensures
        r == layout.spec_size() + layout.spec_align() - 1,
{
    proof {
        lemma_pow2_pos(layout.spec_align() as int);
    }
    layout.size() + (layout.align() - 1)
}

/// A successful allocation: the address of its first byte and its length.
#[derive(Clone, Copy, Debug, PartialEq, Eq, Structural)]
pub struct Slot {
    pub addr: usize,
    pub len: usize,
}

impl Slot {
    /// One-past-the-end address.
    pub open spec fn end(&self) -> int {
        self.addr + self.len
    }
}

/// Two slots cover disjoint byte ranges.
pub open spec fn slots_disjoint(a: Slot, b: Slot) -> bool {
    a.end() <= b.addr || b.end() <= a.addr
}

} // verus!
