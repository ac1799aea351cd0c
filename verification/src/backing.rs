//! The backing allocator: the collaborator that hands out whole chunks.
//!
//! The arena consumes the contract at whole-chunk granularity: a region is an
//! address range `[base, base + size)`, aligned as requested and disjoint
//! from every outstanding region, and is returned whole.  [`Global`] is the
//! default implementation, handing out regions from a monotonically growing
//! address space; callers may implement the trait themselves, as the tests
//! do, to observe or throttle chunk requests.

use vstd::prelude::*;

use crate::align::align_up;
use crate::layout::AllocError;

verus! {

/// Every outstanding region has at least one byte.
pub open spec fn regions_positive(m: Map<usize, usize>) -> bool {
    forall|b: usize| m.contains_key(b) ==> #[trigger] m[b] >= 1
}

/// What the arena asks of its backing allocator.
pub trait BackingAllocator: Sized {
    /// Outstanding regions: base address to region size.
    spec fn allocated(&self) -> Map<usize, usize>;

    /// Implementation invariant.
    spec fn wf(&self) -> bool;

    /// Requests a region of `size` bytes aligned to `align`.  A granted
    /// region is aligned, fits the address space, does not overlap any
    /// outstanding region, and becomes outstanding itself.
    fn allocate_region(&mut self, size: usize, align: usize) -> (r: Result<usize, AllocError>)
        requires
            old(self).wf(),
            regions_positive(old(self).allocated()),
            1 <= align,
            1 <= size,
        ensures
            final(self).wf(),
            regions_positive(final(self).allocated()),
            match r {
                Ok(base) => {
                    &&& base as int % align as int == 0
                    &&& base + size <= usize::MAX
                    &&& forall|b: usize|
                        old(self).allocated().contains_key(b) ==> b
                            + #[trigger] old(self).allocated()[b] <= base || base + size <= b
                    &&& final(self).allocated() == old(self).allocated().insert(base, size)
                },
                Err(_) => final(self).allocated() == old(self).allocated(),
            },
    ;

    /// Returns an outstanding region, which ceases to be outstanding.
    fn deallocate_region(&mut self, base: usize, size: usize)
        requires
            old(self).wf(),
            regions_positive(old(self).allocated()),
            old(self).allocated().contains_key(base),
            old(self).allocated()[base] == size,
        ensures
            final(self).wf(),
            regions_positive(final(self).allocated()),
            final(self).allocated() == old(self).allocated().remove(base),
    ;
}

/// The default backing allocator: a monotone bump over the whole address
/// space.  It never reuses addresses, so every granted region is disjoint
/// from everything granted before, outstanding or not.  It keeps counters a
/// test can observe: how many regions were requested and how many are
/// outstanding.
pub struct Global {
    /// First address never handed out.
    pub next_addr: usize,
    /// Outstanding regions.
    pub regions: Ghost<Map<usize, usize>>,
    /// Number of regions granted and not yet returned.
    pub outstanding: usize,
    /// Total number of regions granted.
    pub calls: u64,
}

impl Global {
    pub open spec fn spec_wf(&self) -> bool {
        forall|b: usize|
            self.regions@.contains_key(b) ==> b + #[trigger] self.regions@[b] <= self.next_addr
    }

    pub fn new() -> (r: Global)
        ensures
            r.wf(),
            r.allocated() == Map::<usize, usize>::empty(),
            r.next_addr == 0,
            r.outstanding == 0,
            r.calls == 0,
    {
        Global { next_addr: 0, regions: Ghost(Map::empty()), outstanding: 0, calls: 0 }
    }

    /// Number of regions granted and not yet returned.
    pub fn outstanding_regions(&self) -> (r: usize)
        ensures
            r == self.outstanding,
    {
        self.outstanding
    }

    /// Total number of regions ever requested from this allocator.
    pub fn call_count(&self) -> (r: u64)
        ensures
            r == self.calls,
    {
        self.calls
    }
}

impl BackingAllocator for Global {
    open spec fn allocated(&self) -> Map<usize, usize> {
        self.regions@
    }

    open spec fn wf(&self) -> bool {
        self.spec_wf()
    }

    fn allocate_region(&mut self, size: usize, align: usize) -> (r: Result<usize, AllocError>) {
        match align_up(self.next_addr, align) {
            None => Err(AllocError),
            Some(base) => {
                if size > usize::MAX - base {
                    return Err(AllocError);
                }
                self.next_addr = base + size;
                proof {
                    self.regions@ = self.regions@.insert(base, size);
                }
                if self.outstanding < usize::MAX {
                    self.outstanding = self.outstanding + 1;
                }
                if self.calls < u64::MAX {
                    self.calls = self.calls + 1;
                }
                Ok(base)
            },
        }
    }

    fn deallocate_region(&mut self, base: usize, size: usize) {
        proof {
            self.regions@ = self.regions@.remove(base);
        }
        if self.outstanding > 0 {
            self.outstanding = self.outstanding - 1;
        }
    }
}

} // verus!
