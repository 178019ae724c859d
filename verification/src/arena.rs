//! The global heap arena.
//!
//! The arena starts `Empty`, is initialized exactly once with the mapped
//! heap window, and from then on serves allocation requests from that
//! window. It never returns memory outside `[base, base + capacity)` and
//! never hands out two overlapping live allocations. Blocks are carved
//! off the low end of the remaining window; freed blocks are retired
//! rather than recycled, which this boot-time subsystem can afford
//! because nothing it serves is ever torn down.

use vstd::prelude::*;

verus! {

/// Failure of an allocation request.
#[derive(Clone, Copy, PartialEq, Eq, Structural, Debug)]
pub enum AllocError {
    /// The arena is not initialized yet, or cannot fit the request.
    OutOfMemory,
}

/// Rounds `a` up to the next multiple of `align`.
pub open spec fn align_up(a: int, align: int) -> int {
    if a % align == 0 {
        a
    } else {
        a + align - (a % align)
    }
}

/// Two byte ranges, given as (start, length), do not overlap.
pub open spec fn ranges_disjoint(x: (u64, u64), y: (u64, u64)) -> bool {
    x.0 + x.1 <= y.0 || y.0 + y.1 <= x.0
}

/// The process-wide dynamic-allocation state.
pub struct HeapArena {
    ready: bool,
    base: u64,
    capacity: u64,
    next: u64,
    live: Ghost<Set<(u64, u64)>>,
}

impl HeapArena {
    /// Whether the one-way `Empty` to `Ready` transition has happened.
    pub closed spec fn is_ready(self) -> bool {
        self.ready
    }

    /// First byte of the managed window.
    pub closed spec fn spec_base(self) -> u64 {
        self.base
    }

    /// Size of the managed window in bytes.
    pub closed spec fn spec_capacity(self) -> u64 {
        self.capacity
    }

    /// First byte of the window not yet handed out.
    pub closed spec fn spec_free_start(self) -> u64 {
        self.next
    }

    /// The live allocations, each as (address, length).
    pub closed spec fn live_set(self) -> Set<(u64, u64)> {
        self.live@
    }

    /// Internal invariant: the carve-off point stays inside the window,
    /// live blocks lie below it inside the window, and live blocks are
    /// pairwise disjoint.
    pub closed spec fn wf(self) -> bool {
        &&& self.ready ==> {
            &&& self.base <= self.next
            &&& self.next as int <= self.base as int + self.capacity as int
            &&& self.base as int + self.capacity as int <= u64::MAX as int
            &&& forall|b: (u64, u64)|
                self.live@.contains(b) ==> self.base <= b.0 && (#[trigger] b.0) as int + b.1 as int
                    <= self.next as int
            &&& forall|x: (u64, u64), y: (u64, u64)|
                self.live@.contains(x) && self.live@.contains(y) && x != y ==> ranges_disjoint(
                    x,
                    y,
                )
        }
        &&& !self.ready ==> self.live@ == Set::<(u64, u64)>::empty()
    }

    /// A fresh, still-empty arena that rejects every request.
    pub fn empty() -> (a: HeapArena)
        ensures
            a.wf(),
            !a.is_ready(),
    {
        HeapArena { ready: false, base: 0, capacity: 0, next: 0, live: Ghost(Set::empty()) }
    }

    /// The one-way transition to `Ready`: adopts `[base, base + size)`
    /// as the managed window. Must be called exactly once, after the
    /// window has been mapped; calling it on a `Ready` arena is refused.
    pub fn init(&mut self, base: u64, size: u64)
        requires
            !old(self).is_ready(),
            old(self).wf(),
            base as int + size as int <= u64::MAX as int,
        ensures
            final(self).wf(),
            final(self).is_ready(),
            final(self).spec_base() == base,
            final(self).spec_capacity() == size,
            final(self).spec_free_start() == base,
            final(self).live_set() == Set::<(u64, u64)>::empty(),
    {
        self.ready = true;
        self.base = base;
        self.capacity = size;
        self.next = base;
    }

    /// Reports whether the arena is `Ready`.
    pub fn is_initialized(&self) -> (r: bool)
        ensures
            r == self.is_ready(),
    {
        self.ready
    }

    /// First byte of the managed window.
    pub fn window_base(&self) -> (r: u64)
        ensures
            r == self.spec_base(),
    {
        self.base
    }

    /// Size of the managed window in bytes.
    pub fn window_size(&self) -> (r: u64)
        ensures
            r == self.spec_capacity(),
    {
        self.capacity
    }

    /// Serves an allocation of `size` bytes at alignment `align`.
    /// Succeeds exactly when the arena is `Ready` and the aligned block
    /// still fits in the unconsumed part of the window; the block then
    /// lies inside the window and overlaps no live allocation. An
    /// `Empty` arena, or one that cannot fit the request, reports
    /// `OutOfMemory`.
    pub fn allocate(&mut self, size: u64, align: u64) -> (r: Result<u64, AllocError>)
        requires
            old(self).wf(),
            1 <= align,
        ensures
            final(self).wf(),
            final(self).is_ready() == old(self).is_ready(),
            final(self).spec_base() == old(self).spec_base(),
            final(self).spec_capacity() == old(self).spec_capacity(),
            ({
                let p = align_up(old(self).spec_free_start() as int, align as int);
                if old(self).is_ready() && p + size <= old(self).spec_base()
                    + old(self).spec_capacity() {
                    &&& r == Ok::<u64, AllocError>(p as u64)
                    &&& final(self).spec_free_start() == p + size
                    &&& final(self).live_set() == old(self).live_set().insert((p as u64, size))
                    &&& old(self).spec_base() <= p
                    &&& p % align as int == 0
                    &&& forall|b: (u64, u64)|
                        old(self).live_set().contains(b) ==> ranges_disjoint(
                            (p as u64, size),
                            b,
                        )
                } else {
                    r == Err::<u64, AllocError>(AllocError::OutOfMemory) && *final(self) == *old(
                        self,
                    )
                }
            }),
    {
        if !self.ready {
            return Err(AllocError::OutOfMemory);
        }
        let rem = self.next % align;
        let pad = if rem == 0 {
            0
        } else {
            align - rem
        };
        let cap_end = self.base + self.capacity;
        let avail = cap_end - self.next;
        if pad <= avail && size <= avail - pad {
            let p = self.next + pad;
            self.next = p + size;
            proof {
                let ghost blk = (p, size);
                let ghost start = old(self).spec_free_start();
                assert(p as int == align_up(start as int, align as int));
                assert(p % align == 0) by (nonlinear_arith)
                    requires
                        align >= 1,
                        rem == start % align,
                        pad == (if rem == 0 {
                            0int
                        } else {
                            align - rem
                        }),
                        p == start + pad,
                ;
                self.live@ = self.live@.insert(blk);
            }
            Ok(p)
        } else {
            Err(AllocError::OutOfMemory)
        }
    }

    /// Retires the live allocation `(ptr, size)`. The bytes are not
    /// recycled: nothing handed out during or after boot is ever needed
    /// back, so the arena only forgets the block.
    pub fn deallocate(&mut self, ptr: u64, size: u64)
        requires
            old(self).wf(),
            old(self).is_ready(),
            old(self).live_set().contains((ptr, size)),
        ensures
            final(self).wf(),
            final(self).is_ready(),
            final(self).spec_base() == old(self).spec_base(),
            final(self).spec_capacity() == old(self).spec_capacity(),
            final(self).spec_free_start() == old(self).spec_free_start(),
            final(self).live_set() == old(self).live_set().remove((ptr, size)),
    {
        proof {
            self.live@ = self.live@.remove((ptr, size));
        }
    }
}

} // verus!
