//! The firmware memory map and the boot frame allocator.
//!
//! The allocator flattens the usable regions of the memory map into one
//! ascending sequence of 4096-byte-aligned frame addresses and hands the
//! frames out one at a time, never reusing one.

use vstd::prelude::*;
use vstd::arithmetic::div_mod::lemma_fundamental_div_mod;

verus! {

/// Size in bytes of one physical frame and of one virtual page.
pub const FRAME_SIZE: u64 = 4096;

/// Exclusive upper bound on physical addresses: 2^52, the widest
/// physical address a page-table entry can carry.
pub const MAX_PHYS_ADDR: u64 = 0x0010_0000_0000_0000;

/// Classification of a firmware-reported memory region.
#[derive(Clone, Copy, PartialEq, Eq, Structural, Debug)]
pub enum RegionKind {
    /// Free physical memory the kernel may take frames from.
    Usable,
    /// Memory the firmware, devices or existing structures occupy.
    Reserved,
}

/// One region of the firmware-supplied physical memory map.
#[derive(Clone, Copy, PartialEq, Eq, Structural, Debug)]
pub struct MemoryRegion {
    /// First byte of the region.
    pub start: u64,
    /// First byte past the region.
    pub end: u64,
    /// What the region holds.
    pub kind: RegionKind,
}

/// Rounds an address up to the next frame boundary.
pub open spec fn align_up_4k(a: int) -> int {
    if a % 4096 == 0 {
        a
    } else {
        (a / 4096) * 4096 + 4096
    }
}

proof fn lemma_align_up_4k(a: int)
    requires
        0 <= a,
    ensures
        a <= align_up_4k(a) <= a + 4095,
        align_up_4k(a) % 4096 == 0,
{
    lemma_fundamental_div_mod(a, 4096);
    if a % 4096 == 0 {
    } else {
        let q = a / 4096;
        assert((q * 4096 + 4096) % 4096 == 0) by (nonlinear_arith);
    }
}

impl MemoryRegion {
    /// A region is well formed when its bounds are ordered and lie below
    /// the largest physical address the hardware can name.
    pub open spec fn wf(self) -> bool {
        self.start <= self.end <= MAX_PHYS_ADDR
    }

    /// Address of the first whole frame inside the region.
    pub open spec fn first_frame(self) -> int {
        align_up_4k(self.start as int)
    }

    /// How many whole frames fit in `[start, end)`.
    pub open spec fn frame_count(self) -> int {
        if self.first_frame() + 4096 <= self.end as int {
            (self.end as int - self.first_frame()) / 4096
        } else {
            0
        }
    }

    /// The ascending frame addresses fully contained in the region.
    pub open spec fn frames(self) -> Seq<u64> {
        Seq::new(self.frame_count() as nat, |i: int| (self.first_frame() + 4096 * i) as u64)
    }
}

/// The frames a single region contributes to the allocator's stream.
pub open spec fn region_contribution(r: MemoryRegion) -> Seq<u64> {
    if r.kind == RegionKind::Usable {
        r.frames()
    } else {
        Seq::empty()
    }
}

/// All candidate frames of a region sequence: the usable regions'
/// frames, concatenated in region order.
pub open spec fn usable_frames(s: Seq<MemoryRegion>) -> Seq<u64>
    decreases s.len(),
{
    if s.len() == 0 {
        Seq::empty()
    } else {
        region_contribution(s[0]) + usable_frames(s.skip(1))
    }
}

/// The firmware-supplied physical memory map, in firmware-reported order.
pub struct MemoryMap {
    /// The reported regions.
    pub regions: Vec<MemoryRegion>,
}

impl MemoryMap {
    /// Every region is well formed.
    pub open spec fn wf(self) -> bool {
        forall|i: int| 0 <= i < self.regions@.len() ==> self.regions@[i].wf()
    }

    /// Usable regions appear in ascending, non-overlapping address order.
    pub open spec fn usable_ascending(self) -> bool {
        forall|a: int, b: int|
            0 <= a < b < self.regions@.len() && self.regions@[a].kind == RegionKind::Usable
                && self.regions@[b].kind == RegionKind::Usable ==> self.regions@[a].end
                <= self.regions@[b].start
    }

    /// The global ascending candidate frame sequence.
    pub open spec fn frames(self) -> Seq<u64> {
        usable_frames(self.regions@)
    }

    /// Copies the map, region by region.
    pub fn duplicate(&self) -> (r: MemoryMap)
        ensures
            r.regions@ == self.regions@,
    {
        let mut regions: Vec<MemoryRegion> = Vec::new();
        let mut i: usize = 0;
        while i < self.regions.len()
            invariant
                i <= self.regions@.len(),
                regions@ == self.regions@.take(i as int),
            decreases self.regions@.len() - i,
        {
            regions.push(self.regions[i]);
            assert(regions@ =~= self.regions@.take(i as int + 1));
            i = i + 1;
        }
        assert(regions@ =~= self.regions@);
        MemoryMap { regions }
    }
}

/// Computes `align_up_4k` on machine integers.
fn align_up_4k_exec(a: u64) -> (r: u64)
    requires
        a <= MAX_PHYS_ADDR,
    ensures
        r as int == align_up_4k(a as int),
{
    proof {
        lemma_align_up_4k(a as int);
    }
    if a % 4096 == 0 {
        a
    } else {
        a / 4096 * 4096 + 4096
    }
}

/// Computes a region's whole-frame count on machine integers.
fn frame_count_exec(r: &MemoryRegion) -> (c: u64)
    requires
        r.wf(),
    ensures
        c as int == r.frame_count(),
{
    proof {
        lemma_align_up_4k(r.start as int);
    }
    let first = align_up_4k_exec(r.start);
    if first + 4096 <= r.end {
        (r.end - first) / 4096
    } else {
        0
    }
}

/// Frames of a well-formed region stay within it, aligned, and the
/// region's frame span fits between `first_frame` and `end`.
proof fn lemma_region_frames(r: MemoryRegion)
    requires
        r.wf(),
    ensures
        forall|i: int|
            0 <= i < r.frames().len() ==> {
                &&& r.frames()[i] as int == r.first_frame() + 4096 * i
                &&& r.start <= r.frames()[i]
                &&& r.frames()[i] + 4096 <= r.end
                &&& r.frames()[i] % 4096 == 0
            },
{
    lemma_align_up_4k(r.start as int);
    let first = r.first_frame();
    let cnt = r.frame_count();
    if r.frames().len() > 0 {
        lemma_fundamental_div_mod(r.end as int - first, 4096);
        assert(4096 * cnt <= r.end as int - first);
        assert forall|i: int| 0 <= i < cnt implies {
            &&& r.frames()[i] as int == first + 4096 * i
            &&& r.start <= r.frames()[i]
            &&& r.frames()[i] + 4096 <= r.end
            &&& r.frames()[i] % 4096 == 0
        } by {
            assert(4096 * i + 4096 == 4096 * (i + 1));
            assert(4096 * (i + 1) <= 4096 * cnt);
            assert(first + 4096 * i + 4096 <= r.end as int);
            assert((first + 4096 * i) % 4096 == 0) by (nonlinear_arith)
                requires
                    first % 4096 == 0,
                    0 <= i,
            ;
        }
    }
}

/// Peels one region off the front of the candidate sequence.
proof fn lemma_usable_frames_step(s: Seq<MemoryRegion>, j: int)
    requires
        0 <= j < s.len(),
    ensures
        usable_frames(s.skip(j)) == region_contribution(s[j]) + usable_frames(s.skip(j + 1)),
{
    assert(s.skip(j)[0] == s[j]);
    assert(s.skip(j).skip(1) =~= s.skip(j + 1));
}

/// Whether `f` is a whole frame inside some usable region of `s`.
pub open spec fn frame_in_usable_region(s: Seq<MemoryRegion>, f: u64) -> bool {
    exists|j: int|
        0 <= j < s.len() && (#[trigger] s[j]).kind == RegionKind::Usable && s[j].start <= f && f
            + FRAME_SIZE <= s[j].end
}

proof fn lemma_usable_frames_within(s: Seq<MemoryRegion>, i: int)
    requires
        forall|k: int| 0 <= k < s.len() ==> (#[trigger] s[k]).wf(),
        0 <= i < usable_frames(s).len(),
    ensures
        frame_in_usable_region(s, usable_frames(s)[i]),
        usable_frames(s)[i] % FRAME_SIZE == 0,
    decreases s.len(),
{
    let head = region_contribution(s[0]);
    lemma_region_frames(s[0]);
    if i < head.len() {
        assert(s[0].kind == RegionKind::Usable);
        assert(s[0].start <= usable_frames(s)[i] && usable_frames(s)[i] + FRAME_SIZE
            <= s[0].end);
    } else {
        let t = s.skip(1);
        assert(forall|k: int| 0 <= k < t.len() ==> (#[trigger] t[k]).wf());
        lemma_usable_frames_within(t, i - head.len());
        let f = usable_frames(t)[i - head.len()];
        assert(usable_frames(s)[i] == f);
        let j = choose|j: int|
            0 <= j < t.len() && (#[trigger] t[j]).kind == RegionKind::Usable && t[j].start <= f
                && f + FRAME_SIZE <= t[j].end;
        assert(s[j + 1] == t[j]);
    }
}

/// Every frame the allocator can hand out lies, whole and aligned,
/// inside a region of the memory map that is marked usable.
pub proof fn lemma_allocated_frame_usable(m: MemoryMap, i: int)
    requires
        m.wf(),
        0 <= i < m.frames().len(),
    ensures
        frame_in_usable_region(m.regions@, m.frames()[i]),
        m.frames()[i] % FRAME_SIZE == 0,
        m.frames()[i] + FRAME_SIZE <= MAX_PHYS_ADDR,
{
    lemma_usable_frames_within(m.regions@, i);
    let s = m.regions@;
    let f = m.frames()[i];
    let j = choose|j: int|
        0 <= j < s.len() && (#[trigger] s[j]).kind == RegionKind::Usable && s[j].start <= f && f
            + FRAME_SIZE <= s[j].end;
    assert(s[j].wf());
}

/// When the usable regions come in ascending, non-overlapping order,
/// the candidate frames are strictly ascending, so the addresses a
/// single allocator returns across successive successful calls are
/// pairwise distinct and increasing.
pub proof fn lemma_allocated_frames_ascending(m: MemoryMap, i1: int, i2: int)
    requires
        m.wf(),
        m.usable_ascending(),
        0 <= i1 < i2 < m.frames().len(),
    ensures
        m.frames()[i1] < m.frames()[i2],
{
    lemma_usable_frames_increasing(m.regions@, i1, i2);
}

proof fn lemma_usable_frames_increasing(s: Seq<MemoryRegion>, i1: int, i2: int)
    requires
        forall|k: int| 0 <= k < s.len() ==> (#[trigger] s[k]).wf(),
        forall|a: int, b: int|
            0 <= a < b < s.len() && (#[trigger] s[a]).kind == RegionKind::Usable && (#[trigger] s[b]).kind
                == RegionKind::Usable ==> s[a].end <= s[b].start,
        0 <= i1 < i2 < usable_frames(s).len(),
    ensures
        usable_frames(s)[i1] < usable_frames(s)[i2],
    decreases s.len(),
{
    let head = region_contribution(s[0]);
    let t = s.skip(1);
    lemma_region_frames(s[0]);
    assert(forall|k: int| 0 <= k < t.len() ==> (#[trigger] t[k]).wf());
    if i2 < head.len() {
        assert(head[i1] as int == s[0].first_frame() + 4096 * i1);
        assert(head[i2] as int == s[0].first_frame() + 4096 * i2);
        assert(4096 * i1 < 4096 * i2);
    } else if i1 < head.len() {
        assert(s[0].kind == RegionKind::Usable);
        assert(usable_frames(s)[i1] + FRAME_SIZE <= s[0].end);
        let f2 = usable_frames(t)[i2 - head.len()];
        assert(usable_frames(s)[i2] == f2);
        lemma_usable_frames_within(t, i2 - head.len());
        let j = choose|j: int|
            0 <= j < t.len() && (#[trigger] t[j]).kind == RegionKind::Usable && t[j].start <= f2
                && f2 + FRAME_SIZE <= t[j].end;
        assert(s[j + 1] == t[j]);
        assert(s[0].end <= s[j + 1].start);
    } else {
        assert(forall|a: int, b: int|
            0 <= a < b < t.len() && (#[trigger] t[a]).kind == RegionKind::Usable && (#[trigger] t[b]).kind
                == RegionKind::Usable ==> t[a].end <= t[b].start) by {
            assert(forall|a: int| 0 <= a < t.len() ==> t[a] == s[a + 1]);
        }
        lemma_usable_frames_increasing(t, i1 - head.len(), i2 - head.len());
    }
}

/// Hands out the candidate frames of a memory map one at a time, in
/// ascending order, never reusing one. The cursor counts every call,
/// successful or not, so a failed call permanently skips an index; the
/// firmware map itself never changes.
pub struct FrameAllocator {
    map: MemoryMap,
    issued: u64,
}

impl FrameAllocator {
    /// The memory map the allocator draws from.
    pub closed spec fn map_spec(self) -> MemoryMap {
        self.map
    }

    /// How many `allocate_frame` calls have been made so far.
    pub closed spec fn issued_spec(self) -> u64 {
        self.issued
    }

    /// Starts a fresh allocator over `map` with its cursor at zero.
    pub fn new(map: MemoryMap) -> (a: FrameAllocator)
        ensures
            a.map_spec() == map,
            a.issued_spec() == 0,
    {
        FrameAllocator { map, issued: 0 }
    }

    /// Exposes the cursor, so callers can observe that failed calls
    /// advance it too.
    pub fn frames_issued(&self) -> (n: u64)
        ensures
            n == self.issued_spec(),
    {
        self.issued
    }

    /// Returns the frame at the cursor's index in the global candidate
    /// sequence, or `None` once the cursor has run past its end. The
    /// cursor advances by one either way.
    pub fn allocate_frame(&mut self) -> (r: Option<u64>)
        requires
            old(self).map_spec().wf(),
            old(self).issued_spec() < u64::MAX,
        ensures
            final(self).map_spec() == old(self).map_spec(),
            final(self).issued_spec() == old(self).issued_spec() + 1,
            r == (if (old(self).issued_spec() as int) < old(self).map_spec().frames().len() {
                Some(old(self).map_spec().frames()[old(self).issued_spec() as int])
            } else {
                None::<u64>
            }),
    {
        let n = self.issued;
        self.issued = self.issued + 1;
        let ghost s = self.map.regions@;
        let ghost all = usable_frames(s);
        let mut j: usize = 0;
        let mut rem: u64 = n;
        proof {
            assert(s.skip(0) =~= s);
        }
        while j < self.map.regions.len()
            invariant
                self.map == old(self).map,
                self.issued == n + 1,
                n == old(self).issued_spec(),
                n < u64::MAX,
                self.map.regions@ == s,
                self.map_spec().wf(),
                all == usable_frames(s),
                j <= s.len(),
                rem <= n,
                n - rem <= all.len(),
                usable_frames(s.skip(j as int)) == all.skip(n - rem),
            decreases s.len() - j,
        {
            let r = self.map.regions[j];
            proof {
                lemma_usable_frames_step(s, j as int);
                lemma_region_frames(r);
            }
            if r.kind == RegionKind::Usable {
                let cnt = frame_count_exec(&r);
                if rem < cnt {
                    proof {
                        lemma_align_up_4k(r.start as int);
                        let head = region_contribution(r);
                        let tail = usable_frames(s.skip(j as int + 1));
                        assert(head.len() == cnt);
                        assert(all.skip(n - rem) == head + tail);
                        assert(all.skip(n - rem).len() == all.len() - (n - rem));
                        assert(rem < all.skip(n - rem).len());
                        assert(n < all.len());
                        assert(all.skip(n - rem)[rem as int] == head[rem as int]);
                        assert(all.skip(n - rem)[rem as int] == all[n - rem + rem as int]);
                        assert(all[n as int] == r.frames()[rem as int]);
                        assert(r.frames()[rem as int] as int == r.first_frame() + 4096 * rem);
                        assert(r.frames()[rem as int] + 4096 <= r.end);
                    }
                    let first = align_up_4k_exec(r.start);
                    return Some(first + 4096 * rem);
                }
                proof {
                    let head = region_contribution(r);
                    let tail = usable_frames(s.skip(j as int + 1));
                    assert(head.len() == cnt);
                    assert(all.skip(n - rem).len() == all.len() - (n - rem));
                    assert(n - rem + cnt <= all.len());
                    assert((head + tail).skip(cnt as int) =~= tail);
                    assert(all.skip(n - rem).skip(cnt as int) =~= all.skip(n - rem + cnt));
                }
                rem = rem - cnt;
            }
            j = j + 1;
        }
        proof {
            assert(s.skip(s.len() as int) =~= Seq::<MemoryRegion>::empty());
            assert(all.skip(n - rem).len() == 0);
        }
        None
    }
}

} // verus!
