//! The area frame allocator.
//!
//! It hands out 4 KiB frames from the usable memory areas the firmware
//! reports, in increasing order, skipping the two reserved windows: the
//! kernel image and the boot-information structure.  A cursor remembers the
//! next frame number to try; allocation returns the smallest usable frame at
//! or above the cursor and moves the cursor past it, so no frame is ever
//! handed out twice.

use vstd::prelude::*;

verus! {

use crate::PAGE_SIZE;
use crate::frame::Frame;
use crate::frame::FrameAllocator;

/// One usable region of physical memory, as the firmware reports it.
#[derive(Debug, Clone, Copy, PartialEq, Eq, Structural)]
pub struct MemoryArea {
    /// Physical address of the first byte.
    pub base_addr: u64,
    /// Length of the region in bytes.
    pub length: u64,
}

/// First frame of an area.
pub open spec fn area_first(a: MemoryArea) -> u64 {
    a.base_addr / PAGE_SIZE
}

/// Last frame of an area (whose length must not be zero).
pub open spec fn area_last(a: MemoryArea) -> u64 {
    ((a.base_addr + a.length - 1) / (PAGE_SIZE as int)) as u64
}

/// Whether frame `f` overlaps the area.
pub open spec fn in_area(a: MemoryArea, f: u64) -> bool {
    area_first(a) <= f <= area_last(a)
}

/// Allocator over the firmware memory areas, avoiding the kernel image and
/// the boot-information window.
#[derive(Debug)]
pub struct AreaFrameAllocator {
    next_free_frame: u64,
    areas: Vec<MemoryArea>,
    kernel_start: u64,
    kernel_end: u64,
    multiboot_start: u64,
    multiboot_end: u64,
}

impl AreaFrameAllocator {
    /// The next frame number the allocator would consider.
    pub closed spec fn cursor(self) -> u64 {
        self.next_free_frame
    }

    /// The memory areas frames are drawn from.
    pub closed spec fn spec_areas(self) -> Seq<MemoryArea> {
        self.areas@
    }

    /// Whether frame `f` falls in the kernel image or the boot-information
    /// window: such frames are never handed out.
    pub closed spec fn reserved(self, f: u64) -> bool {
        (self.kernel_start <= f <= self.kernel_end) || (self.multiboot_start <= f
            <= self.multiboot_end)
    }

    /// Whether frame `f` may ever be handed out: inside some usable area and
    /// outside both reserved windows.
    pub open spec fn candidate(self, f: u64) -> bool {
        &&& exists|j: int| 0 <= j < self.spec_areas().len() && in_area(#[trigger] self.spec_areas()[j], f)
        &&& !self.reserved(f)
    }

    /// What one allocation does: `Some(f)` returns the smallest candidate at
    /// or above the cursor and moves the cursor just past it; `None` reports
    /// that no candidate at or above the cursor is left, changing nothing.
    pub open spec fn alloc_post(
        pre: AreaFrameAllocator,
        post: AreaFrameAllocator,
        r: Option<u64>,
    ) -> bool {
        match r {
            Some(f) => {
                &&& pre.candidate(f)
                &&& f >= pre.cursor()
                &&& forall|x: u64| pre.cursor() <= x < f ==> !pre.candidate(x)
                &&& post.cursor() == f + 1
                &&& post.spec_areas() == pre.spec_areas()
                &&& forall|x: u64| post.reserved(x) == pre.reserved(x)
            },
            None => {
                &&& post == pre
                &&& forall|x: u64| x >= pre.cursor() ==> !pre.candidate(x)
            },
        }
    }

    /// An allocator drawing from the given areas, which must be ordered and
    /// non-overlapping at frame granularity, with the kernel image at
    /// `[kernel_start, kernel_end)` and the boot information at
    /// `[multiboot_start, multiboot_end)` withheld.
    pub fn new(
        kernel_start: u64,
        kernel_end: u64,
        multiboot_start: u64,
        multiboot_end: u64,
        areas: Vec<MemoryArea>,
    ) -> (r: AreaFrameAllocator)
        requires
            0 < kernel_start < kernel_end <= 0x10_0000_0000_0000,
            0 < multiboot_start < multiboot_end <= 0x10_0000_0000_0000,
            forall|j: int|
                0 <= j < areas@.len() ==> (#[trigger] areas@[j]).length > 0 && areas@[j].base_addr
                    + areas@[j].length <= 0x10_0000_0000_0000,
            forall|j: int, k: int|
                0 <= j < k < areas@.len() ==> area_last(#[trigger] areas@[j]) < area_first(
                    #[trigger] areas@[k],
                ),
        ensures
            r.wf(),
            r.cursor() == 0,
            r.spec_areas() == areas@,
            forall|f: u64|
                r.reserved(f) == (kernel_start / PAGE_SIZE <= f <= (kernel_end - 1) as u64
                    / PAGE_SIZE || multiboot_start / PAGE_SIZE <= f <= (multiboot_end - 1) as u64
                    / PAGE_SIZE),
            r.avail() == initial_avail(
                areas@,
                kernel_start,
                kernel_end,
                multiboot_start,
                multiboot_end,
            ),
    {
        proof {
            let r0 = AreaFrameAllocator {
                next_free_frame: 0u64,
                areas: areas,
                kernel_start: kernel_start / PAGE_SIZE,
                kernel_end: ((kernel_end - 1) as u64) / PAGE_SIZE,
                multiboot_start: multiboot_start / PAGE_SIZE,
                multiboot_end: ((multiboot_end - 1) as u64) / PAGE_SIZE,
            };
            let ia = initial_avail(areas@, kernel_start, kernel_end, multiboot_start,
                multiboot_end);
            assert forall|f: u64| #[trigger] r0.avail().contains(f) implies ia.contains(f) by {
                let j = choose|j: int|
                    0 <= j < r0.spec_areas().len() && in_area(#[trigger] r0.spec_areas()[j], f);
                assert(in_area(areas@[j], f));
            }
            assert forall|f: u64| #[trigger] ia.contains(f) implies r0.avail().contains(f) by {
                let j = choose|j: int| 0 <= j < areas@.len() && in_area(#[trigger] areas@[j], f);
                assert(in_area(r0.spec_areas()[j], f));
            }
            assert(r0.avail() =~= ia);
        }
        AreaFrameAllocator {
            next_free_frame: 0,
            areas,
            kernel_start: kernel_start / PAGE_SIZE,
            kernel_end: (kernel_end - 1) / PAGE_SIZE,
            multiboot_start: multiboot_start / PAGE_SIZE,
            multiboot_end: (multiboot_end - 1) / PAGE_SIZE,
        }
    }
}

/// Whether frame `f` falls in one of the two reserved address windows.
pub open spec fn frame_in_ranges(ks: u64, ke: u64, ms: u64, me: u64, f: u64) -> bool {
    ||| ks / PAGE_SIZE <= f <= ((ke - 1) as u64) / PAGE_SIZE
    ||| ms / PAGE_SIZE <= f <= ((me - 1) as u64) / PAGE_SIZE
}

/// The frames a fresh area allocator over these areas and reserved windows
/// may ever hand out.
pub open spec fn initial_avail(
    areas: Seq<MemoryArea>,
    ks: u64,
    ke: u64,
    ms: u64,
    me: u64,
) -> Set<u64> {
    Set::new(
        |f: u64|
            (exists|j: int| 0 <= j < areas.len() && in_area(#[trigger] areas[j], f))
                && !frame_in_ranges(ks, ke, ms, me, f),
    )
}

/// Every set of frame numbers below a bound is finite.
pub proof fn lemma_frames_below_finite(bound: u64)
    ensures
        Set::new(|f: u64| f < bound).finite(),
{
    let ints = vstd::set_lib::set_int_range(0, bound as int);
    vstd::set_lib::lemma_int_range(0, bound as int);
    let g = |i: int| i as u64;
    ints.lemma_map_finite(g);
    let mapped = ints.map(g);
    let below = Set::new(|f: u64| f < bound);
    assert forall|f: u64| below.contains(f) implies #[trigger] mapped.contains(f) by {
        assert(ints.contains(f as int));
        assert(g(f as int) == f);
    }
    vstd::set_lib::lemma_set_subset_finite(mapped, below);
}

impl FrameAllocator for AreaFrameAllocator {
    /// The candidates at or above the cursor.
    closed spec fn avail(&self) -> Set<u64> {
        Set::new(|f: u64| f >= self.cursor() && self.candidate(f))
    }

    closed spec fn wf(&self) -> bool {
        &&& forall|j: int|
            0 <= j < self.areas@.len() ==> (#[trigger] self.areas@[j]).length > 0
                && self.areas@[j].base_addr + self.areas@[j].length <= 0x10_0000_0000_0000
        &&& forall|j: int, k: int|
            0 <= j < k < self.areas@.len() ==> area_last(#[trigger] self.areas@[j]) < area_first(
                #[trigger] self.areas@[k],
            )
        &&& self.kernel_end < 0x10_0000_0000_0000
        &&& self.multiboot_end < 0x10_0000_0000_0000
    }

    /// Frames are never taken back: the allocator leaks them, deliberately.
    closed spec fn can_dealloc(&self, n: u64) -> bool {
        false
    }

    proof fn avail_finite(&self) {
        lemma_frames_below_finite(0x100_0000_0000);
        assert forall|f: u64| #[trigger] self.avail().contains(f) implies Set::new(
            |f: u64| f < 0x100_0000_0000,
        ).contains(f) by {
            let j = choose|j: int|
                0 <= j < self.spec_areas().len() && in_area(#[trigger] self.spec_areas()[j], f);
            assert(f <= area_last(self.spec_areas()[j]));
        }
        vstd::set_lib::lemma_set_subset_finite(
            Set::new(|f: u64| f < 0x100_0000_0000),
            self.avail(),
        );
    }

    /// Hand out the smallest usable frame at or above the cursor: walk the
    /// areas in order, clamp the cursor into each, and hop over the two
    /// reserved windows.
    fn allocate_frame(&mut self) -> (r: Option<Frame>)
        ensures
            AreaFrameAllocator::alloc_post(
                *old(self),
                *final(self),
                match r {
                    Some(f) => Some(f.num()),
                    None => None,
                },
            ),
    {
        let ghost pre = *old(self);
        let mut j: usize = 0;
        loop
            invariant
                pre == *old(self),
                *self == pre,
                self.wf(),
                j <= self.areas.len(),
                forall|x: u64, jj: int|
                    0 <= jj < j && x >= self.cursor() && #[trigger] in_area(
                        self.spec_areas()[jj],
                        x,
                    ) ==> self.reserved(x),
            ensures
                *self == pre,
                j == self.areas.len(),
                forall|x: u64| x >= self.cursor() ==> !self.candidate(x),
            decreases self.areas.len() - j,
        {
            if j >= self.areas.len() {
                proof {
                    assert forall|x: u64| x >= self.cursor() implies !self.candidate(x) by {
                        if self.candidate(x) {
                            let jj = choose|jj: int|
                                0 <= jj < self.spec_areas().len() && in_area(
                                    #[trigger] self.spec_areas()[jj],
                                    x,
                                );
                            assert(self.reserved(x));
                        }
                    }
                }
                break;
            }
            let area = self.areas[j];
            let first = area.base_addr / PAGE_SIZE;
            let last = (area.base_addr + area.length - 1) / PAGE_SIZE;
            let start_lo = if self.next_free_frame > first {
                self.next_free_frame
            } else {
                first
            };
            let mut lo = start_lo;
            // hop over the reserved windows; every frame skipped is reserved
            while (self.kernel_start <= lo && lo <= self.kernel_end) || (self.multiboot_start
                <= lo && lo <= self.multiboot_end)
                invariant
                    *self == pre,
                    self.wf(),
                    start_lo <= lo,
                    forall|x: u64| start_lo <= x < lo ==> self.reserved(x),
                decreases self.kernel_end + self.multiboot_end + 2 - lo,
            {
                if self.kernel_start <= lo && lo <= self.kernel_end {
                    lo = self.kernel_end + 1;
                } else {
                    lo = self.multiboot_end + 1;
                }
            }
            if lo <= last {
                // the smallest unreserved frame of this area at or above the
                // cursor; nothing below it is a candidate
                self.next_free_frame = lo + 1;
                proof {
                    let f = lo;
                    assert(self.spec_areas() == pre.spec_areas());
                    assert(in_area(pre.spec_areas()[j as int], f));
                    assert(!pre.reserved(f));
                    assert(pre.candidate(f));
                    assert forall|x: u64| pre.cursor() <= x < f implies !pre.candidate(x) by {
                        if pre.candidate(x) {
                            let jj = choose|jj: int|
                                0 <= jj < pre.spec_areas().len() && in_area(
                                    #[trigger] pre.spec_areas()[jj],
                                    x,
                                );
                            if jj < j {
                                assert(pre.reserved(x));
                            } else if jj == j {
                                assert(start_lo <= x < lo ==> pre.reserved(x));
                                assert(x >= area_first(pre.spec_areas()[j as int]));
                            } else {
                                assert(area_last(pre.spec_areas()[j as int]) < area_first(
                                    pre.spec_areas()[jj],
                                ));
                            }
                        }
                    }
                    assert(pre.avail().contains(f));
                    assert(self.avail() =~= pre.avail().remove(f));
                    assert(forall|x: u64| self.reserved(x) == pre.reserved(x));
                    assert(AreaFrameAllocator::alloc_post(pre, *self, Some(f)));
                    assert(f <= area_last(pre.spec_areas()[j as int]));
                    assert(f * PAGE_SIZE <= u64::MAX) by (nonlinear_arith)
                        requires
                            f < 0x10_0000_0000_0000,
                    ;
                }
                return Some(Frame::from_number(lo));
            }
            proof {
                assert forall|x: u64, jj: int|
                    0 <= jj < j + 1 && x >= self.cursor() && #[trigger] in_area(
                        self.spec_areas()[jj],
                        x,
                    ) implies self.reserved(x) by {
                    if jj == j {
                        assert(x >= area_first(self.spec_areas()[jj]));
                        assert(x <= area_last(self.spec_areas()[jj]));
                        assert(start_lo <= x < lo);
                    }
                }
            }
            j = j + 1;
        }
        proof {
            if !self.avail().is_empty() {
                let x = self.avail().choose();
                assert(self.avail().contains(x));
                assert(false);
            }
            assert(self.avail() =~= Set::<u64>::empty());
        }
        None
    }

    /// Deallocation is not implemented: the area allocator leaks frames, and
    /// no input satisfies `can_dealloc`.
    fn deallocate_frame(&mut self, _frame: Frame) {
    }
}

/// Frames come out strictly increasing: of two consecutive successful
/// allocations, the second frame is strictly above the first, and neither
/// falls in the kernel image or the boot-information window.
pub proof fn lemma_frames_monotonic(
    a0: AreaFrameAllocator,
    a1: AreaFrameAllocator,
    a2: AreaFrameAllocator,
    f1: u64,
    f2: u64,
)
    requires
        AreaFrameAllocator::alloc_post(a0, a1, Some(f1)),
        AreaFrameAllocator::alloc_post(a1, a2, Some(f2)),
    ensures
        f2 > f1,
        !a0.reserved(f1),
        !a0.reserved(f2),
{
    assert(f2 >= a1.cursor() == f1 + 1);
    assert(!a1.reserved(f2));
}

} // verus!
