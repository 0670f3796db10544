//! Memory initialisation and the controller handle.
//!
//! `init` runs exactly once at boot: it sizes the kernel image from the ELF
//! sections, builds the area frame allocator around it, remaps the kernel,
//! maps the kernel heap window, and carves out the page range the stack
//! allocator will hand out.  The returned `MemoryController` is the single
//! owner of the active table, the frame allocator and the stack allocator;
//! all later memory mutation flows through it.

use vstd::prelude::*;

verus! {

use crate::PAGE_SIZE;
use crate::KERNEL_HEAP_OFFSET;
use crate::KERNEL_HEAP_SIZE;
use crate::active::ActivePageTable;
use crate::area_allocator::AreaFrameAllocator;
use crate::area_allocator::initial_avail;
use crate::entry::ElfSection;
use crate::entry::EntryFlags;
use crate::frame::FrameAllocator;
use crate::page::Page;
use crate::page::idx4;
use crate::page::page_canonical;
use crate::remap::BootInformation;
use crate::remap::boot_info_wf;
use crate::remap::in_sections;
use crate::remap::identity_covered;
use crate::remap::section_allocated;
use crate::remap::remap_frames;
use crate::remap::remap_the_kernel;
use crate::remap::temp_page_num;
use crate::remap::section_first;
use crate::remap::section_last;
use crate::remap::boot_first;
use crate::remap::boot_last;
use crate::remap::lemma_elf_flags_wf;
use crate::remap::VGA_BUFFER_FRAME;
use crate::entry::spec_elf_to_entry_flags;
use crate::entry::entry_encode;
use crate::entry::FLAG_PRESENT;
use crate::entry::lemma_encode_present;
use crate::walk::l1e;
use crate::walk::path_complete;
use crate::stack_allocator::Stack;
use crate::stack_allocator::StackAllocator;
use crate::walk::l1_slot;
use crate::walk::path_no_huge;
use crate::walk::spec_translate_page;
use crate::walk::mapped_fresh;
use crate::walk::mapped_with;
use crate::entry::FLAG_WRITABLE;

/// First page of the kernel heap window.
pub open spec fn heap_first_page() -> u64 {
    KERNEL_HEAP_OFFSET / PAGE_SIZE
}

/// Last page of the kernel heap window.
pub open spec fn heap_last_page() -> u64 {
    ((KERNEL_HEAP_OFFSET + KERNEL_HEAP_SIZE - 1) / (PAGE_SIZE as int)) as u64
}

/// The heap window and the stack-allocator range above it sit in the high
/// half, under level-4 slot 509.
pub proof fn lemma_heap_range_facts(n: u64)
    by (bit_vector)
    requires
        0xffff_fe80_0000_0000u64 / 4096 <= n <= 0xffff_fe80_0000_0000u64 / 4096 + 126,
    ensures
        page_canonical(n),
        idx4(n) == 509,
        n * 4096 <= u64::MAX,
        n >= 0x8_0000_0000,
{
}

/// The smallest start address of an allocated section at or after index `j`,
/// or the largest address if none is left.
pub open spec fn kernel_start_from(sections: Seq<ElfSection>, j: int) -> u64
    decreases sections.len() - j,
{
    if j < 0 || j >= sections.len() {
        0xffff_ffff_ffff_ffffu64
    } else {
        let rest = kernel_start_from(sections, j + 1);
        if section_allocated(sections[j]) && sections[j].addr < rest {
            sections[j].addr
        } else {
            rest
        }
    }
}

/// The largest end address of an allocated section at or after index `j`,
/// or zero if none is left.
pub open spec fn kernel_end_from(sections: Seq<ElfSection>, j: int) -> u64
    decreases sections.len() - j,
{
    if j < 0 || j >= sections.len() {
        0
    } else {
        let rest = kernel_end_from(sections, j + 1);
        if section_allocated(sections[j]) && sections[j].addr + sections[j].size > rest {
            ((sections[j].addr + sections[j].size) as u64)
        } else {
            rest
        }
    }
}

/// The single owner of the active table, the frame allocator and the stack
/// allocator.
pub struct MemoryController {
    /// The installed page tables.
    pub active_table: ActivePageTable,
    /// The source of physical frames.
    pub frame_allocator: AreaFrameAllocator,
    /// The dispenser of guarded kernel stacks.
    pub stack_allocator: StackAllocator,
}

impl MemoryController {
    /// Well-formedness: the active table is intact, the allocator draws only
    /// from frames that hold no tables, and the whole stack range is still
    /// unmapped, canonical, and outside the recursive window.
    pub open spec fn inv(self) -> bool {
        &&& self.active_table.inv()
        &&& self.stack_allocator.wf()
        &&& forall|n: u64|
            self.stack_allocator.cur() <= n <= self.stack_allocator.last() ==> idx4(n) != 511
                && l1_slot(
                self.active_table.mapper.mem@,
                self.active_table.mapper.cr3,
                n,
            ) == 0 && path_no_huge(
                self.active_table.mapper.mem@,
                self.active_table.mapper.cr3,
                n,
            )
        &&& self.frame_allocator.wf()
        &&& self.frame_allocator.avail().finite()
        &&& self.frame_allocator.avail().disjoint(self.active_table.mapper.mem@.dom())
        &&& forall|x: u64| self.frame_allocator.avail().contains(x) ==> x < 0x100_0000_0000
    }

    /// Hand out a stack of `size_in_pages` pages, preceded by one unmapped
    /// guard page, or `None` when the request is zero or the range is used
    /// up.
    pub fn alloc_stack(&mut self, size_in_pages: u64) -> (r: Option<Stack>)
        requires
            old(self).inv(),
            // frames are needed only when the request can succeed
            (1 <= size_in_pages && old(self).stack_allocator.cur() + size_in_pages <= old(
                self,
            ).stack_allocator.last()) ==> old(self).frame_allocator.avail().len() >= 4
                * size_in_pages,
        ensures
            final(self).inv(),
            final(self).active_table.mapper.cr3 == old(self).active_table.mapper.cr3,
            (r is Some) == (1 <= size_in_pages && old(self).stack_allocator.cur() + size_in_pages
                <= old(self).stack_allocator.last()),
            match r {
                Some(stack) => {
                    &&& stack.spec_bottom() == (old(self).stack_allocator.cur() + 1) * PAGE_SIZE
                    &&& stack.spec_top() == stack.spec_bottom() + size_in_pages * PAGE_SIZE
                    // the stack pages are mapped writable, each to a frame
                    // freshly drawn from the allocator ...
                    &&& forall|n: u64|
                        old(self).stack_allocator.cur() + 1 <= n <= old(
                            self,
                        ).stack_allocator.cur() + size_in_pages ==> #[trigger] mapped_fresh(
                            final(self).active_table.mapper.mem@,
                            final(self).active_table.mapper.cr3,
                            n,
                            old(self).frame_allocator.avail(),
                            FLAG_WRITABLE,
                        )
                    // ... and every other page — the guard page included —
                    // translates as before
                    &&& forall|q: u64|
                        page_canonical(q) && idx4(q) != 511 && !(old(self).stack_allocator.cur()
                            + 1 <= q <= old(self).stack_allocator.cur() + size_in_pages)
                            ==> spec_translate_page(
                            final(self).active_table.mapper.mem@,
                            final(self).active_table.mapper.cr3,
                            q,
                        ) == spec_translate_page(
                            old(self).active_table.mapper.mem@,
                            old(self).active_table.mapper.cr3,
                            q,
                        )
                },
                None => final(self).active_table.mapper.mem@ == old(
                    self,
                ).active_table.mapper.mem@,
            },
    {
        let MemoryController { active_table, frame_allocator, stack_allocator } = self;
        let r = stack_allocator.alloc_stack(active_table, frame_allocator, size_in_pages);
        r
    }

    /// Translate a virtual address through the active table.
    pub fn translate(&self, virtual_addr: u64) -> (r: Option<u64>)
        requires
            self.inv(),
            crate::page::addr_canonical(virtual_addr),
            idx4(virtual_addr / 4096) != 511,
        ensures
            r == crate::walk::spec_translate(
                self.active_table.mapper.mem@,
                self.active_table.mapper.cr3,
                virtual_addr,
            ),
    {
        self.active_table.mapper.translate(virtual_addr)
    }
}

/// Initialise the virtual-memory subsystem, exactly once: size the kernel
/// image, build the frame allocator around it and the boot information,
/// remap the kernel, map the heap window writable, and reserve the 101-page
/// range above the heap for the stack allocator.
pub fn init(active_table: ActivePageTable, boot_info: &BootInformation) -> (r: MemoryController)
    requires
        active_table.inv(),
        active_table.mapper.cr3 < 0x8_0000_0000,
        boot_info_wf(*boot_info),
        exists|j: int|
            0 <= j < boot_info.sections@.len() && section_allocated(#[trigger] boot_info.sections@[j]),
        in_sections(boot_info.sections@, active_table.mapper.cr3),
        l1_slot(active_table.mapper.mem@, active_table.mapper.cr3, temp_page_num()) == 0,
        path_no_huge(active_table.mapper.mem@, active_table.mapper.cr3, temp_page_num()),
        // the firmware memory areas are ordered, non-overlapping and sized
        forall|j: int|
            0 <= j < boot_info.memory_areas@.len() ==> (#[trigger] boot_info.memory_areas@[j]).length
                > 0 && boot_info.memory_areas@[j].base_addr + boot_info.memory_areas@[j].length
                <= 0x10_0000_0000_0000,
        forall|j: int, k: int|
            0 <= j < k < boot_info.memory_areas@.len() ==> crate::area_allocator::area_last(
                #[trigger] boot_info.memory_areas@[j],
            ) < crate::area_allocator::area_first(#[trigger] boot_info.memory_areas@[k]),
        // no table of the boot hierarchy lies in a frame the allocator may
        // hand out
        initial_avail(
            boot_info.memory_areas@,
            kernel_start_from(boot_info.sections@, 0),
            kernel_end_from(boot_info.sections@, 0),
            boot_info.start_address,
            boot_info.end_address,
        ).disjoint(active_table.mapper.mem@.dom()),
        // enough frames for the remap, the heap, and their tables
        initial_avail(
            boot_info.memory_areas@,
            kernel_start_from(boot_info.sections@, 0),
            kernel_end_from(boot_info.sections@, 0),
            boot_info.start_address,
            boot_info.end_address,
        ).len() >= 4 + 3 * remap_frames(*boot_info) + 4 * 25,
        // the kernel image bounds are proper addresses
        0 < kernel_start_from(boot_info.sections@, 0),
        kernel_start_from(boot_info.sections@, 0) < kernel_end_from(boot_info.sections@, 0),
        kernel_end_from(boot_info.sections@, 0) <= 0x10_0000_0000_0000,
    ensures
        r.inv(),
        // the guard page below the boot stack is not translatable
        spec_translate_page(
            r.active_table.mapper.mem@,
            r.active_table.mapper.cr3,
            active_table.mapper.cr3,
        ) is None,
        // the heap window is mapped writable
        forall|n: u64|
            heap_first_page() <= n <= heap_last_page() ==> #[trigger] mapped_with(
                r.active_table.mapper.mem@,
                r.active_table.mapper.cr3,
                n,
                FLAG_WRITABLE,
            ),
        // the identity mappings the remap made are still in place: the
        // allocated sections with their ELF permissions, all but the old
        // top-level frame ...
        forall|j: int, f: u64|
            #![trigger boot_info.sections@[j], spec_translate_page(r.active_table.mapper.mem@, r.active_table.mapper.cr3, f)]
            0 <= j < boot_info.sections@.len() && section_allocated(boot_info.sections@[j])
                && section_first(boot_info.sections@[j]) <= f <= section_last(
                boot_info.sections@[j],
            ) && f != active_table.mapper.cr3 ==> spec_translate_page(
                r.active_table.mapper.mem@,
                r.active_table.mapper.cr3,
                f,
            ) == Some(f) && l1e(r.active_table.mapper.mem@, r.active_table.mapper.cr3, f)
                == entry_encode(
                f,
                (spec_elf_to_entry_flags(boot_info.sections@[j].flags) | FLAG_PRESENT) as u64,
            ),
        // ... the VGA text buffer, writable ...
        spec_translate_page(
            r.active_table.mapper.mem@,
            r.active_table.mapper.cr3,
            VGA_BUFFER_FRAME,
        ) == Some(VGA_BUFFER_FRAME),
        l1e(r.active_table.mapper.mem@, r.active_table.mapper.cr3, VGA_BUFFER_FRAME)
            == entry_encode(VGA_BUFFER_FRAME, (FLAG_WRITABLE | FLAG_PRESENT) as u64),
        // ... and the boot information
        forall|f: u64|
            boot_first(*boot_info) <= f <= boot_last(*boot_info) ==> spec_translate_page(
                r.active_table.mapper.mem@,
                r.active_table.mapper.cr3,
                f,
            ) is Some,
        // the stack allocator owns the 101 pages above the heap
        r.stack_allocator.cur() == heap_last_page() + 1,
        r.stack_allocator.last() == heap_last_page() + 101,
        r.active_table.mapper.cr3 != active_table.mapper.cr3,
{
    let mut active_table = active_table;
    let ghost old_cr3 = active_table.mapper.cr3;
    // size the kernel image from its allocated ELF sections
    let mut kernel_start: u64 = 0xffff_ffff_ffff_ffff;
    let mut kernel_end: u64 = 0;
    let ghost sections = boot_info.sections@;
    let mut j: usize = 0;
    while j < boot_info.sections.len()
        invariant
            j <= sections.len(),
            sections == boot_info.sections@,
            boot_info_wf(*boot_info),
            (if kernel_start <= kernel_start_from(sections, j as int) {
                kernel_start
            } else {
                kernel_start_from(sections, j as int)
            }) == kernel_start_from(sections, 0),
            (if kernel_end >= kernel_end_from(sections, j as int) {
                kernel_end
            } else {
                kernel_end_from(sections, j as int)
            }) == kernel_end_from(sections, 0),
        decreases sections.len() - j,
    {
        let section = boot_info.sections[j];
        if section.is_allocated() {
            if section.start_address() < kernel_start {
                kernel_start = section.start_address();
            }
            let end = section.start_address() + (section.end_address() - section.start_address());
            if end > kernel_end {
                kernel_end = end;
            }
        }
        j = j + 1;
    }
    proof {
        assert(kernel_start == kernel_start_from(sections, 0));
        assert(kernel_end == kernel_end_from(sections, 0));
    }
    let mut frame_allocator = AreaFrameAllocator::new(
        kernel_start,
        kernel_end,
        boot_info.start_address,
        boot_info.end_address,
        clone_areas(&boot_info.memory_areas),
    );
    proof {
        frame_allocator.avail_finite();
        assert forall|x: u64| frame_allocator.avail().contains(x) implies x
            < 0x100_0000_0000 by {
            let areas = boot_info.memory_areas@;
            let jj = choose|jj: int|
                0 <= jj < areas.len() && crate::area_allocator::in_area(#[trigger] areas[jj], x);
            assert(x <= crate::area_allocator::area_last(areas[jj]));
        }
    }
    remap_the_kernel(&mut active_table, &mut frame_allocator, boot_info);
    let ghost m_remap = active_table.mapper.mem@;
    let ghost new_cr3 = active_table.mapper.cr3;
    proof {
        assert forall|n: u64| heap_first_page() <= n <= heap_last_page() + 101 implies !(
        identity_covered(*boot_info, n)) && page_canonical(n) && idx4(n) != 511 && l1_slot(
            m_remap,
            new_cr3,
            n,
        ) == 0 && path_no_huge(m_remap, new_cr3, n) by {
            lemma_heap_range_facts(n);
            assert(!identity_covered(*boot_info, n)) by {
                if in_sections(boot_info.sections@, n) {
                    let jj = choose|jj: int|
                        0 <= jj < boot_info.sections@.len() && section_allocated(
                            #[trigger] boot_info.sections@[jj],
                        ) && crate::remap::section_first(boot_info.sections@[jj]) <= n
                            <= crate::remap::section_last(boot_info.sections@[jj]);
                    assert(false);
                }
            }
        }
    }
    let heap_start_page = Page::containing_address(KERNEL_HEAP_OFFSET);
    let heap_end_page = Page::containing_address(KERNEL_HEAP_OFFSET + KERNEL_HEAP_SIZE - 1);
    proof {
        assert(heap_start_page.num() == heap_first_page());
        assert(heap_end_page.num() == heap_last_page());
        assert(heap_last_page() == heap_first_page() + 24);
    }
    let ghost avail_heap = frame_allocator.avail();
    active_table.mapper.map_range(
        heap_start_page,
        heap_end_page,
        EntryFlags::writable(),
        &mut frame_allocator,
    );
    let ghost m_heap = active_table.mapper.mem@;
    proof {
        // the heap pages are mapped writable, to some frame each
        assert forall|n: u64|
            heap_first_page() <= n <= heap_last_page() implies #[trigger] mapped_with(
            m_heap,
            new_cr3,
            n,
            FLAG_WRITABLE,
        ) by {
            assert(mapped_fresh(m_heap, new_cr3, n, avail_heap, FLAG_WRITABLE));
            let f = choose|f: u64|
                {
                    &&& #[trigger] avail_heap.contains(f)
                    &&& crate::walk::path_complete(m_heap, new_cr3, n)
                    &&& crate::walk::l1e(m_heap, new_cr3, n) == crate::entry::entry_encode(
                        f,
                        (FLAG_WRITABLE | crate::entry::FLAG_PRESENT) as u64,
                    )
                    &&& spec_translate_page(m_heap, new_cr3, n) == Some(f)
                };
            assert(crate::walk::l1e(m_heap, new_cr3, n) == crate::entry::entry_encode(
                f,
                (FLAG_WRITABLE | crate::entry::FLAG_PRESENT) as u64,
            ));
        }
        // above the heap, and at the old top-level page, nothing changed
        assert forall|n: u64|
            heap_last_page() + 1 <= n <= heap_last_page() + 101 implies l1_slot(
            m_heap,
            new_cr3,
            n,
        ) == 0 && path_no_huge(m_heap, new_cr3, n) && idx4(n) != 511 by {
            lemma_heap_range_facts(n);
        }
        assert(spec_translate_page(m_heap, new_cr3, old_cr3) is None) by {
            crate::page::lemma_low_page_idx4(old_cr3);
        }
        // the remap's identity mappings are in the low half, which the heap
        // mapping does not touch
        assert forall|j: int, f: u64|
            #![trigger boot_info.sections@[j], spec_translate_page(m_heap, new_cr3, f)]
            0 <= j < boot_info.sections@.len() && section_allocated(boot_info.sections@[j])
                && section_first(boot_info.sections@[j]) <= f <= section_last(
                boot_info.sections@[j],
            ) && f != old_cr3 implies spec_translate_page(m_heap, new_cr3, f) == Some(f) && l1e(
            m_heap,
            new_cr3,
            f,
        ) == entry_encode(
            f,
            (spec_elf_to_entry_flags(boot_info.sections@[j].flags) | FLAG_PRESENT) as u64,
        ) by {
            crate::page::lemma_low_page_idx4(f);
            lemma_elf_flags_wf(boot_info.sections@[j].flags);
            lemma_encode_present(f, spec_elf_to_entry_flags(boot_info.sections@[j].flags));
            assert(l1_slot(m_remap, new_cr3, f) == l1e(m_remap, new_cr3, f) && l1e(
                m_remap,
                new_cr3,
                f,
            ) != 0);
            assert(l1_slot(m_heap, new_cr3, f) == l1_slot(m_remap, new_cr3, f));
            assert(path_complete(m_heap, new_cr3, f));
        }
        assert(spec_translate_page(m_heap, new_cr3, VGA_BUFFER_FRAME) == Some(VGA_BUFFER_FRAME)
            && l1e(m_heap, new_cr3, VGA_BUFFER_FRAME) == entry_encode(
            VGA_BUFFER_FRAME,
            (FLAG_WRITABLE | FLAG_PRESENT) as u64,
        )) by {
            crate::page::lemma_low_page_idx4(VGA_BUFFER_FRAME);
            assert((FLAG_WRITABLE as u64) & crate::entry::ENTRY_FLAGS_MASK == FLAG_WRITABLE)
                by (bit_vector);
            lemma_encode_present(VGA_BUFFER_FRAME, FLAG_WRITABLE);
            assert(l1_slot(m_remap, new_cr3, VGA_BUFFER_FRAME) == l1e(
                m_remap,
                new_cr3,
                VGA_BUFFER_FRAME,
            ) && l1e(m_remap, new_cr3, VGA_BUFFER_FRAME) != 0);
            assert(l1_slot(m_heap, new_cr3, VGA_BUFFER_FRAME) == l1_slot(
                m_remap,
                new_cr3,
                VGA_BUFFER_FRAME,
            ));
            assert(path_complete(m_heap, new_cr3, VGA_BUFFER_FRAME));
        }
        assert forall|f: u64|
            boot_first(*boot_info) <= f <= boot_last(*boot_info) implies spec_translate_page(
            m_heap,
            new_cr3,
            f,
        ) is Some by {
            crate::page::lemma_low_page_idx4(f);
        }
    }
    let stack_alloc_start = heap_end_page.offset(1);
    let stack_alloc_end = heap_end_page.offset(101);
    proof {
        lemma_heap_range_facts(stack_alloc_start.num());
        lemma_heap_range_facts(stack_alloc_end.num());
        lemma_heap_range_facts(heap_last_page() as u64);
    }
    let stack_alloc_range = Page::range_inclusive(stack_alloc_start, stack_alloc_end);
    let stack_allocator = StackAllocator::new(stack_alloc_range);
    MemoryController { active_table, frame_allocator, stack_allocator }
}

/// Copy the firmware memory map for the allocator.
fn clone_areas(areas: &Vec<crate::area_allocator::MemoryArea>) -> (r: Vec<
    crate::area_allocator::MemoryArea,
>)
    ensures
        r@ == areas@,
{
    let mut r: Vec<crate::area_allocator::MemoryArea> = Vec::new();
    let mut i: usize = 0;
    while i < areas.len()
        invariant
            i <= areas@.len(),
            r@ == areas@.subrange(0, i as int),
        decreases areas@.len() - i,
    {
        r.push(areas[i]);
        i = i + 1;
        proof {
            assert(r@ =~= areas@.subrange(0, i as int));
        }
    }
    proof {
        assert(r@ =~= areas@);
    }
    r
}

} // verus!
