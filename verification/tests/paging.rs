//! Tests of the mapper, the inactive-table protocol, the kernel remap, and
//! the stack allocator, on a hand-built machine.

use demos_memory::active::{ActivePageTable, InactivePageTable};
use demos_memory::area_allocator::{AreaFrameAllocator, MemoryArea};
use demos_memory::controller::init;
use demos_memory::entry::{ElfSection, EntryFlags, FLAG_HUGE_PAGE, FLAG_NO_EXECUTE, FLAG_PRESENT, FLAG_WRITABLE};
use demos_memory::frame::FrameAllocator;
use demos_memory::mapper::Mapper;
use demos_memory::page::Page;
use demos_memory::phys::PhysMemory;
use demos_memory::remap::BootInformation;
use demos_memory::temporary::TemporaryPage;
use demos_memory::{KERNEL_HEAP_OFFSET, KERNEL_HEAP_SIZE, KERNEL_TEMP_OFFSET, PAGE_SIZE};

/// The entry word pointing at `frame` with the given flag bits.
fn entry(frame: u64, bits: u64) -> u64 {
    frame * 4096 | bits
}

/// A machine whose only table is a top-level table at `p4`, with the
/// recursive slot pointing at itself.
fn boot_machine(p4: u64) -> ActivePageTable {
    let mut mem = PhysMemory::new();
    mem.install_table(p4);
    mem.write(p4, 511, entry(p4, 0x3));
    ActivePageTable::new(Mapper::new(mem, p4))
}

/// An allocator over `[0x40_0000, 0x100_0000)`, with reserved windows that
/// keep low frames (where tests place their boot tables) out of reach.
fn machine_allocator() -> AreaFrameAllocator {
    AreaFrameAllocator::new(
        0xf0_0000,
        0xf1_0000,
        0xf8_0000,
        0xf9_0000,
        vec![MemoryArea { base_addr: 0x40_0000, length: 0xc0_0000 }],
    )
}

fn idx4(n: u64) -> usize {
    ((n >> 27) & 0o777) as usize
}

fn idx3(n: u64) -> usize {
    ((n >> 18) & 0o777) as usize
}

fn idx2(n: u64) -> usize {
    ((n >> 9) & 0o777) as usize
}

fn idx1(n: u64) -> usize {
    (n & 0o777) as usize
}

/// Walk the installed tables by hand and return the level-1 entry word for
/// the page holding `vaddr`.
fn l1_entry_of(table: &ActivePageTable, vaddr: u64) -> u64 {
    let n = vaddr / 4096;
    let cr3 = table.mapper.cr3;
    let mask = 0x000f_ffff_ffff_f000u64;
    let e4 = table.mapper.mem.read(cr3, idx4(n));
    let p3 = (e4 & mask) >> 12;
    let e3 = table.mapper.mem.read(p3, idx3(n));
    let p2 = (e3 & mask) >> 12;
    let e2 = table.mapper.mem.read(p2, idx2(n));
    let p1 = (e2 & mask) >> 12;
    table.mapper.mem.read(p1, idx1(n))
}

#[test]
fn mapping_translates_every_byte_of_the_page() {
    let mut active = boot_machine(0x10);
    let mut allocator = machine_allocator();
    let page = Page::containing_address(0x2000_0000);
    let frame = allocator.allocate_frame().unwrap();
    let frame_addr = frame.start_address();
    active.mapper.map_to(page, frame, EntryFlags::writable(), &mut allocator);
    for offset in [0u64, 1, 0x123, 4095] {
        assert_eq!(
            active.mapper.translate(0x2000_0000 + offset),
            Some(frame_addr + offset)
        );
    }
    // the neighbouring pages stay unmapped
    assert_eq!(active.mapper.translate(0x2000_0000 - 1), None);
    assert_eq!(active.mapper.translate(0x2000_0000 + 4096), None);
}

#[test]
fn unmap_removes_translation_and_keeps_intermediates() {
    let mut active = boot_machine(0x10);
    let mut allocator = machine_allocator();
    let page = Page::containing_address(0x2000_0000);
    active.mapper.map(page, EntryFlags::writable(), &mut allocator);
    assert!(active.mapper.translate(0x2000_0000).is_some());
    // remember the intermediate entries of the walk
    let n = 0x2000_0000u64 / 4096;
    let cr3 = active.mapper.cr3;
    let mask = 0x000f_ffff_ffff_f000u64;
    let e4 = active.mapper.mem.read(cr3, idx4(n));
    let p3 = (e4 & mask) >> 12;
    let e3 = active.mapper.mem.read(p3, idx3(n));
    let p2 = (e3 & mask) >> 12;
    let e2 = active.mapper.mem.read(p2, idx2(n));
    active.mapper.unmap(page, &mut allocator);
    assert_eq!(active.mapper.translate(0x2000_0000), None);
    assert_eq!(l1_entry_of(&active, 0x2000_0000), 0);
    // the level 4, 3 and 2 entries are unchanged
    assert_eq!(active.mapper.mem.read(cr3, idx4(n)), e4);
    assert_eq!(active.mapper.mem.read(p3, idx3(n)), e3);
    assert_eq!(active.mapper.mem.read(p2, idx2(n)), e2);
}

#[test]
fn identity_map_maps_a_frame_at_its_own_address() {
    let mut active = boot_machine(0x10);
    let mut allocator = machine_allocator();
    let frame = allocator.allocate_frame().unwrap();
    let addr = frame.start_address();
    active.mapper.identity_map(frame, EntryFlags::writable(), &mut allocator);
    assert_eq!(active.mapper.translate(addr + 0x42), Some(addr + 0x42));
}

#[test]
fn huge_level3_entry_reads_through() {
    // a 1 GiB mapping: the level-3 entry covering [1 GiB, 2 GiB) points at
    // the 1 GiB-aligned frame with PRESENT|HUGE, so addresses there are
    // identity-mapped
    let p4 = 0x10u64;
    let p3 = 0x11u64;
    let mut mem = PhysMemory::new();
    mem.install_table(p4);
    mem.write(p4, 511, entry(p4, 0x3));
    mem.install_table(p3);
    mem.write(p4, 0, entry(p3, 0x3));
    mem.write(p3, 1, entry(0x40000, FLAG_PRESENT | FLAG_HUGE_PAGE));
    let active = ActivePageTable::new(Mapper::new(mem, p4));
    assert_eq!(active.mapper.translate(0x4000_1234), Some(0x4000_1234));
    // the whole 1 GiB reads through; the next entry is empty
    assert_eq!(active.mapper.translate(0x7fff_ffff), Some(0x7fff_ffff));
    assert_eq!(active.mapper.translate(0x8000_0000), None);
}

#[test]
fn huge_level2_entry_reads_through() {
    // a 2 MiB mapping under [0, 2 MiB), pointing at frame 0
    let p4 = 0x10u64;
    let p3 = 0x11u64;
    let p2 = 0x12u64;
    let mut mem = PhysMemory::new();
    mem.install_table(p4);
    mem.write(p4, 511, entry(p4, 0x3));
    mem.install_table(p3);
    mem.write(p4, 0, entry(p3, 0x3));
    mem.install_table(p2);
    mem.write(p3, 0, entry(p2, 0x3));
    mem.write(p2, 0, entry(0, FLAG_PRESENT | FLAG_HUGE_PAGE));
    let active = ActivePageTable::new(Mapper::new(mem, p4));
    assert_eq!(active.mapper.translate(0x12_3456), Some(0x12_3456));
    assert_eq!(active.mapper.translate(0x20_0000), None);
}

#[test]
fn inactive_edits_roll_back_the_recursive_slot() {
    let p4 = 0x10u64;
    let mut active = boot_machine(p4);
    let mut allocator = machine_allocator();
    // map one page in the active tables first
    let witness_page = Page::containing_address(0x2000_0000);
    let witness_frame = allocator.allocate_frame().unwrap();
    let witness_addr = witness_frame.start_address();
    active
        .mapper
        .map_to(witness_page, witness_frame, EntryFlags::writable(), &mut allocator);
    let slot_before = active.mapper.mem.read(p4, 511);
    assert_eq!(slot_before, entry(p4, 0x3));
    // build an inactive table and edit it
    let mut temporary_page = TemporaryPage::new(
        Page::containing_address(KERNEL_TEMP_OFFSET),
        &mut allocator,
    );
    let new_frame = allocator.allocate_frame().unwrap();
    let new_p4 = new_frame.number();
    let new_table = InactivePageTable::new(new_frame, &mut active, &mut temporary_page);
    let _backup = active.with_begin(&new_table, &mut temporary_page);
    // while redirected, edits land in the inactive hierarchy
    let inactive_frame = allocator.allocate_frame().unwrap();
    let inactive_dest = inactive_frame.number();
    active.mapper.map_to(
        Page::containing_address(0x3000_0000),
        inactive_frame,
        EntryFlags::writable(),
        &mut allocator,
    );
    active.with_end(&mut temporary_page);
    // the recursive slot of the active table equals its pre-call value
    assert_eq!(active.mapper.mem.read(p4, 511), slot_before);
    // a page that was mapped before still maps to the same frame
    assert_eq!(active.mapper.translate(0x2000_0000), Some(witness_addr));
    // the edit did not leak into the active tables
    assert_eq!(active.mapper.translate(0x3000_0000), None);
    // installing the inactive table brings the edit in and loses the witness
    let old = active.switch(new_table);
    assert_eq!(old.p4_frame.number(), p4);
    assert_eq!(active.mapper.cr3, new_p4);
    assert_eq!(
        active.mapper.translate(0x3000_0000),
        Some(inactive_dest * 4096)
    );
    assert_eq!(active.mapper.translate(0x2000_0000), None);
}

#[test]
fn temporary_mappings_fill_the_window_in_order() {
    let mut active = boot_machine(0x10);
    let mut allocator = machine_allocator();
    let first_frame = allocator.allocate_frame().unwrap();
    let first_addr = first_frame.start_address();
    let second_frame = allocator.allocate_frame().unwrap();
    let second_addr = second_frame.start_address();
    // the first free page of the window is its first page
    let first = active.mapper.temporary_map(first_frame, &mut allocator);
    assert_eq!(first.start_address(), KERNEL_TEMP_OFFSET);
    assert_eq!(active.mapper.translate(KERNEL_TEMP_OFFSET), Some(first_addr));
    // with it taken, the scan lands on the next page
    let second = active.mapper.temporary_map(second_frame, &mut allocator);
    assert_eq!(second.start_address(), KERNEL_TEMP_OFFSET + PAGE_SIZE);
    assert_eq!(
        active.mapper.translate(KERNEL_TEMP_OFFSET + PAGE_SIZE),
        Some(second_addr)
    );
    // dropping the first mapping frees its page again
    active.mapper.unmap(first, &mut allocator);
    assert_eq!(active.mapper.translate(KERNEL_TEMP_OFFSET), None);
}

/// A boot description with one writable, non-executable kernel section at
/// `[0x10_0000, 0x10_3000)`, the boot information at `[0x30_0000, 0x30_4000)`,
/// and one usable memory area well away from both.
fn sample_boot_info() -> BootInformation {
    BootInformation {
        start_address: 0x30_0000,
        end_address: 0x30_4000,
        sections: vec![ElfSection { addr: 0x10_0000, size: 0x3000, flags: 0x1 | 0x2 }],
        memory_areas: vec![MemoryArea { base_addr: 0x40_0000, length: 0xc0_0000 }],
    }
}

#[test]
fn remap_maps_sections_with_their_permissions() {
    // the boot top-level table lives inside the kernel section, as the
    // assembly-created tables do
    let old_p4 = 0x102u64;
    let active = boot_machine(old_p4);
    let boot_info = sample_boot_info();
    let controller = init(active, &boot_info);
    // the section is identity-mapped ...
    assert_eq!(controller.translate(0x10_1abc), Some(0x10_1abc));
    // ... writable and not executable
    let pte = l1_entry_of(&controller.active_table, 0x10_1abc);
    assert_eq!(pte & FLAG_WRITABLE, FLAG_WRITABLE);
    assert_eq!(pte & FLAG_NO_EXECUTE, FLAG_NO_EXECUTE);
    // the old top-level page is the guard page now
    assert_eq!(controller.translate(old_p4 * PAGE_SIZE), None);
    // its neighbours in the section are still reachable
    assert_eq!(controller.translate(0x10_0000), Some(0x10_0000));
    assert_eq!(controller.translate(0x10_1fff), Some(0x10_1fff));
    // the VGA buffer and the boot information are identity-mapped
    assert_eq!(controller.translate(0xb8000), Some(0xb8000));
    assert_eq!(controller.translate(0x30_0000), Some(0x30_0000));
    assert_eq!(controller.translate(0x30_3fff), Some(0x30_3fff));
    // anything else is not
    assert_eq!(controller.translate(0x50_0000), None);
    // the heap window is mapped
    assert!(controller.translate(KERNEL_HEAP_OFFSET).is_some());
    assert!(controller
        .translate(KERNEL_HEAP_OFFSET + KERNEL_HEAP_SIZE - 1)
        .is_some());
}

#[test]
fn stacks_come_with_guard_pages() {
    let active = boot_machine(0x102);
    let boot_info = sample_boot_info();
    let mut controller = init(active, &boot_info);
    let stack = controller.alloc_stack(4).unwrap();
    let bottom = stack.bottom();
    let top = stack.top();
    assert_eq!(top, bottom + 4 * PAGE_SIZE);
    // the guard page below the stack is unmapped
    assert_eq!(controller.translate(bottom - 1), None);
    // the stack pages themselves are mapped, writable and not huge
    assert!(controller.translate(bottom).is_some());
    assert!(controller.translate(top - 1).is_some());
    let pte = l1_entry_of(&controller.active_table, bottom);
    assert_eq!(pte & FLAG_WRITABLE, FLAG_WRITABLE);
    assert_eq!(pte & FLAG_PRESENT, FLAG_PRESENT);
    assert_eq!(pte & FLAG_HUGE_PAGE, 0);
    // a second stack starts above the first, again behind a guard page
    let second = controller.alloc_stack(1).unwrap();
    assert_eq!(second.bottom(), top + PAGE_SIZE);
    assert_eq!(controller.translate(top + PAGE_SIZE - 1), None);
    // a zero-sized request is refused
    assert!(controller.alloc_stack(0).is_none());
}

#[test]
fn stack_range_exhaustion_yields_none() {
    let active = boot_machine(0x102);
    let boot_info = sample_boot_info();
    let mut controller = init(active, &boot_info);
    // the range holds 101 pages: a 101-page request needs 102 with its guard
    assert!(controller.alloc_stack(101).is_none());
    // the failed attempt consumed nothing: 100 pages plus guard still fit
    assert!(controller.alloc_stack(100).is_some());
    // now the range is used up
    assert!(controller.alloc_stack(1).is_none());
}
