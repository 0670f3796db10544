//! Tests of the leaf components: entry flags, entries, the frame allocators,
//! pages and frames, the stack bookkeeping, and the VGA color codes.

use demos_memory::area_allocator::{AreaFrameAllocator, MemoryArea};
use demos_memory::color::{Color, ColorCode};
use demos_memory::entry::{
    ElfSection, Entry, EntryFlags, ENTRY_FLAGS_MASK, FLAG_HUGE_PAGE, FLAG_NO_EXECUTE,
    FLAG_PRESENT, FLAG_WRITABLE,
};
use demos_memory::frame::{Frame, FrameAllocator};
use demos_memory::page::Page;
use demos_memory::temporary::TinyAllocator;

fn small_allocator() -> AreaFrameAllocator {
    // one usable area, with the reserved windows far away from its start
    AreaFrameAllocator::new(
        0xf0_0000,
        0xf1_0000,
        0xf8_0000,
        0xf9_0000,
        vec![MemoryArea { base_addr: 0, length: 0x100_0000 }],
    )
}

#[test]
fn flag_decoding_is_idempotent() {
    let words: [u64; 7] = [
        0,
        1,
        0xffff_ffff_ffff_ffff,
        0x8000_0000_0000_01ff,
        0x0000_1234_5678_9abc,
        0x8000_0000_0001_0003,
        0x7fff_ffff_ffff_fe00,
    ];
    for &w in words.iter() {
        let f = EntryFlags::from_bits_truncate(w);
        assert_eq!(f.bits() & ENTRY_FLAGS_MASK, w & ENTRY_FLAGS_MASK);
        assert_eq!(EntryFlags::from_bits_truncate(f.bits()).bits(), f.bits());
    }
}

#[test]
fn elf_flag_mapping_table() {
    // all eight ELF flag combinations: ALLOC -> PRESENT, WRITE -> WRITABLE,
    // no EXEC -> NO_EXECUTE
    let expected: [u64; 8] = [
        FLAG_NO_EXECUTE,
        FLAG_PRESENT | FLAG_NO_EXECUTE,
        FLAG_WRITABLE | FLAG_NO_EXECUTE,
        FLAG_PRESENT | FLAG_WRITABLE | FLAG_NO_EXECUTE,
        0,
        FLAG_PRESENT,
        FLAG_WRITABLE,
        FLAG_PRESENT | FLAG_WRITABLE,
    ];
    let mut combo: u64 = 0;
    while combo < 8 {
        let section = ElfSection { addr: 0x1000, size: 0x1000, flags: combo };
        let flags = EntryFlags::from_elf_section_flags(&section);
        assert_eq!(flags.bits(), expected[combo as usize]);
        combo += 1;
    }
}

#[test]
fn entry_set_and_pointed_frame() {
    let mut allocator = small_allocator();
    let frame = allocator.allocate_frame().unwrap();
    let number = frame.number();
    let mut entry = Entry::new(0);
    assert!(entry.is_unused());
    entry.set(
        frame,
        EntryFlags::present().union(EntryFlags::writable()),
    );
    assert!(!entry.is_unused());
    assert_eq!(entry.value(), number * 4096 | 0x3);
    let pointed = entry.pointed_frame().unwrap();
    assert_eq!(pointed.number(), number);
    assert!(entry.flags().contains(EntryFlags::present()));
    assert!(entry.flags().contains(EntryFlags::writable()));
    assert!(!entry.flags().contains(EntryFlags::huge_page()));
    entry.set_unused();
    assert!(entry.is_unused());
    assert!(entry.pointed_frame().is_none());
}

#[test]
fn entry_without_present_points_nowhere() {
    let entry = Entry::new(FLAG_WRITABLE | FLAG_HUGE_PAGE);
    assert!(entry.pointed_frame().is_none());
}

#[test]
fn frames_come_out_strictly_increasing() {
    let mut allocator = small_allocator();
    let mut previous = allocator.allocate_frame().unwrap().number();
    for _ in 0..600 {
        let next = allocator.allocate_frame().unwrap().number();
        assert!(next > previous);
        // never inside the kernel image or the boot information
        assert!(!(0xf0_0000 / 4096 <= next && next <= (0xf1_0000 - 1) / 4096));
        assert!(!(0xf8_0000 / 4096 <= next && next <= (0xf9_0000 - 1) / 4096));
        previous = next;
    }
}

#[test]
fn allocator_skips_kernel_and_boot_windows() {
    // usable area [0, 0x100_0000), kernel [0x10_0000, 0x20_0000),
    // boot information [0x30_0000, 0x30_4000)
    let mut allocator = AreaFrameAllocator::new(
        0x10_0000,
        0x20_0000,
        0x30_0000,
        0x30_4000,
        vec![MemoryArea { base_addr: 0, length: 0x100_0000 }],
    );
    for expected in 0..4u64 {
        assert_eq!(allocator.allocate_frame().unwrap().number(), expected);
    }
    // drive the cursor to the kernel window: after frame 0xff comes 0x200
    let mut frame = 0;
    while frame < 0xff {
        frame = allocator.allocate_frame().unwrap().number();
    }
    assert_eq!(allocator.allocate_frame().unwrap().number(), 0x200);
    // approach the boot-information window: after 0x2ff comes 0x304
    while frame < 0x2ff {
        frame = allocator.allocate_frame().unwrap().number();
    }
    assert_eq!(allocator.allocate_frame().unwrap().number(), 0x304);
}

#[test]
fn allocator_exhaustion_yields_none() {
    // a single one-page area
    let mut allocator = AreaFrameAllocator::new(
        0xf0_0000,
        0xf1_0000,
        0xf8_0000,
        0xf9_0000,
        vec![MemoryArea { base_addr: 0x2000, length: 0x1000 }],
    );
    assert_eq!(allocator.allocate_frame().unwrap().number(), 2);
    assert!(allocator.allocate_frame().is_none());
    assert!(allocator.allocate_frame().is_none());
}

#[test]
fn tiny_allocator_holds_three_frames() {
    let mut source = small_allocator();
    let mut tiny = TinyAllocator::new(&mut source);
    let f0 = tiny.allocate_frame().unwrap();
    let f1 = tiny.allocate_frame().unwrap();
    let f2 = tiny.allocate_frame().unwrap();
    assert!(f0.number() != f1.number() && f1.number() != f2.number());
    // the fourth request finds the slots empty
    assert!(tiny.allocate_frame().is_none());
    // three frames go back in; a fourth would overflow the slots and the
    // original panics there
    tiny.deallocate_frame(f0);
    tiny.deallocate_frame(f1);
    tiny.deallocate_frame(f2);
    assert!(tiny.allocate_frame().is_some());
    assert!(tiny.allocate_frame().is_some());
    assert!(tiny.allocate_frame().is_some());
    assert!(tiny.allocate_frame().is_none());
}

#[test]
fn canonical_addresses_make_pages() {
    // both canonical boundary addresses are accepted
    let low = Page::containing_address(0x0000_7fff_ffff_ffff);
    assert_eq!(low.start_address(), 0x0000_7fff_ffff_f000);
    let high = Page::containing_address(0xffff_8000_0000_0000);
    assert_eq!(high.start_address(), 0xffff_8000_0000_0000);
}

#[test]
fn page_ranges_iterate_inclusively() {
    let start = Page::containing_address(0x1000);
    let end = Page::containing_address(0x4000);
    let mut iter = Page::range_inclusive(start, end);
    let mut expected: u64 = 1;
    while let Some(page) = iter.next() {
        assert_eq!(page.start_address(), expected * 4096);
        expected += 1;
    }
    assert_eq!(expected, 5);
}

#[test]
fn frame_ranges_iterate_inclusively() {
    let mut allocator = small_allocator();
    let start = allocator.allocate_frame().unwrap();
    let first = start.number();
    let mut end = allocator.allocate_frame().unwrap();
    for _ in 0..3 {
        end = allocator.allocate_frame().unwrap();
    }
    let last = end.number();
    let mut iter = Frame::range_inclusive(start, end);
    let mut expected = first;
    while let Some(frame) = iter.next() {
        assert_eq!(frame.number(), expected);
        expected += 1;
    }
    assert_eq!(expected, last + 1);
}

#[test]
fn color_codes_pack_background_and_foreground() {
    assert_eq!(ColorCode::new(Color::LightGreen, Color::Black).value(), 10);
    assert_eq!(ColorCode::new(Color::White, Color::Blue).value(), 0x1f);
    assert_eq!(ColorCode::new(Color::Black, Color::White).value(), 0xf0);
    assert_eq!(Color::Yellow.number(), 14);
}
