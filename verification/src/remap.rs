//! The kernel remap: the one-shot switch from the boot loader's identity map
//! to a kernel-built address space.
//!
//! A fresh level-4 table is built while the boot tables are still installed,
//! using the inactive-table protocol: every allocated kernel ELF section is
//! identity-mapped with permissions derived from its ELF flags, the VGA text
//! buffer is mapped writable, and the boot-information structure is mapped
//! read-only.  Then the new table is installed, and the page holding the old
//! top-level table is unmapped: it sits directly below the boot stack, so it
//! becomes the stack guard page.

use vstd::prelude::*;

verus! {

use crate::PAGE_SIZE;
use crate::active::ActivePageTable;
use crate::active::InactivePageTable;
use crate::area_allocator::MemoryArea;
use crate::entry::ElfSection;
use crate::entry::EntryFlags;
use crate::entry::ELF_SECTION_ALLOCATED;
use crate::entry::FLAG_PRESENT;
use crate::entry::FLAG_WRITABLE;
use crate::entry::entry_encode;
use crate::entry::entry_present;
use crate::entry::spec_elf_to_entry_flags;
use crate::entry::lemma_encode_present;
use crate::frame::Frame;
use crate::frame::FrameAllocator;
use crate::page::Page;
use crate::page::idx4;
use crate::page::page_canonical;
use crate::page::lemma_low_page_idx4;
use crate::phys::rd;
use crate::temporary::TemporaryPage;
use crate::walk::l1e;
use crate::walk::l1_slot;
use crate::walk::l4e;
use crate::walk::path_complete;
use crate::walk::path_no_huge;
use crate::walk::missing_tables;
use crate::walk::spec_translate_page;
use crate::walk::lvl_extends;
use crate::walk::lemma_path_typed;
use crate::KERNEL_TEMP_OFFSET;

/// The frame of the VGA text buffer, at physical address `0xb8000`.
pub const VGA_BUFFER_FRAME: u64 = 0xb8;

/// What the boot loader hands the kernel: where the boot-information
/// structure itself sits, the kernel's ELF sections, and the firmware memory
/// map.
#[derive(Debug)]
pub struct BootInformation {
    /// Physical address of the first byte of the boot information.
    pub start_address: u64,
    /// Physical address one past the last byte of the boot information.
    pub end_address: u64,
    /// The kernel's ELF sections.
    pub sections: Vec<ElfSection>,
    /// The firmware memory map: the usable areas of physical memory.
    pub memory_areas: Vec<MemoryArea>,
}

/// First frame of an allocated section.
pub open spec fn section_first(s: ElfSection) -> u64 {
    s.addr / PAGE_SIZE
}

/// Last frame of an allocated section (whose size must not be zero).
pub open spec fn section_last(s: ElfSection) -> u64 {
    ((s.addr + s.size - 1) / (PAGE_SIZE as int)) as u64
}

/// Whether the section occupies memory at run time.
pub open spec fn section_allocated(s: ElfSection) -> bool {
    s.flags & ELF_SECTION_ALLOCATED == ELF_SECTION_ALLOCATED
}

/// Whether frame `f` belongs to one of the first `k` sections that is
/// allocated.
pub open spec fn in_sections_upto(sections: Seq<ElfSection>, k: int, f: u64) -> bool {
    exists|j: int|
        0 <= j < k && section_allocated(#[trigger] sections[j]) && section_first(sections[j]) <= f
            <= section_last(sections[j])
}

/// Whether frame `f` belongs to some allocated section.
pub open spec fn in_sections(sections: Seq<ElfSection>, f: u64) -> bool {
    in_sections_upto(sections, sections.len() as int, f)
}

/// First frame of the boot-information structure.
pub open spec fn boot_first(boot: BootInformation) -> u64 {
    boot.start_address / PAGE_SIZE
}

/// Last frame of the boot-information structure.
pub open spec fn boot_last(boot: BootInformation) -> u64 {
    ((boot.end_address - 1) / (PAGE_SIZE as int)) as u64
}

/// Whether the remap identity-maps frame `f`: a section frame, the VGA text
/// buffer, or a frame of the boot information.
pub open spec fn identity_covered(boot: BootInformation, f: u64) -> bool {
    ||| in_sections(boot.sections@, f)
    ||| f == VGA_BUFFER_FRAME
    ||| boot_first(boot) <= f <= boot_last(boot)
}

/// Number of frames covered by the allocated sections from index `j` on.
pub open spec fn section_frames_from(sections: Seq<ElfSection>, j: int) -> int
    decreases sections.len() - j,
{
    if j < 0 || j >= sections.len() {
        0
    } else {
        (if section_allocated(sections[j]) {
            section_last(sections[j]) - section_first(sections[j]) + 1
        } else {
            0
        }) + section_frames_from(sections, j + 1)
    }
}

/// The frames a remap has to map, at most: the section frames, the VGA
/// buffer, and the boot information.
pub open spec fn remap_frames(boot: BootInformation) -> int {
    section_frames_from(boot.sections@, 0) + 1 + (boot_last(boot) - boot_first(boot) + 1)
}

/// What the remap assumes of the boot information: allocated sections are
/// page-aligned, non-empty, in the low half, and pairwise disjoint; the boot
/// information is in the low half and overlaps neither the sections nor the
/// VGA buffer; the VGA buffer is in no section.
pub open spec fn boot_info_wf(boot: BootInformation) -> bool {
    &&& forall|j: int|
        0 <= j < boot.sections@.len() && section_allocated(#[trigger] boot.sections@[j]) ==> {
            &&& boot.sections@[j].addr % PAGE_SIZE == 0
            &&& boot.sections@[j].size > 0
            &&& boot.sections@[j].addr + boot.sections@[j].size <= 0x8000_0000_0000
        }
    &&& forall|j: int, k: int|
        0 <= j < boot.sections@.len() && 0 <= k < boot.sections@.len() && j != k
            && section_allocated(#[trigger] boot.sections@[j]) && section_allocated(
            #[trigger] boot.sections@[k],
        ) ==> (section_last(boot.sections@[j]) < section_first(boot.sections@[k])
            || section_last(boot.sections@[k]) < section_first(boot.sections@[j]))
    &&& forall|j: int|
        0 <= j < boot.sections@.len() && section_allocated(#[trigger] boot.sections@[j])
            ==> !(section_first(boot.sections@[j]) <= VGA_BUFFER_FRAME <= section_last(
            boot.sections@[j],
        ))
    &&& 0 < boot.start_address < boot.end_address <= 0x8000_0000_0000
    &&& forall|j: int|
        0 <= j < boot.sections@.len() && section_allocated(#[trigger] boot.sections@[j]) ==> (
        section_last(boot.sections@[j]) < boot_first(boot) || boot_last(boot) < section_first(
            boot.sections@[j],
        ))
    &&& !(boot_first(boot) <= VGA_BUFFER_FRAME <= boot_last(boot))
}

/// The number of the virtual page used for temporary mappings.
pub open spec fn temp_page_num() -> u64 {
    KERNEL_TEMP_OFFSET / PAGE_SIZE
}

/// The temporary-mapping window sits at level-4 slot 508, in the high half.
pub proof fn lemma_temp_page_facts()
    by (bit_vector)
    ensures
        page_canonical(temp_page_num()),
        idx4(temp_page_num()) == 508,
        temp_page_num() * 4096 <= u64::MAX,
        crate::page::addr_canonical(KERNEL_TEMP_OFFSET),
        KERNEL_TEMP_OFFSET / 4096 == temp_page_num(),
{
}

/// The sections cover a non-negative number of frames.
pub proof fn lemma_section_frames_nonneg(sections: Seq<ElfSection>, j: int)
    requires
        forall|k: int|
            0 <= k < sections.len() && section_allocated(#[trigger] sections[k]) ==> {
                &&& sections[k].size > 0
                &&& sections[k].addr + sections[k].size <= 0x8000_0000_0000
            },
    ensures
        section_frames_from(sections, j) >= 0,
    decreases sections.len() - j,
{
    if 0 <= j < sections.len() {
        lemma_section_frames_nonneg(sections, j + 1);
    }
}

/// The page-table flags of an allocated section are made of known flags.
pub proof fn lemma_elf_flags_wf(elf_flags: u64)
    by (bit_vector)
    ensures
        spec_elf_to_entry_flags(elf_flags) & crate::entry::ENTRY_FLAGS_MASK
            == spec_elf_to_entry_flags(elf_flags),
{
}

/// Replace the boot identity map: build a fresh table hierarchy mapping the
/// allocated kernel sections (with their ELF permissions), the VGA text
/// buffer (writable) and the boot information (read-only), each frame at its
/// own address; install it; and unmap the page of the old top-level table,
/// turning it into the stack guard page.
pub fn remap_the_kernel<A: FrameAllocator>(
    active_table: &mut ActivePageTable,
    allocator: &mut A,
    boot_info: &BootInformation,
)
    requires
        old(active_table).inv(),
        old(active_table).mapper.cr3 < 0x8_0000_0000,
        boot_info_wf(*boot_info),
        in_sections(boot_info.sections@, old(active_table).mapper.cr3),
        l1_slot(
            old(active_table).mapper.mem@,
            old(active_table).mapper.cr3,
            temp_page_num(),
        ) == 0,
        path_no_huge(
            old(active_table).mapper.mem@,
            old(active_table).mapper.cr3,
            temp_page_num(),
        ),
        old(allocator).wf(),
        old(allocator).avail().finite(),
        old(allocator).avail().disjoint(old(active_table).mapper.mem@.dom()),
        forall|x: u64| old(allocator).avail().contains(x) ==> x < 0x100_0000_0000,
        old(allocator).avail().len() >= 4 + 3 * remap_frames(*boot_info),
    ensures
        final(active_table).inv(),
        final(active_table).mapper.cr3 != old(active_table).mapper.cr3,
        // the allocated sections are identity-mapped with their ELF
        // permissions — all but the old top-level frame, now the guard page
        forall|j: int, f: u64|
            #![trigger boot_info.sections@[j], spec_translate_page(final(active_table).mapper.mem@, final(active_table).mapper.cr3, f)]
            0 <= j < boot_info.sections@.len() && section_allocated(
                boot_info.sections@[j],
            ) && section_first(boot_info.sections@[j]) <= f <= section_last(
                boot_info.sections@[j],
            ) && f != old(active_table).mapper.cr3 ==> path_complete(
                final(active_table).mapper.mem@,
                final(active_table).mapper.cr3,
                f,
            ) && spec_translate_page(
                final(active_table).mapper.mem@,
                final(active_table).mapper.cr3,
                f,
            ) == Some(f) && l1e(final(active_table).mapper.mem@, final(active_table).mapper.cr3, f)
                == entry_encode(
                f,
                (spec_elf_to_entry_flags(boot_info.sections@[j].flags) | FLAG_PRESENT) as u64,
            ),
        // the VGA text buffer is identity-mapped writable
        path_complete(
            final(active_table).mapper.mem@,
            final(active_table).mapper.cr3,
            VGA_BUFFER_FRAME,
        ),
        spec_translate_page(
            final(active_table).mapper.mem@,
            final(active_table).mapper.cr3,
            VGA_BUFFER_FRAME,
        ) == Some(VGA_BUFFER_FRAME),
        l1e(
            final(active_table).mapper.mem@,
            final(active_table).mapper.cr3,
            VGA_BUFFER_FRAME,
        ) == entry_encode(VGA_BUFFER_FRAME, (FLAG_WRITABLE | FLAG_PRESENT) as u64),
        // the boot information is identity-mapped read-only
        forall|f: u64|
            boot_first(*boot_info) <= f <= boot_last(*boot_info) ==> spec_translate_page(
                final(active_table).mapper.mem@,
                final(active_table).mapper.cr3,
                f,
            ) == Some(f),
        // the old top-level frame is the guard page: not translatable
        spec_translate_page(
            final(active_table).mapper.mem@,
            final(active_table).mapper.cr3,
            old(active_table).mapper.cr3,
        ) is None,
        // nothing else is mapped
        forall|q: u64|
            page_canonical(q) && idx4(q) != 511 && !identity_covered(*boot_info, q)
                ==> spec_translate_page(
                final(active_table).mapper.mem@,
                final(active_table).mapper.cr3,
                q,
            ) is None && l1_slot(final(active_table).mapper.mem@, final(active_table).mapper.cr3, q)
                == 0 && path_no_huge(
                final(active_table).mapper.mem@,
                final(active_table).mapper.cr3,
                q,
            ),
        final(allocator).wf(),
        final(allocator).avail().finite(),
        final(allocator).avail().disjoint(final(active_table).mapper.mem@.dom()),
        forall|x: u64| final(allocator).avail().contains(x) ==> x < 0x100_0000_0000,
        forall|x: u64| final(allocator).avail().contains(x) ==> old(allocator).avail().contains(x),
        final(allocator).avail().len() >= old(allocator).avail().len() - 4 - 3 * remap_frames(
            *boot_info,
        ),
{
    let ghost m0 = active_table.mapper.mem@;
    let ghost cr3g = active_table.mapper.cr3;
    let ghost tmp_n = temp_page_num();
    proof {
        lemma_temp_page_facts();
        lemma_section_frames_nonneg(boot_info.sections@, 0);
        assert(boot_first(*boot_info) <= boot_last(*boot_info)) by {
            let s = boot_info.start_address;
            let e = boot_info.end_address;
            assert(s <= e - 1 ==> s / 4096 <= (e - 1) as u64 / 4096) by (bit_vector);
        }
    }
    let mut temporary_page = TemporaryPage::new(
        Page::containing_address(KERNEL_TEMP_OFFSET),
        allocator,
    );
    proof {
        if allocator.avail().is_empty() {
            assert(allocator.avail() =~= Set::<u64>::empty());
        }
    }
    let new_frame = match allocator.allocate_frame() {
        Some(f) => f,
        None => {
            proof {
                assert(false);
            }
            Frame::from_number(0)
        },
    };
    let ghost fnum = new_frame.num();
    let new_table = InactivePageTable::new(new_frame, active_table, &mut temporary_page);
    let ghost m1 = active_table.mapper.mem@;
    let ghost lvl1 = active_table.mapper.levels@;
    proof {
        assert(new_table.ok(m1, lvl1));
        assert(fnum != cr3g);
    }
    let backup = active_table.with_begin(&new_table, &mut temporary_page);
    let ghost m2 = active_table.mapper.mem@;
    let ghost lvl2 = active_table.mapper.levels@;
    let ghost tmp_slot = l1_slot(m2, cr3g, tmp_n);
    proof {
        // the fresh table is empty, so under it everything is unmapped
        assert(entry_present(tmp_slot)) by {
            assert(path_complete(m2, cr3g, tmp_n));
            assert(tmp_slot == l1e(m2, cr3g, tmp_n));
        }
        lemma_path_typed(m2, cr3g, lvl2, cr3g, tmp_n);
        assert(lvl2[fnum] == 4 && lvl2[cr3g] == 4);
        assert forall|q: u64| idx4(q) != 511 implies l4e(m2, fnum, q) == 0 by {
            crate::page::lemma_idx_range(q);
            assert(!crate::walk::on_path(m2, cr3g, tmp_n, fnum, idx4(q) as int)) by {
                assert(lvl2[crate::walk::p3_of(m2, cr3g, tmp_n)] == 3);
                assert(lvl2[crate::walk::p2_of(m2, cr3g, tmp_n)] == 2);
                assert(lvl2[crate::walk::p1_of(m2, cr3g, tmp_n)] == 1);
            }
            assert(rd(m2, fnum, idx4(q) as int) == rd(m1, fnum, idx4(q) as int));
            assert(rd(m1, fnum, idx4(q) as int) == 0);
        }
        crate::entry::lemma_present_nonzero(0);
        assert forall|q: u64| page_canonical(q) && idx4(q) != 511 implies spec_translate_page(
            m2,
            fnum,
            q,
        ) is None && l1_slot(m2, fnum, q) == 0 && path_no_huge(m2, fnum, q) && missing_tables(
            m2,
            fnum,
            q,
        ) == 3 by {
            assert(l4e(m2, fnum, q) == 0);
        }
    }
    // identity-map every allocated section with its own permissions
    let ghost sections = boot_info.sections@;
    let ghost len_start = allocator.avail().len() as int;
    let ghost total0 = section_frames_from(sections, 0);
    let mut j: usize = 0;
    while j < boot_info.sections.len()
        invariant
            active_table.mapper.inv(),
            active_table.mapper.cr3 == cr3g,
            active_table.mapper.root() == fnum,
            fnum != cr3g,
            fnum < 0x100_0000_0000,
            lvl_extends(lvl2, active_table.mapper.levels@),
            sections == boot_info.sections@,
            boot_info_wf(*boot_info),
            j <= sections.len(),
            cr3g < 0x8_0000_0000,
            // the temporary page stays mapped in the installed tables
            l1_slot(active_table.mapper.mem@, cr3g, tmp_n) == tmp_slot,
            entry_present(tmp_slot),
            page_canonical(tmp_n),
            idx4(tmp_n) != 511,
            // sections processed so far are identity-mapped
            forall|jj: int, f: u64|
                #![trigger sections[jj], spec_translate_page(active_table.mapper.mem@, fnum, f)]
                0 <= jj < j && section_allocated(sections[jj]) && section_first(
                    sections[jj],
                ) <= f <= section_last(sections[jj]) ==> path_complete(
                    active_table.mapper.mem@,
                    fnum,
                    f,
                ) && spec_translate_page(active_table.mapper.mem@, fnum, f) == Some(f) && l1e(
                    active_table.mapper.mem@,
                    fnum,
                    f,
                ) == entry_encode(
                    f,
                    (spec_elf_to_entry_flags(sections[jj].flags) | FLAG_PRESENT) as u64,
                ),
            // everything else is still unmapped under the new table
            forall|q: u64|
                page_canonical(q) && idx4(q) != 511 && !in_sections_upto(sections, j as int, q)
                    ==> spec_translate_page(active_table.mapper.mem@, fnum, q) is None && l1_slot(
                    active_table.mapper.mem@,
                    fnum,
                    q,
                ) == 0 && path_no_huge(active_table.mapper.mem@, fnum, q),
            allocator.wf(),
            allocator.avail().finite(),
            allocator.avail().disjoint(active_table.mapper.mem@.dom()),
            forall|x: u64| allocator.avail().contains(x) ==> x < 0x100_0000_0000,
            forall|x: u64| allocator.avail().contains(x) ==> old(allocator).avail().contains(x),
            allocator.avail().len() >= 3 * (section_frames_from(sections, j as int) + 1 + (
            boot_last(*boot_info) - boot_first(*boot_info) + 1)),
            total0 == section_frames_from(sections, 0),
            allocator.avail().len() >= len_start - 3 * (total0 - section_frames_from(
                sections,
                j as int,
            )),
        decreases boot_info.sections.len() - j,
    {
        let ghost m_pre = active_table.mapper.mem@;
        let section = boot_info.sections[j];
        if section.is_allocated() {
            let first = section.start_address() / PAGE_SIZE;
            let last = (section.start_address() + (section.end_address()
                - section.start_address()) - 1) / PAGE_SIZE;
            let flags = EntryFlags::from_elf_section_flags(&section);
            proof {
                lemma_section_frames_nonneg(sections, j as int + 1);
                assert(first == section_first(sections[j as int]));
                assert(last == section_last(sections[j as int]));
                assert forall|n: u64| first <= n <= last implies l1_slot(m_pre, fnum, n) == 0
                    && path_no_huge(m_pre, fnum, n) by {
                    lemma_low_page_idx4(n);
                    assert(!in_sections_upto(sections, j as int, n)) by {
                        if in_sections_upto(sections, j as int, n) {
                            let jj = choose|jj: int|
                                0 <= jj < j && section_allocated(#[trigger] sections[jj])
                                    && section_first(sections[jj]) <= n <= section_last(
                                    sections[jj],
                                );
                            assert(section_last(sections[jj]) < first || last < section_first(
                                sections[jj],
                            ));
                        }
                    }
                }
            }
            active_table.mapper.identity_map_range(first, last, flags, allocator);
            proof {
                let m_post = active_table.mapper.mem@;
                // the preserved facts carry over, and the freshly mapped
                // section extends the coverage
                assert forall|q: u64|
                    page_canonical(q) && idx4(q) != 511 && !in_sections_upto(
                        sections,
                        j as int + 1,
                        q,
                    ) implies spec_translate_page(m_post, fnum, q) is None && l1_slot(
                    m_post,
                    fnum,
                    q,
                ) == 0 && path_no_huge(m_post, fnum, q) by {
                    assert(!(first <= q <= last));
                    assert(!in_sections_upto(sections, j as int, q));
                }
                assert forall|jj: int, f: u64|
                    #![trigger sections[jj], spec_translate_page(m_post, fnum, f)]
                    0 <= jj < j + 1 && section_allocated(sections[jj]) && section_first(
                        sections[jj],
                    ) <= f <= section_last(sections[jj]) implies path_complete(
                    m_post,
                    fnum,
                    f,
                ) && spec_translate_page(m_post, fnum, f) == Some(f) && l1e(m_post, fnum, f)
                    == entry_encode(
                    f,
                    (spec_elf_to_entry_flags(sections[jj].flags) | FLAG_PRESENT) as u64,
                ) by {
                    lemma_low_page_idx4(f);
                    if jj < j {
                        assert(!(first <= f <= last)) by {
                            assert(section_last(sections[jj]) < first || last < section_first(
                                sections[jj],
                            ));
                        }
                        assert(l1_slot(m_post, fnum, f) == l1_slot(m_pre, fnum, f));
                        lemma_elf_flags_wf(sections[jj].flags);
                        lemma_encode_present(f, spec_elf_to_entry_flags(sections[jj].flags));
                        assert(l1_slot(m_pre, fnum, f) == l1e(m_pre, fnum, f));
                        assert(l1_slot(m_post, fnum, f) != 0);
                        assert(path_complete(m_post, fnum, f));
                    } else {
                        assert(first <= f <= last);
                    }
                }
                assert(l1_slot(m_post, cr3g, tmp_n) == tmp_slot);
                assert(section_frames_from(sections, j as int) == (last - first + 1)
                    + section_frames_from(sections, j as int + 1));
            }
        } else {
            proof {
                assert forall|q: u64|
                    page_canonical(q) && idx4(q) != 511 && !in_sections_upto(
                        sections,
                        j as int + 1,
                        q,
                    ) implies spec_translate_page(m_pre, fnum, q) is None && l1_slot(
                    m_pre,
                    fnum,
                    q,
                ) == 0 && path_no_huge(m_pre, fnum, q) by {
                    assert(!in_sections_upto(sections, j as int, q));
                }
                assert(section_frames_from(sections, j as int) == section_frames_from(
                    sections,
                    j as int + 1,
                ));
                lemma_section_frames_nonneg(sections, j as int + 1);
            }
        }
        j = j + 1;
    }
    let ghost m3 = active_table.mapper.mem@;
    // identity-map the VGA text buffer, writable
    proof {
        assert(!in_sections(sections, VGA_BUFFER_FRAME));
        assert(l1_slot(m3, fnum, VGA_BUFFER_FRAME) == 0 && path_no_huge(
            m3,
            fnum,
            VGA_BUFFER_FRAME,
        )) by {
            assert(VGA_BUFFER_FRAME < 0x8_0000_0000);
            lemma_low_page_idx4(VGA_BUFFER_FRAME);
        }
    }
    active_table.mapper.identity_map_range(
        VGA_BUFFER_FRAME,
        VGA_BUFFER_FRAME,
        EntryFlags::writable(),
        allocator,
    );
    let ghost m4 = active_table.mapper.mem@;
    // identity-map the boot information, read-only
    let mb_first = boot_info.start_address / PAGE_SIZE;
    let mb_last = (boot_info.end_address - 1) / PAGE_SIZE;
    proof {
        assert forall|n: u64| mb_first <= n <= mb_last implies l1_slot(m4, fnum, n) == 0
            && path_no_huge(m4, fnum, n) by {
            lemma_low_page_idx4(n);
            assert(!in_sections(sections, n)) by {
                if in_sections(sections, n) {
                    let jj = choose|jj: int|
                        0 <= jj < sections.len() && section_allocated(#[trigger] sections[jj])
                            && section_first(sections[jj]) <= n <= section_last(sections[jj]);
                    assert(false);
                }
            }
            assert(l1_slot(m4, fnum, n) == l1_slot(m3, fnum, n));
        }
    }
    active_table.mapper.identity_map_range(
        mb_first,
        mb_last,
        EntryFlags::present(),
        allocator,
    );
    let ghost m5 = active_table.mapper.mem@;
    proof {
        // the temporary page is still aliasing the old top-level table
        assert(l1_slot(m5, cr3g, tmp_n) == tmp_slot);
        assert(path_complete(m5, cr3g, tmp_n) && entry_present(l1e(m5, cr3g, tmp_n))) by {
            crate::entry::lemma_present_nonzero(tmp_slot);
        }
    }
    // restore the recursive slot and drop the alias
    active_table.with_end(&mut temporary_page);
    let ghost m6 = active_table.mapper.mem@;
    proof {
        // the new table still points at itself: its recursive slot was never
        // written after its creation
        assert(rd(m6, fnum, 511) == rd(m5, fnum, 511));
        assert(rd(m5, fnum, 511) == entry_encode(fnum, crate::walk::flags_table()));
        assert(new_table.ok(m6, active_table.mapper.levels@));
    }
    // install the new table; the old one comes back as a plain frame
    let old_table = active_table.switch(new_table);
    proof {
        assert(old_table.p4_frame.num() == cr3g);
        // the new-table facts survived the restore
        assert forall|q: u64| idx4(q) != 511 implies spec_translate_page(m6, fnum, q)
            == spec_translate_page(m5, fnum, q) && l1_slot(m6, fnum, q) == l1_slot(
            m5,
            fnum,
            q,
        ) by {}
    }
    // the old top-level table sits right below the boot stack: unmapping its
    // page turns it into the stack guard page
    let old_p4_page = Page::containing_address(old_table.p4_frame.start_address());
    proof {
        crate::page::lemma_page_start_addr(cr3g);
        lemma_low_page_idx4(cr3g);
        let jj = choose|jj: int|
            0 <= jj < sections.len() && section_allocated(#[trigger] sections[jj])
                && section_first(sections[jj]) <= cr3g <= section_last(sections[jj]);
        lemma_elf_flags_wf(sections[jj].flags);
        lemma_encode_present(cr3g, spec_elf_to_entry_flags(sections[jj].flags));
        assert(l1_slot(m6, fnum, cr3g) == l1e(m6, fnum, cr3g) && entry_present(
            l1e(m6, fnum, cr3g),
        )) by {
            assert(l1_slot(m5, fnum, cr3g) == l1e(m5, fnum, cr3g) && l1e(m5, fnum, cr3g) != 0);
        }
        assert(path_complete(m6, fnum, cr3g));
    }
    active_table.mapper.unmap(old_p4_page, allocator);
    proof {
        let m7 = active_table.mapper.mem@;
        let lvl7 = active_table.mapper.levels@;
        assert forall|q: u64|
            page_canonical(q) && idx4(q) != 511 && q != cr3g implies spec_translate_page(
            m7,
            fnum,
            q,
        ) == spec_translate_page(m6, fnum, q) && l1_slot(m7, fnum, q) == l1_slot(m6, fnum, q) && (
        path_no_huge(m6, fnum, q) ==> path_no_huge(m7, fnum, q)) by {
            crate::walk::lemma_l1_cell_preserves_other(m6, m7, fnum, lvl7, fnum, cr3g, q);
        }
        // re-establish the per-section mapping facts in the final memory
        assert forall|jj: int, f: u64|
            #![trigger sections[jj], spec_translate_page(m7, fnum, f)]
            0 <= jj < sections.len() && section_allocated(sections[jj])
                && section_first(sections[jj]) <= f <= section_last(sections[jj]) && f
                != cr3g implies path_complete(m7, fnum, f) && spec_translate_page(m7, fnum, f)
            == Some(f) && l1e(m7, fnum, f) == entry_encode(
            f,
            (spec_elf_to_entry_flags(sections[jj].flags) | FLAG_PRESENT) as u64,
        ) by {
            lemma_low_page_idx4(f);
            lemma_elf_flags_wf(sections[jj].flags);
            lemma_encode_present(f, spec_elf_to_entry_flags(sections[jj].flags));
            assert(l1_slot(m5, fnum, f) == l1e(m5, fnum, f) && l1e(m5, fnum, f) != 0);
            assert(l1_slot(m7, fnum, f) == l1_slot(m5, fnum, f));
            assert(path_complete(m7, fnum, f));
        }
        assert(path_complete(m7, fnum, VGA_BUFFER_FRAME) && spec_translate_page(
            m7,
            fnum,
            VGA_BUFFER_FRAME,
        ) == Some(VGA_BUFFER_FRAME) && l1e(m7, fnum, VGA_BUFFER_FRAME) == entry_encode(
            VGA_BUFFER_FRAME,
            (FLAG_WRITABLE | FLAG_PRESENT) as u64,
        )) by {
            lemma_low_page_idx4(VGA_BUFFER_FRAME);
            lemma_encode_present(VGA_BUFFER_FRAME, FLAG_WRITABLE);
            assert((FLAG_WRITABLE as u64) & crate::entry::ENTRY_FLAGS_MASK == FLAG_WRITABLE)
                by (bit_vector);
            assert(l1_slot(m5, fnum, VGA_BUFFER_FRAME) == l1e(m5, fnum, VGA_BUFFER_FRAME)
                && l1e(m5, fnum, VGA_BUFFER_FRAME) != 0);
            assert(l1_slot(m7, fnum, VGA_BUFFER_FRAME) == l1_slot(m5, fnum, VGA_BUFFER_FRAME));
            assert(path_complete(m7, fnum, VGA_BUFFER_FRAME));
        }
        assert forall|f: u64|
            boot_first(*boot_info) <= f <= boot_last(*boot_info) implies spec_translate_page(
            m7,
            fnum,
            f,
        ) == Some(f) by {
            lemma_low_page_idx4(f);
            lemma_encode_present(f, FLAG_PRESENT);
            assert((FLAG_PRESENT as u64) & crate::entry::ENTRY_FLAGS_MASK == FLAG_PRESENT)
                by (bit_vector);
            assert(f != cr3g);
            assert(l1_slot(m5, fnum, f) == l1e(m5, fnum, f) && l1e(m5, fnum, f) != 0);
            assert(l1_slot(m7, fnum, f) == l1_slot(m5, fnum, f));
            assert(path_complete(m7, fnum, f));
        }
        assert forall|q: u64|
            page_canonical(q) && idx4(q) != 511 && !identity_covered(*boot_info, q)
                implies spec_translate_page(m7, fnum, q) is None && l1_slot(m7, fnum, q) == 0
            && path_no_huge(m7, fnum, q) by {
            assert(q != cr3g);
            assert(!in_sections(sections, q) && q != VGA_BUFFER_FRAME && !(boot_first(*boot_info)
                <= q <= boot_last(*boot_info)));
            assert(spec_translate_page(m3, fnum, q) is None && l1_slot(m3, fnum, q) == 0
                && path_no_huge(m3, fnum, q));
            assert(spec_translate_page(m4, fnum, q) is None && l1_slot(m4, fnum, q) == 0
                && path_no_huge(m4, fnum, q));
            assert(spec_translate_page(m5, fnum, q) is None && l1_slot(m5, fnum, q) == 0
                && path_no_huge(m5, fnum, q));
            assert(spec_translate_page(m6, fnum, q) is None && l1_slot(m6, fnum, q) == 0
                && path_no_huge(m6, fnum, q));
        }
    }
}

} // verus!
