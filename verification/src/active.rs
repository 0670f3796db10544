//! The active table, inactive tables, and the protocol for editing a table
//! that is not installed.
//!
//! The mapper can only reach tables through the recursive slot of the active
//! level-4 table, so editing an inactive one takes a detour: map the current
//! level-4 table at the temporary page so it stays reachable, point slot 511
//! of it at the inactive table, do the edits (they now land in the inactive
//! hierarchy), then restore slot 511 through the temporary alias and unmap
//! it.  Here the protocol is split into `with_begin` and `with_end`, and the
//! caller performs its edits on the mapper in between.

use vstd::prelude::*;

verus! {

use crate::PAGE_SIZE;
use crate::entry::Entry;
use crate::entry::EntryFlags;
use crate::entry::entry_present;
use crate::entry::entry_frame;
use crate::entry::entry_encode;
use crate::entry::lemma_entry_frame_bound;
use crate::entry::lemma_entry_encode;
use crate::frame::Frame;
use crate::frame::FrameAllocator;
use crate::mapper::Mapper;
use crate::page::idx4;
use crate::page::idx3;
use crate::page::idx2;
use crate::page::idx1;
use crate::page::page_canonical;
use crate::phys::rd;
use crate::temporary::TemporaryPage;
use crate::walk::flags_table;
use crate::walk::lemma_flags_table_bits;
use crate::walk::inv_at;
use crate::walk::is_branch_cell;
use crate::walk::child_ok;
use crate::walk::steps_down;
use crate::walk::l4e;
use crate::walk::l3e;
use crate::walk::l2e;
use crate::walk::l1e;
use crate::walk::p3_of;
use crate::walk::p2_of;
use crate::walk::p1_of;
use crate::walk::path_complete;
use crate::walk::path_no_huge;
use crate::walk::l1_slot;
use crate::walk::missing_tables;
use crate::walk::lvl_extends;
use crate::walk::spec_translate_page;

/// A set of page tables that is not installed: all that exists of it is the
/// frame of its level-4 table.  Its slot 511 points at itself, so that the
/// recursive trick works the moment it is installed or aliased.
#[derive(Debug)]
pub struct InactivePageTable {
    /// The frame holding the level-4 table.
    pub p4_frame: Frame,
}

impl InactivePageTable {
    /// The inactive table is modelled: its frame holds a level-4 table whose
    /// slot 511 points at itself with `PRESENT | WRITABLE`.
    pub open spec fn ok(self, m: Map<u64, Seq<u64>>, lvl: Map<u64, int>) -> bool {
        &&& m.contains_key(self.p4_frame.num())
        &&& lvl[self.p4_frame.num()] == 4
        &&& rd(m, self.p4_frame.num(), 511) == entry_encode(self.p4_frame.num(), flags_table())
        &&& self.p4_frame.num() < 0x100_0000_0000
    }

    /// Turn the given fresh frame into an empty inactive table: map it at the
    /// temporary page, zero it, and set its recursive slot; then unmap the
    /// temporary page again.  The intermediate tables created for the
    /// temporary page stay behind, so mapping it again later needs no frames.
    pub fn new(
        frame: Frame,
        active_table: &mut ActivePageTable,
        temporary_page: &mut TemporaryPage,
    ) -> (r: InactivePageTable)
        requires
            old(active_table).inv(),
            !old(active_table).mapper.mem@.contains_key(frame.num()),
            frame.num() < 0x100_0000_0000,
            page_canonical(old(temporary_page).page.num()),
            idx4(old(temporary_page).page.num()) != 511,
            old(temporary_page).page.num() * PAGE_SIZE <= u64::MAX,
            path_no_huge(
                old(active_table).mapper.mem@,
                old(active_table).mapper.cr3,
                old(temporary_page).page.num(),
            ),
            l1_slot(
                old(active_table).mapper.mem@,
                old(active_table).mapper.cr3,
                old(temporary_page).page.num(),
            ) == 0,
            old(temporary_page).allocator.wf(),
            old(temporary_page).allocator.avail().finite(),
            old(temporary_page).allocator.avail().disjoint(
                old(active_table).mapper.mem@.dom(),
            ),
            !old(temporary_page).allocator.avail().contains(frame.num()),
            forall|x: u64|
                old(temporary_page).allocator.avail().contains(x) ==> x < 0x100_0000_0000,
            old(temporary_page).allocator.avail().len() >= missing_tables(
                old(active_table).mapper.mem@,
                old(active_table).mapper.cr3,
                old(temporary_page).page.num(),
            ),
        ensures
            final(active_table).inv(),
            final(active_table).mapper.cr3 == old(active_table).mapper.cr3,
            lvl_extends(
                old(active_table).mapper.levels@,
                final(active_table).mapper.levels@,
            ),
            r.p4_frame.num() == frame.num(),
            r.ok(final(active_table).mapper.mem@, final(active_table).mapper.levels@),
            final(temporary_page).page == old(temporary_page).page,
            // the fresh table is empty but for the recursive slot
            forall|i: int|
                0 <= i < 512 && i != 511 ==> rd(
                    final(active_table).mapper.mem@,
                    frame.num(),
                    i,
                ) == 0,
            // the temporary page is unmapped again, and mapping it again
            // needs no further frames
            l1_slot(
                final(active_table).mapper.mem@,
                final(active_table).mapper.cr3,
                old(temporary_page).page.num(),
            ) == 0,
            path_no_huge(
                final(active_table).mapper.mem@,
                final(active_table).mapper.cr3,
                old(temporary_page).page.num(),
            ),
            missing_tables(
                final(active_table).mapper.mem@,
                final(active_table).mapper.cr3,
                old(temporary_page).page.num(),
            ) == 0,
            // every page but the temporary one translates as before
            forall|q: u64|
                page_canonical(q) && idx4(q) != 511 && q != old(temporary_page).page.num()
                    ==> spec_translate_page(
                    final(active_table).mapper.mem@,
                    final(active_table).mapper.cr3,
                    q,
                ) == spec_translate_page(
                    old(active_table).mapper.mem@,
                    old(active_table).mapper.cr3,
                    q,
                ) && l1_slot(
                    final(active_table).mapper.mem@,
                    final(active_table).mapper.cr3,
                    q,
                ) == l1_slot(old(active_table).mapper.mem@, old(active_table).mapper.cr3, q)
                    && (path_no_huge(
                    old(active_table).mapper.mem@,
                    old(active_table).mapper.cr3,
                    q,
                ) ==> path_no_huge(
                    final(active_table).mapper.mem@,
                    final(active_table).mapper.cr3,
                    q,
                )),
            // the new tables all came from the temporary page's allocator or
            // are the given frame
            forall|f: u64|
                final(active_table).mapper.mem@.contains_key(f) && !old(
                    active_table,
                ).mapper.mem@.contains_key(f) ==> old(temporary_page).allocator.avail().contains(
                    f,
                ) || f == frame.num(),
            final(temporary_page).allocator.wf(),
            final(temporary_page).allocator.avail().finite(),
            final(temporary_page).allocator.avail().disjoint(
                final(active_table).mapper.mem@.dom(),
            ),
            forall|x: u64|
                final(temporary_page).allocator.avail().contains(x) ==> x < 0x100_0000_0000
                    && old(temporary_page).allocator.avail().contains(x),
    {
        let ghost m0 = active_table.mapper.mem@;
        let ghost lvl0 = active_table.mapper.levels@;
        let ghost cr3 = active_table.mapper.cr3;
        let ghost tmp_n = temporary_page.page.num();
        let fnum = frame.number();
        // alias the fresh frame at the temporary page
        temporary_page.map(frame.clone(), active_table);
        let ghost m1 = active_table.mapper.mem@;
        let ghost lvl1 = active_table.mapper.levels@;
        // zero the table through the alias, and set its recursive slot
        active_table.mapper.mem.install_table(fnum);
        let mut entry = Entry::new(0);
        entry.set(Frame::from_number(fnum), EntryFlags::present().union(EntryFlags::writable()));
        active_table.mapper.mem.write(fnum, 511, entry.value());
        let ghost m2 = active_table.mapper.mem@;
        let ghost lvl2 = lvl1.insert(fnum, 4int);
        proof {
            active_table.mapper.levels@ = lvl2;
            lemma_install_l4_preserves_inv(m1, m2, cr3, lvl1, lvl2, fnum);
            // the temporary page is still mapped: its walk never touches the
            // fresh frame
            assert forall|i: int| 0 <= i < 512 && i != 511 implies rd(m2, fnum, i) == 0 by {}
            assert(rd(m2, cr3, 511) == rd(m1, cr3, 511));
            assert(rd(m2, cr3, idx4(tmp_n) as int) == rd(m1, cr3, idx4(tmp_n) as int));
            assert(p3_of(m2, cr3, tmp_n) == p3_of(m1, cr3, tmp_n));
            assert(rd(m2, p3_of(m1, cr3, tmp_n), idx3(tmp_n) as int) == rd(
                m1,
                p3_of(m1, cr3, tmp_n),
                idx3(tmp_n) as int,
            )) by {
                crate::page::lemma_idx_range(tmp_n);
                assert(is_branch_cell(m1, lvl1, cr3, idx4(tmp_n) as int));
                assert(child_ok(m1, lvl1, cr3, idx4(tmp_n) as int));
            }
            assert(rd(m2, p2_of(m1, cr3, tmp_n), idx2(tmp_n) as int) == rd(
                m1,
                p2_of(m1, cr3, tmp_n),
                idx2(tmp_n) as int,
            )) by {
                crate::page::lemma_idx_range(tmp_n);
                assert(is_branch_cell(m1, lvl1, cr3, idx4(tmp_n) as int));
                assert(child_ok(m1, lvl1, cr3, idx4(tmp_n) as int));
                assert(is_branch_cell(m1, lvl1, p3_of(m1, cr3, tmp_n), idx3(tmp_n) as int));
                assert(child_ok(m1, lvl1, p3_of(m1, cr3, tmp_n), idx3(tmp_n) as int));
            }
            assert(rd(m2, p1_of(m1, cr3, tmp_n), idx1(tmp_n) as int) == rd(
                m1,
                p1_of(m1, cr3, tmp_n),
                idx1(tmp_n) as int,
            )) by {
                crate::page::lemma_idx_range(tmp_n);
                assert(is_branch_cell(m1, lvl1, cr3, idx4(tmp_n) as int));
                assert(child_ok(m1, lvl1, cr3, idx4(tmp_n) as int));
                assert(is_branch_cell(m1, lvl1, p3_of(m1, cr3, tmp_n), idx3(tmp_n) as int));
                assert(child_ok(m1, lvl1, p3_of(m1, cr3, tmp_n), idx3(tmp_n) as int));
                assert(is_branch_cell(m1, lvl1, p2_of(m1, cr3, tmp_n), idx2(tmp_n) as int));
                assert(child_ok(m1, lvl1, p2_of(m1, cr3, tmp_n), idx2(tmp_n) as int));
            }
            assert(path_complete(m2, cr3, tmp_n));
            assert(l1e(m2, cr3, tmp_n) == l1e(m1, cr3, tmp_n));
            crate::page::lemma_idx_range(tmp_n);
        }
        // drop the alias again
        temporary_page.unmap(active_table);
        proof {
            let m3 = active_table.mapper.mem@;
            crate::entry::lemma_present_nonzero(0);
            assert(rd(m3, fnum, 511) == rd(m2, fnum, 511));
            assert forall|i: int| 0 <= i < 512 && i != 511 implies rd(m3, fnum, i) == 0 by {
                if !(fnum == p1_of(m2, cr3, tmp_n) && i == idx1(tmp_n) as int) {
                    assert(rd(m3, fnum, i) == rd(m2, fnum, i));
                } else {
                    assert(rd(m3, fnum, i) == 0) by {
                        assert(l1e(m3, cr3, tmp_n) == 0);
                        assert(p1_of(m3, cr3, tmp_n) == p1_of(m2, cr3, tmp_n));
                    }
                }
            }
            // the temporary page ends unmapped with its tables in place
            assert(rd(m3, cr3, idx4(tmp_n) as int) == rd(m2, cr3, idx4(tmp_n) as int)) by {
                assert(inv_at(m2, cr3, lvl2));
                assert(is_branch_cell(m2, lvl2, cr3, idx4(tmp_n) as int));
                assert(child_ok(m2, lvl2, cr3, idx4(tmp_n) as int));
                assert(lvl2[p1_of(m2, cr3, tmp_n)] == 1) by {
                    assert(is_branch_cell(m2, lvl2, p3_of(m2, cr3, tmp_n), idx3(tmp_n) as int));
                    assert(child_ok(m2, lvl2, p3_of(m2, cr3, tmp_n), idx3(tmp_n) as int));
                    assert(is_branch_cell(m2, lvl2, p2_of(m2, cr3, tmp_n), idx2(tmp_n) as int));
                    assert(child_ok(m2, lvl2, p2_of(m2, cr3, tmp_n), idx2(tmp_n) as int));
                }
            }
            assert(path_complete(m3, cr3, tmp_n) && l1e(m3, cr3, tmp_n) == 0) by {
                assert(lvl2[p1_of(m2, cr3, tmp_n)] == 1) by {
                    assert(is_branch_cell(m2, lvl2, cr3, idx4(tmp_n) as int));
                    assert(child_ok(m2, lvl2, cr3, idx4(tmp_n) as int));
                    assert(is_branch_cell(m2, lvl2, p3_of(m2, cr3, tmp_n), idx3(tmp_n) as int));
                    assert(child_ok(m2, lvl2, p3_of(m2, cr3, tmp_n), idx3(tmp_n) as int));
                    assert(is_branch_cell(m2, lvl2, p2_of(m2, cr3, tmp_n), idx2(tmp_n) as int));
                    assert(child_ok(m2, lvl2, p2_of(m2, cr3, tmp_n), idx2(tmp_n) as int));
                }
                assert(rd(m3, p3_of(m2, cr3, tmp_n), idx3(tmp_n) as int) == rd(
                    m2,
                    p3_of(m2, cr3, tmp_n),
                    idx3(tmp_n) as int,
                ));
                assert(rd(m3, p2_of(m2, cr3, tmp_n), idx2(tmp_n) as int) == rd(
                    m2,
                    p2_of(m2, cr3, tmp_n),
                    idx2(tmp_n) as int,
                ));
            }
            assert(l1_slot(m3, cr3, tmp_n) == 0);
            assert(missing_tables(m3, cr3, tmp_n) == 0);
            // other pages translate as before, through all three steps
            assert forall|q: u64|
                page_canonical(q) && idx4(q) != 511 && q != tmp_n implies spec_translate_page(
                m3,
                cr3,
                q,
            ) == spec_translate_page(m0, cr3, q) && l1_slot(m3, cr3, q) == l1_slot(m0, cr3, q) && (
            path_no_huge(m0, cr3, q) ==> path_no_huge(m3, cr3, q)) by {
                crate::walk::lemma_mapped_at_preserves_other(
                    m0,
                    m1,
                    cr3,
                    lvl0,
                    lvl1,
                    cr3,
                    tmp_n,
                    fnum,
                    crate::entry::FLAG_WRITABLE,
                    q,
                );
                lemma_offwalk_change_preserves(m1, m2, cr3, lvl1, lvl2, cr3, q);
                crate::walk::lemma_l1_cell_preserves_other(m2, m3, cr3, lvl2, cr3, tmp_n, q);
            }
        }
        InactivePageTable { p4_frame: frame }
    }
}

/// Installing a fresh level-4 table (zeros plus a self-pointing recursive
/// slot) in an unmodelled frame preserves the hierarchy invariant.
proof fn lemma_install_l4_preserves_inv(
    m1: Map<u64, Seq<u64>>,
    m2: Map<u64, Seq<u64>>,
    cr3: u64,
    lvl1: Map<u64, int>,
    lvl2: Map<u64, int>,
    fnum: u64,
)
    requires
        inv_at(m1, cr3, lvl1),
        !m1.contains_key(fnum),
        fnum < 0x100_0000_0000,
        lvl2 == lvl1.insert(fnum, 4int),
        m2 == m1.insert(fnum, Seq::new(512, |i: int| 0u64)).insert(
            fnum,
            Seq::new(512, |i: int| 0u64).update(511, entry_encode(fnum, flags_table())),
        ),
    ensures
        inv_at(m2, cr3, lvl2),
        lvl_extends(lvl1, lvl2),
        forall|f: u64, i: int| f != fnum ==> rd(m2, f, i) == rd(m1, f, i),
        rd(m2, fnum, 511) == entry_encode(fnum, flags_table()),
        forall|i: int| 0 <= i < 512 && i != 511 ==> rd(m2, fnum, i) == 0,
        m2.dom() == m1.dom().insert(fnum),
{
    lemma_flags_table_bits();
    lemma_entry_encode(fnum, flags_table());
    crate::entry::lemma_present_nonzero(0);
    assert(m2.dom() =~= m1.dom().insert(fnum));
    assert forall|f: u64, i: int| f != fnum implies rd(m2, f, i) == rd(m1, f, i) by {}
    let r = entry_frame(rd(m1, cr3, 511));
    assert(rd(m2, cr3, 511) == rd(m1, cr3, 511));
    assert(rd(m2, r, 511) == rd(m1, r, 511));
    assert forall|f: u64, i: int| is_branch_cell(m2, lvl2, f, i) implies #[trigger] child_ok(
        m2,
        lvl2,
        f,
        i,
    ) by {
        if f == fnum {
            assert(i != 511 ==> m2[fnum][i] == 0);
        } else {
            assert(m2[f][i] == m1[f][i]);
            assert(is_branch_cell(m1, lvl1, f, i));
            assert(child_ok(m1, lvl1, f, i));
            if steps_down(m1[f][i]) {
                assert(m1.contains_key(entry_frame(m1[f][i])));
            }
        }
    }
    assert forall|f: u64, i: int, g: u64, j: int|
        is_branch_cell(m2, lvl2, f, i) && is_branch_cell(m2, lvl2, g, j) && steps_down(
            #[trigger] m2[f][i],
        ) && steps_down(#[trigger] m2[g][j]) && entry_frame(m2[f][i]) == entry_frame(
            m2[g][j],
        ) implies f == g && i == j by {
        if f == fnum {
            assert(i != 511 && m2[fnum][i] == 0);
        } else if g == fnum {
            assert(j != 511 && m2[fnum][j] == 0);
        } else {
            assert(m2[f][i] == m1[f][i] && m2[g][j] == m1[g][j]);
            assert(is_branch_cell(m1, lvl1, f, i) && is_branch_cell(m1, lvl1, g, j));
        }
    }
    assert forall|f: u64, i: int|
        m2.contains_key(f) && 0 <= i < 512 && (lvl2[f] == 3 || lvl2[f] == 2) && entry_present(
            #[trigger] m2[f][i],
        ) && entry_huge(m2[f][i]) implies (m1.contains_key(f) && m1[f][i] == m2[f][i] && lvl1[f]
        == lvl2[f]) by {
        assert(f != fnum);
        assert(m2[f][i] == m1[f][i]);
    }
}

use crate::entry::entry_huge;

/// A change that only touches unmodelled frames or slot 511 of level-4
/// tables is invisible to every walk that avoids the recursive window.
proof fn lemma_offwalk_change_preserves(
    m1: Map<u64, Seq<u64>>,
    m2: Map<u64, Seq<u64>>,
    cr3: u64,
    lvl1: Map<u64, int>,
    lvl2: Map<u64, int>,
    root: u64,
    q: u64,
)
    requires
        inv_at(m1, cr3, lvl1),
        lvl_extends(lvl1, lvl2),
        m1.contains_key(root),
        lvl1[root] == 4,
        idx4(q) != 511,
        forall|f: u64, i: int|
            m1.contains_key(f) && !(lvl1[f] == 4 && i == 511) ==> rd(m2, f, i) == rd(m1, f, i),
    ensures
        spec_translate_page(m2, root, q) == spec_translate_page(m1, root, q),
        l1_slot(m2, root, q) == l1_slot(m1, root, q),
        path_no_huge(m2, root, q) == path_no_huge(m1, root, q),
{
    crate::page::lemma_idx_range(q);
    assert(l4e(m2, root, q) == l4e(m1, root, q));
    let e4q = l4e(m1, root, q);
    if steps_down(e4q) {
        let p3q = p3_of(m1, root, q);
        assert(is_branch_cell(m1, lvl1, root, idx4(q) as int));
        assert(child_ok(m1, lvl1, root, idx4(q) as int));
        assert(m1.contains_key(p3q) && lvl1[p3q] == 3);
        assert(l3e(m2, root, q) == l3e(m1, root, q));
        let e3q = l3e(m1, root, q);
        if steps_down(e3q) {
            let p2q = p2_of(m1, root, q);
            assert(is_branch_cell(m1, lvl1, p3q, idx3(q) as int));
            assert(child_ok(m1, lvl1, p3q, idx3(q) as int));
            assert(m1.contains_key(p2q) && lvl1[p2q] == 2);
            assert(l2e(m2, root, q) == l2e(m1, root, q));
            let e2q = l2e(m1, root, q);
            if steps_down(e2q) {
                let p1q = p1_of(m1, root, q);
                assert(is_branch_cell(m1, lvl1, p2q, idx2(q) as int));
                assert(child_ok(m1, lvl1, p2q, idx2(q) as int));
                assert(m1.contains_key(p1q) && lvl1[p1q] == 1);
                assert(l1e(m2, root, q) == l1e(m1, root, q));
            }
        }
    }
}

/// The currently installed set of page tables, reached only through the
/// recursive slot.
pub struct ActivePageTable {
    /// The machine state the table operates on.
    pub mapper: Mapper,
}

impl ActivePageTable {
    /// Well-formedness of the active table: the hierarchy invariant holds
    /// and the recursive slot of the installed table points at that very
    /// table, so edits reach the active hierarchy.
    pub open spec fn inv(self) -> bool {
        &&& self.mapper.inv()
        &&& self.mapper.root() == self.mapper.cr3
    }

    /// The active table over the given machine state.
    pub fn new(mapper: Mapper) -> (r: ActivePageTable)
        ensures
            r.mapper == mapper,
    {
        ActivePageTable { mapper }
    }

    /// Begin editing an inactive table: map the current level-4 table at the
    /// temporary page so it stays reachable, then point the recursive slot at
    /// the inactive table.  Until `with_end`, every mapper edit lands in the
    /// inactive hierarchy, while the installed translations stay as they are.
    /// Returns the frame of the current level-4 table, the backup.
    pub fn with_begin(
        &mut self,
        table: &InactivePageTable,
        temporary_page: &mut TemporaryPage,
    ) -> (backup: Frame)
        requires
            old(self).inv(),
            table.ok(old(self).mapper.mem@, old(self).mapper.levels@),
            table.p4_frame.num() != old(self).mapper.cr3,
            page_canonical(old(temporary_page).page.num()),
            idx4(old(temporary_page).page.num()) != 511,
            old(temporary_page).page.num() * PAGE_SIZE <= u64::MAX,
            path_no_huge(
                old(self).mapper.mem@,
                old(self).mapper.cr3,
                old(temporary_page).page.num(),
            ),
            l1_slot(
                old(self).mapper.mem@,
                old(self).mapper.cr3,
                old(temporary_page).page.num(),
            ) == 0,
            old(temporary_page).allocator.wf(),
            old(temporary_page).allocator.avail().finite(),
            old(temporary_page).allocator.avail().disjoint(old(self).mapper.mem@.dom()),
            forall|x: u64|
                old(temporary_page).allocator.avail().contains(x) ==> x < 0x100_0000_0000,
            old(temporary_page).allocator.avail().len() >= missing_tables(
                old(self).mapper.mem@,
                old(self).mapper.cr3,
                old(temporary_page).page.num(),
            ),
        ensures
            backup.num() == old(self).mapper.cr3,
            final(self).mapper.cr3 == old(self).mapper.cr3,
            final(self).mapper.inv(),
            // edits now land in the inactive hierarchy
            final(self).mapper.root() == table.p4_frame.num(),
            final(temporary_page).page == old(temporary_page).page,
            lvl_extends(old(self).mapper.levels@, final(self).mapper.levels@),
            // the temporary page aliases the backup, with a complete walk
            path_complete(
                final(self).mapper.mem@,
                final(self).mapper.cr3,
                old(temporary_page).page.num(),
            ),
            entry_present(
                l1e(
                    final(self).mapper.mem@,
                    final(self).mapper.cr3,
                    old(temporary_page).page.num(),
                ),
            ),
            // the installed translations are untouched
            forall|q: u64|
                page_canonical(q) && idx4(q) != 511 && q != old(temporary_page).page.num()
                    ==> spec_translate_page(
                    final(self).mapper.mem@,
                    final(self).mapper.cr3,
                    q,
                ) == spec_translate_page(old(self).mapper.mem@, old(self).mapper.cr3, q)
                    && l1_slot(final(self).mapper.mem@, final(self).mapper.cr3, q) == l1_slot(
                    old(self).mapper.mem@,
                    old(self).mapper.cr3,
                    q,
                ) && (path_no_huge(old(self).mapper.mem@, old(self).mapper.cr3, q)
                    ==> path_no_huge(final(self).mapper.mem@, final(self).mapper.cr3, q)),
            // at the cell level, only the temporary-page path and the
            // recursive slot have changed
            forall|f: u64, i: int|
                !crate::walk::on_path(
                    final(self).mapper.mem@,
                    final(self).mapper.cr3,
                    old(temporary_page).page.num(),
                    f,
                    i,
                ) && !(f == final(self).mapper.cr3 && i == 511) ==> rd(
                    final(self).mapper.mem@,
                    f,
                    i,
                ) == rd(old(self).mapper.mem@, f, i),
            forall|f: u64|
                final(self).mapper.mem@.contains_key(f) && !old(self).mapper.mem@.contains_key(f)
                    ==> old(temporary_page).allocator.avail().contains(f),
            final(temporary_page).allocator.wf(),
            final(temporary_page).allocator.avail().finite(),
            final(temporary_page).allocator.avail().disjoint(final(self).mapper.mem@.dom()),
            forall|x: u64|
                final(temporary_page).allocator.avail().contains(x) ==> x < 0x100_0000_0000
                    && old(temporary_page).allocator.avail().contains(x),
    {
        let ghost m0 = self.mapper.mem@;
        let ghost lvl0 = self.mapper.levels@;
        let ghost cr3 = self.mapper.cr3;
        let ghost tmp_n = temporary_page.page.num();
        proof {
            lemma_entry_frame_bound(rd(m0, cr3, 511));
        }
        // back up the current level-4 frame and keep it reachable through
        // the temporary page
        let backup = Frame::from_number(self.mapper.cr3);
        temporary_page.map(backup.clone(), self);
        let ghost m1 = self.mapper.mem@;
        let ghost lvl1 = self.mapper.levels@;
        // point the recursive slot at the inactive table
        let mut entry = Entry::new(0);
        entry.set(
            table.p4_frame.clone(),
            EntryFlags::present().union(EntryFlags::writable()),
        );
        self.mapper.mem.write(self.cr3_frame(), 511, entry.value());
        proof {
            let m2 = self.mapper.mem@;
            let tnum = table.p4_frame.num();
            crate::page::lemma_idx_range(tmp_n);
            assert(rd(m1, tnum, 511) == rd(m0, tnum, 511)) by {
                assert(lvl1[tnum] == 4);
                assert(is_branch_cell(m1, lvl1, cr3, idx4(tmp_n) as int));
                assert(child_ok(m1, lvl1, cr3, idx4(tmp_n) as int));
                assert(lvl1[p3_of(m1, cr3, tmp_n)] == 3);
                assert(is_branch_cell(m1, lvl1, p3_of(m1, cr3, tmp_n), idx3(tmp_n) as int));
                assert(child_ok(m1, lvl1, p3_of(m1, cr3, tmp_n), idx3(tmp_n) as int));
                assert(lvl1[p2_of(m1, cr3, tmp_n)] == 2);
                assert(is_branch_cell(m1, lvl1, p2_of(m1, cr3, tmp_n), idx2(tmp_n) as int));
                assert(child_ok(m1, lvl1, p2_of(m1, cr3, tmp_n), idx2(tmp_n) as int));
                assert(lvl1[p1_of(m1, cr3, tmp_n)] == 1);
                assert(!crate::walk::on_path(m1, cr3, tmp_n, tnum, 511));
            }
            lemma_recslot_write_preserves_inv(m1, m2, cr3, lvl1, tnum);
            lemma_flags_table_bits();
            lemma_entry_encode(tnum, flags_table());
            crate::page::lemma_idx_range(tmp_n);
            // the temporary-page walk reads no level-4 slot 511
            assert(path_complete(m2, cr3, tmp_n) && l1e(m2, cr3, tmp_n) == l1e(m1, cr3, tmp_n))
                by {
                assert(rd(m2, cr3, idx4(tmp_n) as int) == rd(m1, cr3, idx4(tmp_n) as int));
                assert(is_branch_cell(m1, lvl1, cr3, idx4(tmp_n) as int));
                assert(child_ok(m1, lvl1, cr3, idx4(tmp_n) as int));
                assert(is_branch_cell(m1, lvl1, p3_of(m1, cr3, tmp_n), idx3(tmp_n) as int));
                assert(child_ok(m1, lvl1, p3_of(m1, cr3, tmp_n), idx3(tmp_n) as int));
                assert(is_branch_cell(m1, lvl1, p2_of(m1, cr3, tmp_n), idx2(tmp_n) as int));
                assert(child_ok(m1, lvl1, p2_of(m1, cr3, tmp_n), idx2(tmp_n) as int));
            }
            assert(entry_present(l1e(m2, cr3, tmp_n))) by {
                let b = crate::entry::FLAG_WRITABLE | crate::entry::FLAG_PRESENT;
                assert((0x2u64 | 0x1u64) & 0x8000_0000_0000_01ffu64 == (0x2u64 | 0x1u64) && (0x2u64
                    | 0x1u64) & 0x1u64 == 0x1u64) by (bit_vector);
                lemma_entry_encode(backup.num(), b);
            }
            assert forall|q: u64|
                page_canonical(q) && idx4(q) != 511 && q != tmp_n implies spec_translate_page(
                m2,
                cr3,
                q,
            ) == spec_translate_page(m0, cr3, q) && l1_slot(m2, cr3, q) == l1_slot(m0, cr3, q) && (
            path_no_huge(m0, cr3, q) ==> path_no_huge(m2, cr3, q)) by {
                crate::walk::lemma_mapped_at_preserves_other(
                    m0,
                    m1,
                    cr3,
                    lvl0,
                    lvl1,
                    cr3,
                    tmp_n,
                    backup.num(),
                    crate::entry::FLAG_WRITABLE,
                    q,
                );
                lemma_offwalk_change_preserves(m1, m2, cr3, lvl1, lvl1, cr3, q);
            }
            assert(p3_of(m2, cr3, tmp_n) == p3_of(m1, cr3, tmp_n) && p2_of(m2, cr3, tmp_n)
                == p2_of(m1, cr3, tmp_n) && p1_of(m2, cr3, tmp_n) == p1_of(m1, cr3, tmp_n)) by {
                crate::page::lemma_idx_range(tmp_n);
                assert(rd(m2, cr3, idx4(tmp_n) as int) == rd(m1, cr3, idx4(tmp_n) as int));
                assert(is_branch_cell(m1, lvl1, cr3, idx4(tmp_n) as int));
                assert(child_ok(m1, lvl1, cr3, idx4(tmp_n) as int));
                assert(is_branch_cell(m1, lvl1, p3_of(m1, cr3, tmp_n), idx3(tmp_n) as int));
                assert(child_ok(m1, lvl1, p3_of(m1, cr3, tmp_n), idx3(tmp_n) as int));
                assert(is_branch_cell(m1, lvl1, p2_of(m1, cr3, tmp_n), idx2(tmp_n) as int));
                assert(child_ok(m1, lvl1, p2_of(m1, cr3, tmp_n), idx2(tmp_n) as int));
            }
            assert forall|f: u64, i: int|
                !crate::walk::on_path(m2, cr3, tmp_n, f, i) && !(f == cr3 && i == 511) implies rd(
                m2,
                f,
                i,
            ) == rd(m0, f, i) by {
                assert(!crate::walk::on_path(m1, cr3, tmp_n, f, i));
                assert(rd(m1, f, i) == rd(m0, f, i));
                assert(rd(m2, f, i) == rd(m1, f, i));
            }
        }
        backup
    }

    /// End an inactive-table edit: restore the recursive slot of the (still
    /// installed) level-4 table through the temporary alias, and unmap the
    /// temporary page.
    pub fn with_end(&mut self, temporary_page: &mut TemporaryPage)
        requires
            old(self).mapper.inv(),
            old(self).mapper.cr3 < 0x100_0000_0000,
            page_canonical(old(temporary_page).page.num()),
            idx4(old(temporary_page).page.num()) != 511,
            path_complete(
                old(self).mapper.mem@,
                old(self).mapper.cr3,
                old(temporary_page).page.num(),
            ),
            entry_present(
                l1e(
                    old(self).mapper.mem@,
                    old(self).mapper.cr3,
                    old(temporary_page).page.num(),
                ),
            ),
        ensures
            final(self).inv(),
            final(self).mapper.cr3 == old(self).mapper.cr3,
            final(self).mapper.levels@ == old(self).mapper.levels@,
            final(temporary_page).page == old(temporary_page).page,
            *final(temporary_page) == *old(temporary_page),
            // the temporary page is unmapped again
            spec_translate_page(
                final(self).mapper.mem@,
                final(self).mapper.cr3,
                old(temporary_page).page.num(),
            ) is None,
            l1_slot(
                final(self).mapper.mem@,
                final(self).mapper.cr3,
                old(temporary_page).page.num(),
            ) == 0,
            // every other page translates as it did, in the installed tables
            forall|q: u64|
                page_canonical(q) && idx4(q) != 511 && q != old(temporary_page).page.num()
                    ==> spec_translate_page(
                    final(self).mapper.mem@,
                    final(self).mapper.cr3,
                    q,
                ) == spec_translate_page(old(self).mapper.mem@, old(self).mapper.cr3, q)
                    && l1_slot(final(self).mapper.mem@, final(self).mapper.cr3, q) == l1_slot(
                    old(self).mapper.mem@,
                    old(self).mapper.cr3,
                    q,
                ) && (path_no_huge(old(self).mapper.mem@, old(self).mapper.cr3, q)
                    ==> path_no_huge(final(self).mapper.mem@, final(self).mapper.cr3, q)),
            final(self).mapper.mem@.dom() == old(self).mapper.mem@.dom(),
            // the hierarchy that was being edited is untouched
            forall|q: u64|
                idx4(q) != 511 && old(self).mapper.root() != old(self).mapper.cr3
                    ==> spec_translate_page(
                    final(self).mapper.mem@,
                    old(self).mapper.root(),
                    q,
                ) == spec_translate_page(old(self).mapper.mem@, old(self).mapper.root(), q)
                    && l1_slot(final(self).mapper.mem@, old(self).mapper.root(), q) == l1_slot(
                    old(self).mapper.mem@,
                    old(self).mapper.root(),
                    q,
                ) && path_no_huge(final(self).mapper.mem@, old(self).mapper.root(), q)
                    == path_no_huge(old(self).mapper.mem@, old(self).mapper.root(), q),
            // the recursive slot of every other level-4 table is untouched
            forall|f: u64|
                old(self).mapper.mem@.contains_key(f) && old(self).mapper.levels@[f] == 4 && f
                    != old(self).mapper.cr3 ==> rd(final(self).mapper.mem@, f, 511) == rd(
                    old(self).mapper.mem@,
                    f,
                    511,
                ),
    {
        let ghost m0 = self.mapper.mem@;
        let ghost lvl0 = self.mapper.levels@;
        let ghost cr3 = self.mapper.cr3;
        let ghost tmp_n = temporary_page.page.num();
        // restore the recursive mapping: write, through the temporary alias,
        // the backed-up frame into slot 511 of the installed table
        let cr3f = self.cr3_frame();
        let mut entry = Entry::new(0);
        entry.set(
            Frame::from_number(cr3f),
            EntryFlags::present().union(EntryFlags::writable()),
        );
        self.mapper.mem.write(cr3f, 511, entry.value());
        let ghost m1 = self.mapper.mem@;
        proof {
            lemma_recslot_write_preserves_inv(m0, m1, cr3, lvl0, cr3);
            lemma_flags_table_bits();
            lemma_entry_encode(cr3, flags_table());
            crate::page::lemma_idx_range(tmp_n);
            assert(entry_frame(rd(m1, cr3, 511)) == cr3);
            // the temporary page is still mapped: its walk reads no slot 511
            assert(path_complete(m1, cr3, tmp_n) && l1e(m1, cr3, tmp_n) == l1e(m0, cr3, tmp_n))
                by {
                assert(rd(m1, cr3, idx4(tmp_n) as int) == rd(m0, cr3, idx4(tmp_n) as int));
                assert(is_branch_cell(m0, lvl0, cr3, idx4(tmp_n) as int));
                assert(child_ok(m0, lvl0, cr3, idx4(tmp_n) as int));
                assert(is_branch_cell(m0, lvl0, p3_of(m0, cr3, tmp_n), idx3(tmp_n) as int));
                assert(child_ok(m0, lvl0, p3_of(m0, cr3, tmp_n), idx3(tmp_n) as int));
                assert(is_branch_cell(m0, lvl0, p2_of(m0, cr3, tmp_n), idx2(tmp_n) as int));
                assert(child_ok(m0, lvl0, p2_of(m0, cr3, tmp_n), idx2(tmp_n) as int));
            }
        }
        temporary_page.unmap(self);
        proof {
            let m2 = self.mapper.mem@;
            assert forall|q: u64|
                page_canonical(q) && idx4(q) != 511 && q != tmp_n implies spec_translate_page(
                m2,
                cr3,
                q,
            ) == spec_translate_page(m0, cr3, q) && l1_slot(m2, cr3, q) == l1_slot(m0, cr3, q) && (
            path_no_huge(m0, cr3, q) ==> path_no_huge(m2, cr3, q)) by {
                lemma_offwalk_change_preserves(m0, m1, cr3, lvl0, lvl0, cr3, q);
                crate::walk::lemma_l1_cell_preserves_other(m1, m2, cr3, lvl0, cr3, tmp_n, q);
            }
            assert forall|f: u64|
                m0.contains_key(f) && lvl0[f] == 4 && f != cr3 implies rd(m2, f, 511) == rd(
                m0,
                f,
                511,
            ) by {
                assert(rd(m1, f, 511) == rd(m0, f, 511));
                crate::walk::lemma_path_typed(m1, cr3, lvl0, cr3, tmp_n);
                assert(lvl0[p1_of(m1, cr3, tmp_n)] == 1);
                assert(rd(m2, f, 511) == rd(m1, f, 511));
            }
            let oldroot = entry_frame(rd(m0, cr3, 511));
            if oldroot != cr3 {
                assert forall|q: u64| idx4(q) != 511 implies spec_translate_page(
                    m2,
                    oldroot,
                    q,
                ) == spec_translate_page(m0, oldroot, q) && l1_slot(m2, oldroot, q) == l1_slot(
                    m0,
                    oldroot,
                    q,
                ) && path_no_huge(m2, oldroot, q) == path_no_huge(m0, oldroot, q) by {
                    lemma_offwalk_change_preserves(m0, m1, cr3, lvl0, lvl0, oldroot, q);
                    assert(path_complete(m1, cr3, tmp_n) && p1_of(m1, cr3, tmp_n) == p1_of(
                        m0,
                        cr3,
                        tmp_n,
                    )) by {
                        crate::page::lemma_idx_range(tmp_n);
                        assert(rd(m1, cr3, idx4(tmp_n) as int) == rd(m0, cr3, idx4(tmp_n) as int));
                        assert(is_branch_cell(m0, lvl0, cr3, idx4(tmp_n) as int));
                        assert(child_ok(m0, lvl0, cr3, idx4(tmp_n) as int));
                        assert(is_branch_cell(m0, lvl0, p3_of(m0, cr3, tmp_n), idx3(tmp_n) as int));
                        assert(child_ok(m0, lvl0, p3_of(m0, cr3, tmp_n), idx3(tmp_n) as int));
                        assert(is_branch_cell(m0, lvl0, p2_of(m0, cr3, tmp_n), idx2(tmp_n) as int));
                        assert(child_ok(m0, lvl0, p2_of(m0, cr3, tmp_n), idx2(tmp_n) as int));
                    }
                    crate::walk::lemma_l1_cell_preserves_other_root(
                        m1,
                        m2,
                        cr3,
                        lvl0,
                        cr3,
                        oldroot,
                        tmp_n,
                        q,
                    );
                }
            }
        }
    }

    /// Install an inactive table: write its frame to the control register.
    /// The previous table keeps existing as a plain frame, returned as a new
    /// inactive table.
    pub fn switch(&mut self, new_table: InactivePageTable) -> (old_table: InactivePageTable)
        requires
            old(self).inv(),
            new_table.ok(old(self).mapper.mem@, old(self).mapper.levels@),
            old(self).mapper.cr3 < 0x100_0000_0000,
        ensures
            final(self).inv(),
            final(self).mapper.cr3 == new_table.p4_frame.num(),
            final(self).mapper.mem@ == old(self).mapper.mem@,
            final(self).mapper.levels@ == old(self).mapper.levels@,
            old_table.p4_frame.num() == old(self).mapper.cr3,
            old_table.ok(final(self).mapper.mem@, final(self).mapper.levels@),
    {
        let old_table = InactivePageTable { p4_frame: Frame::from_number(self.cr3_frame()) };
        self.mapper.cr3 = new_table.p4_frame.number();
        proof {
            lemma_flags_table_bits();
            lemma_entry_encode(new_table.p4_frame.num(), flags_table());
            lemma_entry_encode(old_table.p4_frame.num(), flags_table());
        }
        old_table
    }

    /// The frame number of the installed level-4 table, as a plain value:
    /// the model's reading of the control register.
    fn cr3_frame(&self) -> (r: u64)
        ensures
            r == self.mapper.cr3,
    {
        self.mapper.cr3
    }
}

/// Redirecting slot 511 of a level-4 table to another well-formed level-4
/// table preserves the hierarchy invariant, as restoring it does.
proof fn lemma_recslot_write_preserves_inv(
    m1: Map<u64, Seq<u64>>,
    m2: Map<u64, Seq<u64>>,
    cr3: u64,
    lvl: Map<u64, int>,
    target: u64,
)
    requires
        inv_at(m1, cr3, lvl),
        m1.contains_key(target),
        lvl[target] == 4,
        target == cr3 || rd(m1, target, 511) == entry_encode(target, flags_table()),
        target < 0x100_0000_0000,
        m2 == m1.insert(cr3, m1[cr3].update(511, entry_encode(target, flags_table()))),
    ensures
        inv_at(m2, cr3, lvl),
        forall|f: u64, i: int| !(f == cr3 && i == 511) ==> rd(m2, f, i) == rd(m1, f, i),
        rd(m2, cr3, 511) == entry_encode(target, flags_table()),
        entry_frame(rd(m2, cr3, 511)) == target,
        m2.dom() == m1.dom(),
        forall|f: u64, i: int|
            m1.contains_key(f) && !(lvl[f] == 4 && i == 511) ==> rd(m2, f, i) == rd(m1, f, i),
{
    lemma_flags_table_bits();
    lemma_entry_encode(target, flags_table());
    assert(m2.dom() =~= m1.dom());
    assert forall|f: u64, i: int| !(f == cr3 && i == 511) implies rd(m2, f, i) == rd(m1, f, i) by {}
    assert(rd(m2, target, 511) == rd(m1, target, 511) || target == cr3);
    assert forall|f: u64, i: int| is_branch_cell(m2, lvl, f, i) implies #[trigger] child_ok(
        m2,
        lvl,
        f,
        i,
    ) by {
        assert(!(f == cr3 && i == 511));
        assert(m2[f][i] == m1[f][i]);
        assert(is_branch_cell(m1, lvl, f, i));
        assert(child_ok(m1, lvl, f, i));
    }
    assert forall|f: u64, i: int, g: u64, j: int|
        is_branch_cell(m2, lvl, f, i) && is_branch_cell(m2, lvl, g, j) && steps_down(
            #[trigger] m2[f][i],
        ) && steps_down(#[trigger] m2[g][j]) && entry_frame(m2[f][i]) == entry_frame(
            m2[g][j],
        ) implies f == g && i == j by {
        assert(m2[f][i] == m1[f][i] && m2[g][j] == m1[g][j]);
        assert(is_branch_cell(m1, lvl, f, i) && is_branch_cell(m1, lvl, g, j));
    }
    assert forall|f: u64, i: int|
        m2.contains_key(f) && 0 <= i < 512 && (lvl[f] == 3 || lvl[f] == 2) && entry_present(
            #[trigger] m2[f][i],
        ) && entry_huge(m2[f][i]) implies (m1[f][i] == m2[f][i]) by {
        assert(!(f == cr3 && i == 511));
    }
}

} // verus!
