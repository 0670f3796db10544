//! The recursive mapper: translation and mapping over the modelled machine.
//!
//! The mapper owns the modelled physical memory and the control-register
//! frame.  It never reaches a table by an owned pointer: every operation
//! starts from the edit root, the level-4 table that slot 511 of the `cr3`
//! table points at.  Normally that slot points at the `cr3` table itself; the
//! inactive-table protocol redirects it temporarily.

use vstd::prelude::*;

verus! {

use crate::PAGE_SIZE;
use crate::entry::Entry;
use crate::entry::EntryFlags;
use crate::entry::ENTRY_ADDR_MASK;
use crate::entry::FLAG_PRESENT;
use crate::entry::FLAG_WRITABLE;
use crate::entry::entry_present;
use crate::entry::entry_huge;
use crate::entry::entry_frame;
use crate::entry::entry_encode;
use crate::entry::lemma_entry_frame_bound;
use crate::entry::lemma_entry_encode;
use crate::frame::Frame;
use crate::frame::FrameAllocator;
use crate::page::Page;
use crate::page::idx4;
use crate::page::idx3;
use crate::page::idx2;
use crate::page::idx1;
use crate::page::page_canonical;
use crate::page::addr_canonical;
use crate::phys::PhysMemory;
use crate::phys::rd;
use crate::walk::flags_table;
use crate::walk::lemma_flags_table_bits;
use crate::walk::l4e;
use crate::walk::l3e;
use crate::walk::l2e;
use crate::walk::l1e;
use crate::walk::p3_of;
use crate::walk::p2_of;
use crate::walk::p1_of;
use crate::walk::steps_down;
use crate::walk::path_complete;
use crate::walk::path_no_huge;
use crate::walk::l1_slot;
use crate::walk::spec_translate_page;
use crate::walk::spec_translate;
use crate::walk::on_path;
use crate::walk::child_ok;
use crate::walk::is_branch_cell;
use crate::walk::inv_at;
use crate::walk::lvl_extends;
use crate::walk::mapped_at;
use crate::walk::mapped_fresh;
use crate::walk::missing_tables;
use crate::walk::temp_window_first;
use crate::walk::temp_window_last;
use crate::walk::lemma_temp_window_bounds;
use crate::walk::lemma_temp_window_page;

/// The set of virtual-to-physical mappings of the machine: the modelled
/// physical memory together with the frame of the active level-4 table.
pub struct Mapper {
    /// The modelled physical memory holding the page tables.
    pub mem: PhysMemory,
    /// Frame number of the active level-4 table (the control register).
    pub cr3: u64,
    /// Ghost typing: the level, 4 down to 1, of every modelled table.
    pub levels: Ghost<Map<u64, int>>,
}

impl Mapper {
    /// The frame the recursive slot of the active level-4 table points at:
    /// the root that all table reads and edits go through.
    pub open spec fn root(self) -> u64 {
        entry_frame(rd(self.mem@, self.cr3, 511))
    }

    /// Well-formedness: the level typing witnesses the hierarchy invariant.
    pub open spec fn inv(self) -> bool {
        inv_at(self.mem@, self.cr3, self.levels@)
    }

    /// A mapper over the given memory, with the table in frame `cr3` active.
    /// It is well-formed as soon as any level typing fits the memory.
    pub fn new(mem: PhysMemory, cr3: u64) -> (r: Mapper)
        ensures
            r.mem@ == mem@,
            r.cr3 == cr3,
            (exists|lvl: Map<u64, int>| inv_at(mem@, cr3, lvl)) ==> r.inv(),
    {
        let ghost levels = choose|lvl: Map<u64, int>| inv_at(mem@, cr3, lvl);
        Mapper { mem, cr3, levels: Ghost(levels) }
    }

    /// Read the edit root out of the recursive slot.
    fn root_frame(&self) -> (r: u64)
        requires
            self.inv(),
        ensures
            r == self.root(),
            r < 0x100_0000_0000,
            self.mem@.contains_key(r),
    {
        proof {
            assert(self.mem.wf());
            lemma_entry_frame_bound(rd(self.mem@, self.cr3, 511));
        }
        let e = self.mem.read(self.cr3, 511);
        (e & ENTRY_ADDR_MASK) >> 12
    }

    /// Translate a virtual page to the physical frame it is mapped to, or
    /// `None`.  Huge mappings resolve at level 3 (1 GiB) and level 2 (2 MiB);
    /// the alignment the original asserts at run time is proved here from the
    /// invariant.
    pub fn translate_page(&self, page: Page) -> (r: Option<Frame>)
        requires
            self.inv(),
            idx4(page.num()) != 511,
        ensures
            match r {
                Some(f) => spec_translate_page(self.mem@, self.root(), page.num()) == Some(
                    f.num(),
                ),
                None => spec_translate_page(self.mem@, self.root(), page.num()) is None,
            },
    {
        let ghost m = self.mem@;
        let ghost n = page.num();
        proof {
            assert(self.mem.wf());
        }
        let root = self.root_frame();
        let e4 = Entry::new(self.mem.read(root, page.p4_index()));
        let huge4 = e4.flags().contains(EntryFlags::huge_page());
        proof {
            crate::entry::lemma_truncate_preserves(e4.val());
        }
        match e4.pointed_frame() {
            None => None,
            Some(p3f) => {
                if huge4 {
                    // a huge bit in a level-4 entry never resolves
                    None
                } else {
                    proof {
                        lemma_entry_frame_bound(l4e(m, root, n));
                    }
                    let e3 = Entry::new(self.mem.read(p3f.number(), page.p3_index()));
                    let huge3 = e3.flags().contains(EntryFlags::huge_page());
                    proof {
                        crate::entry::lemma_truncate_preserves(e3.val());
                    }
                    match e3.pointed_frame() {
                        None => None,
                        Some(f3) => {
                            proof {
                                lemma_entry_frame_bound(l3e(m, root, n));
                            }
                            if huge3 {
                                proof {
                                    self.lemma_huge3_aligned(page);
                                }
                                Some(
                                    Frame::from_number(
                                        f3.number() + page.p2_index() as u64 * 512
                                            + page.p1_index() as u64,
                                    ),
                                )
                            } else {
                                let e2 = Entry::new(self.mem.read(f3.number(), page.p2_index()));
                                let huge2 = e2.flags().contains(EntryFlags::huge_page());
                                proof {
                                    crate::entry::lemma_truncate_preserves(e2.val());
                                }
                                match e2.pointed_frame() {
                                    None => None,
                                    Some(f2) => {
                                        proof {
                                            lemma_entry_frame_bound(l2e(m, root, n));
                                        }
                                        if huge2 {
                                            proof {
                                                self.lemma_huge2_aligned(page);
                                            }
                                            Some(
                                                Frame::from_number(
                                                    f2.number() + page.p1_index() as u64,
                                                ),
                                            )
                                        } else {
                                            let e1 = Entry::new(
                                                self.mem.read(f2.number(), page.p1_index()),
                                            );
                                            e1.pointed_frame()
                                        }
                                    },
                                }
                            }
                        },
                    }
                }
            },
        }
    }

    /// Under the invariant, a huge level-3 entry on a walk is 1 GiB aligned.
    proof fn lemma_huge3_aligned(self, page: Page)
        requires
            self.inv(),
            idx4(page.num()) != 511,
            steps_down(l4e(self.mem@, self.root(), page.num())),
            entry_present(l3e(self.mem@, self.root(), page.num())),
            entry_huge(l3e(self.mem@, self.root(), page.num())),
        ensures
            entry_frame(l3e(self.mem@, self.root(), page.num())) % 0x40000 == 0,
    {
        let m = self.mem@;
        let n = page.num();
        let root = self.root();
        let lvl = self.levels@;
        crate::page::lemma_idx_range(n);
        assert(is_branch_cell(m, lvl, root, idx4(n) as int));
        assert(child_ok(m, lvl, root, idx4(n) as int));
        assert(m.contains_key(p3_of(m, root, n)) && lvl[p3_of(m, root, n)] == 3);
    }

    /// Under the invariant, a huge level-2 entry on a walk is 2 MiB aligned.
    proof fn lemma_huge2_aligned(self, page: Page)
        requires
            self.inv(),
            idx4(page.num()) != 511,
            steps_down(l4e(self.mem@, self.root(), page.num())),
            steps_down(l3e(self.mem@, self.root(), page.num())),
            entry_present(l2e(self.mem@, self.root(), page.num())),
            entry_huge(l2e(self.mem@, self.root(), page.num())),
        ensures
            entry_frame(l2e(self.mem@, self.root(), page.num())) % 512 == 0,
    {
        let m = self.mem@;
        let n = page.num();
        let root = self.root();
        let lvl = self.levels@;
        crate::page::lemma_idx_range(n);
        assert(is_branch_cell(m, lvl, root, idx4(n) as int));
        assert(child_ok(m, lvl, root, idx4(n) as int));
        let p3 = p3_of(m, root, n);
        assert(m.contains_key(p3) && lvl[p3] == 3);
        assert(is_branch_cell(m, lvl, p3, idx3(n) as int));
        assert(child_ok(m, lvl, p3, idx3(n) as int));
        let p2 = p2_of(m, root, n);
        assert(m.contains_key(p2) && lvl[p2] == 2);
    }

    /// Fetch the child table under entry `index` of the level `lvl@[tf]`
    /// table in frame `tf`, creating it if the entry is empty: a fresh frame
    /// is taken from the allocator, zeroed, and the entry set to point at it
    /// with `PRESENT | WRITABLE`.  A huge entry cannot be stepped through;
    /// the original panics there, and that input is ruled out here.
    fn next_table_create<A: FrameAllocator>(
        &mut self,
        tf: u64,
        index: usize,
        allocator: &mut A,
    ) -> (nt: u64)
        requires
            old(self).inv(),
            old(self).mem@.contains_key(tf),
            2 <= old(self).levels@[tf],
            !(old(self).levels@[tf] == 4 && index == 511),
            index < 512,
            !(entry_present(rd(old(self).mem@, tf, index as int)) && entry_huge(
                rd(old(self).mem@, tf, index as int),
            )),
            old(allocator).wf(),
            old(allocator).avail().finite(),
            old(allocator).avail().disjoint(old(self).mem@.dom()),
            forall|x: u64| old(allocator).avail().contains(x) ==> x < 0x100_0000_0000,
            !entry_present(rd(old(self).mem@, tf, index as int)) ==> old(
                allocator,
            ).avail().len() >= 1,
        ensures
            ({
                let lvl = old(self).levels@;
                let lvl2 = final(self).levels@;
                {
                    &&& final(self).inv()
                    &&& final(self).cr3 == old(self).cr3
                    &&& lvl_extends(lvl, lvl2)
                    &&& final(self).mem@.contains_key(nt)
                    &&& lvl2[nt] == lvl[tf] - 1
                    &&& steps_down(rd(final(self).mem@, tf, index as int))
                    &&& entry_frame(rd(final(self).mem@, tf, index as int)) == nt
                    &&& forall|f: u64, i: int|
                        !(f == tf && i == index as int) ==> rd(final(self).mem@, f, i) == rd(
                            old(self).mem@,
                            f,
                            i,
                        )
                    &&& final(self).mem@.dom() == old(self).mem@.dom().insert(nt)
                    &&& final(allocator).wf()
                    &&& final(allocator).avail().finite()
                    &&& final(allocator).avail().disjoint(final(self).mem@.dom())
                    &&& forall|x: u64| final(allocator).avail().contains(x) ==> x < 0x100_0000_0000
                    &&& final(allocator).avail().len() >= old(allocator).avail().len() - 1
                    &&& if entry_present(rd(old(self).mem@, tf, index as int)) {
                        &&& final(self).mem@ == old(self).mem@
                        &&& nt == entry_frame(rd(old(self).mem@, tf, index as int))
                        &&& final(allocator).avail() == old(allocator).avail()
                        &&& lvl2 == lvl
                    } else {
                        &&& !old(self).mem@.contains_key(nt)
                        &&& old(allocator).avail().contains(nt)
                        &&& rd(final(self).mem@, tf, index as int) == entry_encode(
                            nt,
                            flags_table(),
                        )
                        &&& final(allocator).avail() == old(allocator).avail().remove(nt)
                    }
                }
            }),
    {
        let ghost m0 = self.mem@;
        let ghost lvl0 = self.levels@;
        proof {
            assert(self.mem.wf());
        }
        let e = self.mem.read(tf, index);
        if e & FLAG_PRESENT == FLAG_PRESENT {
            proof {
                assert(is_branch_cell(m0, lvl0, tf, index as int));
                assert(child_ok(m0, lvl0, tf, index as int));
                lemma_entry_frame_bound(e);
            }
            (e & ENTRY_ADDR_MASK) >> 12
        } else {
            proof {
                if old(allocator).avail().is_empty() {
                    assert(old(allocator).avail() =~= Set::<u64>::empty());
                    assert(old(allocator).avail().len() == 0);
                }
            }
            let f = match allocator.allocate_frame() {
                Some(f) => f,
                None => {
                    proof {
                        assert(false);
                    }
                    Frame::from_number(0)
                },
            };
            let nt = f.number();
            self.mem.install_table(nt);
            let mut entry = Entry::new(0);
            entry.set(f, EntryFlags::present().union(EntryFlags::writable()));
            self.mem.write(tf, index, entry.value());
            proof {
                self.levels@ = lvl0.insert(nt, lvl0[tf] - 1);
                self.lemma_create_preserves_inv(
                    m0,
                    old(self).cr3,
                    lvl0,
                    self.levels@,
                    tf,
                    index as int,
                    nt,
                );
            }
            nt
        }
    }

    /// Installing a fresh, zeroed child table under an empty branch entry
    /// preserves the hierarchy invariant.
    proof fn lemma_create_preserves_inv(
        self,
        m0: Map<u64, Seq<u64>>,
        cr3: u64,
        lvl: Map<u64, int>,
        lvl2: Map<u64, int>,
        tf: u64,
        index: int,
        nt: u64,
    )
        requires
            inv_at(m0, cr3, lvl),
            m0.contains_key(tf),
            2 <= lvl[tf],
            !(lvl[tf] == 4 && index == 511),
            0 <= index < 512,
            !entry_present(rd(m0, tf, index)),
            !m0.contains_key(nt),
            nt < 0x100_0000_0000,
            lvl2 == lvl.insert(nt, lvl[tf] - 1),
            self.cr3 == cr3,
            self.mem@ == m0.insert(nt, Seq::new(512, |i: int| 0u64)).insert(
                tf,
                m0[tf].update(index, entry_encode(nt, flags_table())),
            ),
        ensures
            inv_at(self.mem@, cr3, lvl2),
            lvl_extends(lvl, lvl2),
            steps_down(rd(self.mem@, tf, index)),
            entry_frame(rd(self.mem@, tf, index)) == nt,
            rd(self.mem@, tf, index) == entry_encode(nt, flags_table()),
            forall|f: u64, i: int|
                !(f == tf && i == index) ==> rd(self.mem@, f, i) == rd(m0, f, i),
            self.mem@.dom() == m0.dom().insert(nt),
    {
        let m2 = self.mem@;
        lemma_flags_table_bits();
        lemma_entry_encode(nt, flags_table());
        assert(m2.dom() =~= m0.dom().insert(nt));
        assert forall|f: u64, i: int| !(f == tf && i == index) implies rd(m2, f, i) == rd(
            m0,
            f,
            i,
        ) by {
            if f == nt {
                assert(rd(m0, f, i) == 0);
                if 0 <= i < 512 {
                    assert(m2[nt][i] == 0);
                }
            }
        }
        // the recursive slot is untouched: neither cr3 nor the edit root is
        // the fresh table, and slot 511 of a level-4 table is never the
        // written cell
        let r = entry_frame(rd(m0, cr3, 511));
        assert(rd(m2, cr3, 511) == rd(m0, cr3, 511));
        assert(rd(m2, r, 511) == rd(m0, r, 511));
        // children stay typed
        assert forall|f: u64, i: int| is_branch_cell(m2, lvl2, f, i) implies #[trigger] child_ok(
            m2,
            lvl2,
            f,
            i,
        ) by {
            if f == nt {
                assert(m2[nt][i] == 0);
                crate::entry::lemma_present_nonzero(0);
            } else if f == tf && i == index {
                assert(m2[tf][index] == entry_encode(nt, flags_table()));
            } else {
                assert(m2[f][i] == m0[f][i]);
                assert(is_branch_cell(m0, lvl, f, i));
                assert(child_ok(m0, lvl, f, i));
                if steps_down(m0[f][i]) {
                    assert(m0.contains_key(entry_frame(m0[f][i])));
                }
            }
        }
        // huge entries stay aligned: the one written entry is not huge, the
        // fresh table is all zeros, and every other cell is unchanged
        assert forall|f: u64, i: int|
            m2.contains_key(f) && 0 <= i < 512 && (lvl2[f] == 3 || lvl2[f] == 2) && entry_present(
                #[trigger] m2[f][i],
            ) && entry_huge(m2[f][i]) implies (m0.contains_key(f) && m0[f][i] == m2[f][i] && lvl[f]
            == lvl2[f]) by {
            crate::entry::lemma_present_nonzero(0);
            if f == nt {
                assert(m2[nt][i] == 0);
            } else if f == tf && i == index {
                assert(m2[tf][index] == entry_encode(nt, flags_table()));
            } else {
                assert(m2[f][i] == m0[f][i]);
            }
        }
        // distinct branch cells still point at distinct children
        assert forall|f: u64, i: int, g: u64, j: int|
            is_branch_cell(m2, lvl2, f, i) && is_branch_cell(m2, lvl2, g, j) && steps_down(
                #[trigger] m2[f][i],
            ) && steps_down(#[trigger] m2[g][j]) && entry_frame(m2[f][i]) == entry_frame(
                m2[g][j],
            ) implies f == g && i == j by {
            if f == nt || g == nt {
                assert(!steps_down(0u64)) by {
                    crate::entry::lemma_present_nonzero(0);
                }
            } else {
                if f == tf && i == index {
                    if !(g == tf && j == index) {
                        assert(m2[g][j] == m0[g][j]);
                        assert(is_branch_cell(m0, lvl, g, j));
                        assert(child_ok(m0, lvl, g, j));
                        assert(m0.contains_key(entry_frame(m0[g][j])));
                        assert(false);
                    }
                } else if g == tf && j == index {
                    assert(m2[f][i] == m0[f][i]);
                    assert(is_branch_cell(m0, lvl, f, i));
                    assert(child_ok(m0, lvl, f, i));
                    assert(m0.contains_key(entry_frame(m0[f][i])));
                    assert(false);
                } else {
                    assert(m2[f][i] == m0[f][i] && m2[g][j] == m0[g][j]);
                    assert(is_branch_cell(m0, lvl, f, i) && is_branch_cell(m0, lvl, g, j));
                }
            }
        }
    }

    /// Map the virtual page `page` to the physical frame `frame`, creating
    /// the intermediate tables on the way as needed.  Mapping over an
    /// already-used page is rejected up front: the level-1 entry for the page
    /// must be zero, which is exactly the condition whose violation the
    /// original turns into a panic.  The allocator must cover the tables the
    /// walk still lacks, at worst three.
    pub fn map_to<A: FrameAllocator>(
        &mut self,
        page: Page,
        frame: Frame,
        flags: EntryFlags,
        allocator: &mut A,
    )
        requires
            old(self).inv(),
            page_canonical(page.num()),
            idx4(page.num()) != 511,
            frame.num() < 0x100_0000_0000,
            flags.wf(),
            path_no_huge(old(self).mem@, old(self).root(), page.num()),
            l1_slot(old(self).mem@, old(self).root(), page.num()) == 0,
            old(allocator).wf(),
            old(allocator).avail().finite(),
            old(allocator).avail().disjoint(old(self).mem@.dom()),
            forall|x: u64| old(allocator).avail().contains(x) ==> x < 0x100_0000_0000,
            old(allocator).avail().len() >= missing_tables(
                old(self).mem@,
                old(self).root(),
                page.num(),
            ),
        ensures
            final(self).inv(),
            final(self).cr3 == old(self).cr3,
            final(self).root() == old(self).root(),
            lvl_extends(old(self).levels@, final(self).levels@),
            mapped_at(
                old(self).mem@,
                final(self).mem@,
                old(self).root(),
                page.num(),
                frame.num(),
                flags.spec_bits(),
            ),
            forall|f: u64|
                final(self).mem@.contains_key(f) && !old(self).mem@.contains_key(f) ==> old(
                    allocator,
                ).avail().contains(f),
            final(allocator).wf(),
            final(allocator).avail().finite(),
            final(allocator).avail().disjoint(final(self).mem@.dom()),
            forall|x: u64| final(allocator).avail().contains(x) ==> x < 0x100_0000_0000,
            final(allocator).avail().len() >= old(allocator).avail().len() - 3,
            // exactly one frame is consumed per missing table
            final(allocator).avail().len() == old(allocator).avail().len() - missing_tables(
                old(self).mem@,
                old(self).root(),
                page.num(),
            ),
            forall|x: u64|
                final(allocator).avail().contains(x) ==> old(allocator).avail().contains(x),
    {
        let ghost m0 = self.mem@;
        let ghost lvl0 = self.levels@;
        let ghost n = page.num();
        let ghost rootg = old(self).root();
        let ghost len0 = old(allocator).avail().len() as int;
        proof {
            crate::page::lemma_idx_range(n);
        }
        let root = self.root_frame();
        let p3t = self.next_table_create(root, page.p4_index(), allocator);
        let ghost m1 = self.mem@;
        proof {
            if !entry_present(rd(m0, root, idx4(n) as int)) {
                assert(rd(m1, p3t, idx3(n) as int) == rd(m0, p3t, idx3(n) as int));
                assert(rd(m0, p3t, idx3(n) as int) == 0);
                crate::entry::lemma_present_nonzero(0);
            } else {
                assert(m1 == m0 && p3t == p3_of(m0, rootg, n));
            }
        }
        let p2t = self.next_table_create(p3t, page.p3_index(), allocator);
        let ghost m2 = self.mem@;
        proof {
            if !entry_present(rd(m1, p3t, idx3(n) as int)) {
                assert(rd(m2, p2t, idx2(n) as int) == rd(m1, p2t, idx2(n) as int));
                assert(rd(m1, p2t, idx2(n) as int) == 0);
                crate::entry::lemma_present_nonzero(0);
            } else {
                assert(m2 == m1 && m1 == m0 && p2t == p2_of(m0, rootg, n));
            }
        }
        let p1t = self.next_table_create(p2t, page.p2_index(), allocator);
        let ghost m3 = self.mem@;
        let ghost lvl3 = self.levels@;
        // the original asserts at run time that the slot is unused; under the
        // precondition this is a proved fact
        let e1 = Entry::new(self.mem.read(p1t, page.p1_index()));
        proof {
            if !entry_present(rd(m2, p2t, idx2(n) as int)) {
                assert(rd(m3, p1t, idx1(n) as int) == rd(m2, p1t, idx1(n) as int));
                assert(rd(m2, p1t, idx1(n) as int) == 0);
            } else {
                assert(m3 == m2 && m2 == m0);
                assert(path_complete(m0, rootg, n));
                assert(rd(m3, p1t, idx1(n) as int) == l1_slot(m0, rootg, n));
            }
        }
        assert(e1.val() == 0);
        let mut entry = e1;
        entry.set(frame, flags.union(EntryFlags::present()));
        self.mem.write(p1t, page.p1_index(), entry.value());
        proof {
            let m4 = self.mem@;
            let bits = flags.spec_bits() | FLAG_PRESENT;
            Self::lemma_l1_write_preserves_inv(
                m3,
                m4,
                old(self).cr3,
                lvl3,
                p1t,
                idx1(n) as int,
                entry_encode(frame.num(), bits),
            );
            // the four written cells are exactly the walk path of the page
            assert(rd(m4, root, idx4(n) as int) == rd(m1, root, idx4(n) as int));
            assert(p3_of(m4, rootg, n) == p3t);
            assert(rd(m4, p3t, idx3(n) as int) == rd(m2, p3t, idx3(n) as int));
            assert(p2_of(m4, rootg, n) == p2t);
            assert(rd(m4, p2t, idx2(n) as int) == rd(m3, p2t, idx2(n) as int));
            assert(p1_of(m4, rootg, n) == p1t);
            assert(rd(m4, p1t, idx1(n) as int) == entry_encode(frame.num(), bits));
            lemma_entry_encode(frame.num(), bits);
            assert(entry_present(l1e(m4, rootg, n))) by {
                let b = flags.spec_bits();
                assert((b | 0x1u64) & 0x8000_0000_0000_01ffu64 == (b | 0x1u64) && (b | 0x1u64)
                    & 0x1u64 == 0x1u64 && (b | 0x1u64) & 0x8000_0000_0000_01ffu64 == (b | 0x1u64))
                    by (bit_vector)
                    requires
                        b & 0x8000_0000_0000_01ffu64 == b,
                ;
            }
            assert(spec_translate_page(m4, rootg, n) == Some(frame.num()));
            assert(rd(m4, old(self).cr3, 511) == rd(m0, old(self).cr3, 511));
            assert forall|f: u64, i: int| !on_path(m4, rootg, n, f, i) implies rd(m4, f, i) == rd(
                m0,
                f,
                i,
            ) by {
                assert(rd(m4, f, i) == rd(m3, f, i));
                assert(rd(m3, f, i) == rd(m2, f, i));
                assert(rd(m2, f, i) == rd(m1, f, i));
                assert(rd(m1, f, i) == rd(m0, f, i));
            }
            // fresh tables are linked into their parents with
            // PRESENT | WRITABLE, and each one costs exactly one frame
            assert(!steps_down(l4e(m0, rootg, n)) ==> !entry_present(l4e(m0, rootg, n)));
            assert(!entry_present(l4e(m0, rootg, n)) ==> l4e(m4, rootg, n) == entry_encode(
                p3t,
                flags_table(),
            ));
            assert(!(steps_down(l4e(m0, rootg, n)) && steps_down(l3e(m0, rootg, n)))
                ==> !entry_present(rd(m1, p3t, idx3(n) as int)));
            assert(!entry_present(rd(m1, p3t, idx3(n) as int)) ==> l3e(m4, rootg, n)
                == entry_encode(p2t, flags_table()));
            assert(!path_complete(m0, rootg, n) ==> !entry_present(rd(m2, p2t, idx2(n) as int)));
            assert(!entry_present(rd(m2, p2t, idx2(n) as int)) ==> l2e(m4, rootg, n)
                == entry_encode(p1t, flags_table()));
            assert(allocator.avail().len() == len0 - missing_tables(m0, rootg, n)) by {
                if entry_present(l4e(m0, rootg, n)) {
                    assert(rd(m1, p3t, idx3(n) as int) == l3e(m0, rootg, n));
                    if entry_present(l3e(m0, rootg, n)) {
                        assert(rd(m2, p2t, idx2(n) as int) == l2e(m0, rootg, n));
                    }
                }
            }
        }
    }

    /// Map the virtual page `page` to the next frame the allocator hands
    /// out.  The original converts allocator exhaustion into a panic; here
    /// the allocator must be able to cover the data frame and the worst case
    /// of three fresh tables.
    pub fn map<A: FrameAllocator>(&mut self, page: Page, flags: EntryFlags, allocator: &mut A)
        requires
            old(self).inv(),
            page_canonical(page.num()),
            idx4(page.num()) != 511,
            flags.wf(),
            path_no_huge(old(self).mem@, old(self).root(), page.num()),
            l1_slot(old(self).mem@, old(self).root(), page.num()) == 0,
            old(allocator).wf(),
            old(allocator).avail().finite(),
            old(allocator).avail().disjoint(old(self).mem@.dom()),
            forall|x: u64| old(allocator).avail().contains(x) ==> x < 0x100_0000_0000,
            old(allocator).avail().len() >= 1 + missing_tables(
                old(self).mem@,
                old(self).root(),
                page.num(),
            ),
        ensures
            final(self).inv(),
            final(self).cr3 == old(self).cr3,
            final(self).root() == old(self).root(),
            lvl_extends(old(self).levels@, final(self).levels@),
            exists|fnum: u64|
                old(allocator).avail().contains(fnum) && #[trigger] mapped_at(
                    old(self).mem@,
                    final(self).mem@,
                    old(self).root(),
                    page.num(),
                    fnum,
                    flags.spec_bits(),
                ),
            forall|f: u64|
                final(self).mem@.contains_key(f) && !old(self).mem@.contains_key(f) ==> old(
                    allocator,
                ).avail().contains(f),
            final(allocator).wf(),
            final(allocator).avail().finite(),
            final(allocator).avail().disjoint(final(self).mem@.dom()),
            forall|x: u64| final(allocator).avail().contains(x) ==> x < 0x100_0000_0000,
            final(allocator).avail().len() >= old(allocator).avail().len() - 4,
            forall|x: u64|
                final(allocator).avail().contains(x) ==> old(allocator).avail().contains(x),
    {
        proof {
            if old(allocator).avail().is_empty() {
                assert(old(allocator).avail() =~= Set::<u64>::empty());
            }
        }
        let frame = match allocator.allocate_frame() {
            Some(f) => f,
            None => {
                proof {
                    assert(false);
                }
                Frame::from_number(0)
            },
        };
        self.map_to(page, frame, flags, allocator);
    }

    /// Map a frame at the virtual address equal to its physical address.
    /// Only the low, canonical half of the address space can be identity
    /// mapped.
    pub fn identity_map<A: FrameAllocator>(
        &mut self,
        frame: Frame,
        flags: EntryFlags,
        allocator: &mut A,
    )
        requires
            old(self).inv(),
            frame.num() < 0x8_0000_0000,
            flags.wf(),
            path_no_huge(old(self).mem@, old(self).root(), frame.num()),
            l1_slot(old(self).mem@, old(self).root(), frame.num()) == 0,
            old(allocator).wf(),
            old(allocator).avail().finite(),
            old(allocator).avail().disjoint(old(self).mem@.dom()),
            forall|x: u64| old(allocator).avail().contains(x) ==> x < 0x100_0000_0000,
            old(allocator).avail().len() >= missing_tables(
                old(self).mem@,
                old(self).root(),
                frame.num(),
            ),
        ensures
            final(self).inv(),
            final(self).cr3 == old(self).cr3,
            final(self).root() == old(self).root(),
            lvl_extends(old(self).levels@, final(self).levels@),
            mapped_at(
                old(self).mem@,
                final(self).mem@,
                old(self).root(),
                frame.num(),
                frame.num(),
                flags.spec_bits(),
            ),
            forall|f: u64|
                final(self).mem@.contains_key(f) && !old(self).mem@.contains_key(f) ==> old(
                    allocator,
                ).avail().contains(f),
            final(allocator).wf(),
            final(allocator).avail().finite(),
            final(allocator).avail().disjoint(final(self).mem@.dom()),
            forall|x: u64| final(allocator).avail().contains(x) ==> x < 0x100_0000_0000,
            final(allocator).avail().len() >= old(allocator).avail().len() - 3,
            forall|x: u64|
                final(allocator).avail().contains(x) ==> old(allocator).avail().contains(x),
    {
        proof {
            crate::page::lemma_low_page_idx4(frame.num());
        }
        let page = Page::containing_address(frame.start_address());
        self.map_to(page, frame, flags, allocator);
    }

    /// Map every page from `start` to `end` (included) to a fresh frame from
    /// the allocator.  All pages of the range must be unused, and every page
    /// outside the range keeps its translation.
    pub fn map_range<A: FrameAllocator>(
        &mut self,
        start: Page,
        end: Page,
        flags: EntryFlags,
        allocator: &mut A,
    )
        requires
            old(self).inv(),
            start.num() <= end.num() < u64::MAX,
            flags.wf(),
            forall|n: u64|
                start.num() <= n <= end.num() ==> page_canonical(n) && idx4(n) != 511 && l1_slot(
                    old(self).mem@,
                    old(self).root(),
                    n,
                ) == 0 && path_no_huge(old(self).mem@, old(self).root(), n),
            old(allocator).wf(),
            old(allocator).avail().finite(),
            old(allocator).avail().disjoint(old(self).mem@.dom()),
            forall|x: u64| old(allocator).avail().contains(x) ==> x < 0x100_0000_0000,
            old(allocator).avail().len() >= 4 * (end.num() - start.num() + 1),
        ensures
            final(self).inv(),
            final(self).cr3 == old(self).cr3,
            final(self).root() == old(self).root(),
            lvl_extends(old(self).levels@, final(self).levels@),
            // every page of the range is mapped, with the given flags plus
            // PRESENT, to a frame freshly drawn from the allocator
            forall|n: u64|
                start.num() <= n <= end.num() ==> #[trigger] mapped_fresh(
                    final(self).mem@,
                    final(self).root(),
                    n,
                    old(allocator).avail(),
                    flags.spec_bits(),
                ),
            forall|q: u64|
                page_canonical(q) && idx4(q) != 511 && !(start.num() <= q <= end.num())
                    ==> spec_translate_page(final(self).mem@, final(self).root(), q)
                    == spec_translate_page(old(self).mem@, old(self).root(), q) && l1_slot(
                    final(self).mem@,
                    final(self).root(),
                    q,
                ) == l1_slot(old(self).mem@, old(self).root(), q) && (path_no_huge(
                    old(self).mem@,
                    old(self).root(),
                    q,
                ) ==> path_no_huge(final(self).mem@, final(self).root(), q)),
            forall|f: u64|
                final(self).mem@.contains_key(f) && !old(self).mem@.contains_key(f) ==> old(
                    allocator,
                ).avail().contains(f),
            final(allocator).wf(),
            final(allocator).avail().finite(),
            final(allocator).avail().disjoint(final(self).mem@.dom()),
            forall|x: u64| final(allocator).avail().contains(x) ==> x < 0x100_0000_0000,
            forall|x: u64|
                final(allocator).avail().contains(x) ==> old(allocator).avail().contains(x),
            final(allocator).avail().len() >= old(allocator).avail().len() - 4 * (end.num()
                - start.num() + 1),
    {
        let ghost m0 = self.mem@;
        let ghost lvl0 = self.levels@;
        let ghost rootg = old(self).root();
        let ghost cr3g = old(self).cr3;
        let ghost len0 = old(allocator).avail().len() as int;
        let s = start.number_of_page();
        let e = end.number_of_page();
        let mut i: u64 = s;
        while i <= e
            invariant
                self.inv(),
                self.cr3 == cr3g,
                self.root() == rootg,
                lvl_extends(lvl0, self.levels@),
                inv_at(m0, cr3g, lvl0),
                m0.contains_key(rootg),
                lvl0[rootg] == 4,
                s <= i <= e + 1,
                s == start.num() && e == end.num(),
                e < u64::MAX,
                flags.wf(),
                forall|n: u64|
                    s <= n <= e ==> page_canonical(n) && idx4(n) != 511 && l1_slot(m0, rootg, n)
                        == 0 && path_no_huge(m0, rootg, n),
                forall|n: u64|
                    s <= n < i ==> #[trigger] mapped_fresh(
                        self.mem@,
                        rootg,
                        n,
                        old(allocator).avail(),
                        flags.spec_bits(),
                    ),
                forall|n: u64|
                    i <= n <= e ==> l1_slot(self.mem@, rootg, n) == 0 && path_no_huge(
                        self.mem@,
                        rootg,
                        n,
                    ),
                forall|q: u64|
                    page_canonical(q) && idx4(q) != 511 && !(s <= q <= e) ==> spec_translate_page(
                        self.mem@,
                        rootg,
                        q,
                    ) == spec_translate_page(m0, rootg, q) && l1_slot(self.mem@, rootg, q)
                        == l1_slot(m0, rootg, q) && (path_no_huge(m0, rootg, q) ==> path_no_huge(
                        self.mem@,
                        rootg,
                        q,
                    )),
                forall|f: u64|
                    self.mem@.contains_key(f) && !m0.contains_key(f) ==> old(
                        allocator,
                    ).avail().contains(f),
                allocator.wf(),
                allocator.avail().finite(),
                allocator.avail().disjoint(self.mem@.dom()),
                forall|x: u64| allocator.avail().contains(x) ==> x < 0x100_0000_0000,
                forall|x: u64|
                    old(allocator).avail().contains(x) ==> x < 0x100_0000_0000,
                forall|x: u64|
                    allocator.avail().contains(x) ==> old(allocator).avail().contains(x),
                allocator.avail().len() >= 4 * (e - i + 1) || i == e + 1,
                allocator.avail().len() >= len0 - 4 * (i - s),
            decreases e + 1 - i,
        {
            let ghost m_pre = self.mem@;
            let ghost lvl_pre = self.levels@;
            proof {
                crate::page::lemma_page_start_addr(i);
                assert(missing_tables(m_pre, rootg, i) <= 3);
            }
            let page = Page::containing_address(i * PAGE_SIZE);
            self.map(page, flags, allocator);
            proof {
                let m_post = self.mem@;
                let lvl_post = self.levels@;
                let fnum = choose|fnum: u64|
                    old(allocator).avail().contains(fnum) && #[trigger] mapped_at(
                        m_pre,
                        m_post,
                        rootg,
                        i,
                        fnum,
                        flags.spec_bits(),
                    );
                assert(mapped_at(m_pre, m_post, rootg, i, fnum, flags.spec_bits()));
                assert forall|q: u64|
                    page_canonical(q) && idx4(q) != 511 && q != i implies spec_translate_page(
                    m_post,
                    rootg,
                    q,
                ) == spec_translate_page(m_pre, rootg, q) && l1_slot(m_post, rootg, q) == l1_slot(
                    m_pre,
                    rootg,
                    q,
                ) && (path_no_huge(m_pre, rootg, q) ==> path_no_huge(m_post, rootg, q)) by {
                    crate::walk::lemma_mapped_at_preserves_other(
                        m_pre,
                        m_post,
                        cr3g,
                        lvl_pre,
                        lvl_post,
                        rootg,
                        i,
                        fnum,
                        flags.spec_bits(),
                        q,
                    );
                }
                // the pages mapped earlier keep their exact entries
                let b = flags.spec_bits();
                let avail0 = old(allocator).avail();
                assert forall|n: u64| s <= n < i + 1 implies #[trigger] mapped_fresh(
                    m_post,
                    rootg,
                    n,
                    avail0,
                    b,
                ) by {
                    if n == i {
                        assert(avail0.contains(fnum) && path_complete(m_post, rootg, n) && l1e(
                            m_post,
                            rootg,
                            n,
                        ) == entry_encode(fnum, (b | FLAG_PRESENT) as u64) && spec_translate_page(
                            m_post,
                            rootg,
                            n,
                        ) == Some(fnum));
                    } else {
                        assert(mapped_fresh(m_pre, rootg, n, avail0, b));
                        let f = choose|f: u64|
                            {
                                &&& #[trigger] avail0.contains(f)
                                &&& path_complete(m_pre, rootg, n)
                                &&& l1e(m_pre, rootg, n) == entry_encode(
                                    f,
                                    (b | FLAG_PRESENT) as u64,
                                )
                                &&& spec_translate_page(m_pre, rootg, n) == Some(f)
                            };
                        assert(f < 0x100_0000_0000);
                        crate::entry::lemma_encode_present(f, b);
                        assert(l1_slot(m_pre, rootg, n) == l1e(m_pre, rootg, n));
                        assert(l1_slot(m_post, rootg, n) == l1_slot(m_pre, rootg, n));
                        assert(l1_slot(m_post, rootg, n) != 0);
                        assert(path_complete(m_post, rootg, n));
                        assert(avail0.contains(f) && path_complete(m_post, rootg, n) && l1e(
                            m_post,
                            rootg,
                            n,
                        ) == entry_encode(f, (b | FLAG_PRESENT) as u64) && spec_translate_page(
                            m_post,
                            rootg,
                            n,
                        ) == Some(f));
                    }
                }
            }
            i = i + 1;
        }
    }

    /// Identity-map every frame from `start` to `end` (included): each one
    /// becomes reachable at the virtual address equal to its physical
    /// address.  All the pages of the range must be unused, and every page
    /// outside the range keeps its translation.
    pub fn identity_map_range<A: FrameAllocator>(
        &mut self,
        start: u64,
        end: u64,
        flags: EntryFlags,
        allocator: &mut A,
    )
        requires
            old(self).inv(),
            start <= end < 0x8_0000_0000,
            flags.wf(),
            forall|n: u64|
                start <= n <= end ==> l1_slot(old(self).mem@, old(self).root(), n) == 0
                    && path_no_huge(old(self).mem@, old(self).root(), n),
            old(allocator).wf(),
            old(allocator).avail().finite(),
            old(allocator).avail().disjoint(old(self).mem@.dom()),
            forall|x: u64| old(allocator).avail().contains(x) ==> x < 0x100_0000_0000,
            old(allocator).avail().len() >= 3 * (end - start + 1),
        ensures
            final(self).inv(),
            final(self).cr3 == old(self).cr3,
            final(self).root() == old(self).root(),
            lvl_extends(old(self).levels@, final(self).levels@),
            forall|n: u64|
                start <= n <= end ==> path_complete(final(self).mem@, final(self).root(), n)
                    && spec_translate_page(final(self).mem@, final(self).root(), n) == Some(n)
                    && l1e(final(self).mem@, final(self).root(), n) == entry_encode(
                    n,
                    flags.spec_bits() | FLAG_PRESENT,
                ),
            forall|q: u64|
                page_canonical(q) && idx4(q) != 511 && !(start <= q <= end)
                    ==> spec_translate_page(final(self).mem@, final(self).root(), q)
                    == spec_translate_page(old(self).mem@, old(self).root(), q) && l1_slot(
                    final(self).mem@,
                    final(self).root(),
                    q,
                ) == l1_slot(old(self).mem@, old(self).root(), q) && (path_no_huge(
                    old(self).mem@,
                    old(self).root(),
                    q,
                ) ==> path_no_huge(final(self).mem@, final(self).root(), q)),
            forall|f: u64|
                final(self).mem@.contains_key(f) && !old(self).mem@.contains_key(f) ==> old(
                    allocator,
                ).avail().contains(f),
            final(allocator).wf(),
            final(allocator).avail().finite(),
            final(allocator).avail().disjoint(final(self).mem@.dom()),
            forall|x: u64| final(allocator).avail().contains(x) ==> x < 0x100_0000_0000,
            forall|x: u64|
                final(allocator).avail().contains(x) ==> old(allocator).avail().contains(x),
            final(allocator).avail().len() >= old(allocator).avail().len() - 3 * (end - start
                + 1),
            // when the edits run through a redirected recursive slot, the
            // installed hierarchy is untouched
            forall|q: u64|
                idx4(q) != 511 && old(self).cr3 != old(self).root() ==> spec_translate_page(
                    final(self).mem@,
                    old(self).cr3,
                    q,
                ) == spec_translate_page(old(self).mem@, old(self).cr3, q) && l1_slot(
                    final(self).mem@,
                    old(self).cr3,
                    q,
                ) == l1_slot(old(self).mem@, old(self).cr3, q),
    {
        let ghost m0 = self.mem@;
        let ghost lvl0 = self.levels@;
        let ghost rootg = old(self).root();
        let ghost cr3g = old(self).cr3;
        let ghost len0 = old(allocator).avail().len() as int;
        let mut i: u64 = start;
        while i <= end
            invariant
                self.inv(),
                self.cr3 == cr3g,
                self.root() == rootg,
                lvl_extends(lvl0, self.levels@),
                inv_at(m0, cr3g, lvl0),
                m0.contains_key(rootg),
                lvl0[rootg] == 4,
                start <= i <= end + 1,
                end < 0x8_0000_0000,
                flags.wf(),
                forall|n: u64|
                    start <= n <= end ==> l1_slot(m0, rootg, n) == 0 && path_no_huge(m0, rootg, n),
                forall|n: u64|
                    start <= n < i ==> path_complete(self.mem@, rootg, n) && spec_translate_page(
                        self.mem@,
                        rootg,
                        n,
                    ) == Some(n) && l1e(self.mem@, rootg, n) == entry_encode(
                        n,
                        flags.spec_bits() | FLAG_PRESENT,
                    ),
                forall|n: u64|
                    i <= n <= end ==> l1_slot(self.mem@, rootg, n) == 0 && path_no_huge(
                        self.mem@,
                        rootg,
                        n,
                    ),
                forall|q: u64|
                    page_canonical(q) && idx4(q) != 511 && !(start <= q <= end)
                        ==> spec_translate_page(self.mem@, rootg, q) == spec_translate_page(
                        m0,
                        rootg,
                        q,
                    ) && l1_slot(self.mem@, rootg, q) == l1_slot(m0, rootg, q) && (path_no_huge(
                        m0,
                        rootg,
                        q,
                    ) ==> path_no_huge(self.mem@, rootg, q)),
                forall|f: u64|
                    self.mem@.contains_key(f) && !m0.contains_key(f) ==> old(
                        allocator,
                    ).avail().contains(f),
                allocator.wf(),
                allocator.avail().finite(),
                allocator.avail().disjoint(self.mem@.dom()),
                forall|x: u64| allocator.avail().contains(x) ==> x < 0x100_0000_0000,
                forall|x: u64|
                    allocator.avail().contains(x) ==> old(allocator).avail().contains(x),
                allocator.avail().len() >= 3 * (end - i + 1) || i == end + 1,
                allocator.avail().len() >= len0 - 3 * (i - start),
                forall|q: u64|
                    idx4(q) != 511 && cr3g != rootg ==> spec_translate_page(
                        self.mem@,
                        cr3g,
                        q,
                    ) == spec_translate_page(m0, cr3g, q) && l1_slot(self.mem@, cr3g, q)
                        == l1_slot(m0, cr3g, q),
            decreases end + 1 - i,
        {
            let ghost m_pre = self.mem@;
            let ghost lvl_pre = self.levels@;
            proof {
                crate::page::lemma_low_page_idx4(i);
                assert(missing_tables(m_pre, rootg, i) <= 3);
            }
            self.identity_map(Frame::from_number(i), flags, allocator);
            proof {
                let m_post = self.mem@;
                let lvl_post = self.levels@;
                assert(mapped_at(m_pre, m_post, rootg, i, i, flags.spec_bits()));
                let b = flags.spec_bits();
                assert((b | 0x1u64) & 0x8000_0000_0000_01ffu64 == (b | 0x1u64) && (b | 0x1u64)
                    & 0x1u64 == 0x1u64) by (bit_vector)
                    requires
                        b & 0x8000_0000_0000_01ffu64 == b,
                ;
                assert(entry_present(entry_encode(i, (b | FLAG_PRESENT) as u64))) by {
                    lemma_entry_encode(i, (b | FLAG_PRESENT) as u64);
                }
                crate::entry::lemma_present_nonzero(
                    entry_encode(i, (b | FLAG_PRESENT) as u64),
                );
                assert forall|q: u64|
                    page_canonical(q) && idx4(q) != 511 && q != i implies spec_translate_page(
                    m_post,
                    rootg,
                    q,
                ) == spec_translate_page(m_pre, rootg, q) && l1_slot(m_post, rootg, q) == l1_slot(
                    m_pre,
                    rootg,
                    q,
                ) && (path_no_huge(m_pre, rootg, q) ==> path_no_huge(m_post, rootg, q)) by {
                    crate::walk::lemma_mapped_at_preserves_other(
                        m_pre,
                        m_post,
                        cr3g,
                        lvl_pre,
                        lvl_post,
                        rootg,
                        i,
                        i,
                        flags.spec_bits(),
                        q,
                    );
                }
                assert forall|n: u64| i + 1 <= n <= end implies l1_slot(m_post, rootg, n) == 0
                    && path_no_huge(m_post, rootg, n) by {
                    crate::page::lemma_low_page_idx4(n);
                }
                assert forall|q: u64| idx4(q) != 511 && cr3g != rootg implies spec_translate_page(
                    m_post,
                    cr3g,
                    q,
                ) == spec_translate_page(m_pre, cr3g, q) && l1_slot(m_post, cr3g, q) == l1_slot(
                    m_pre,
                    cr3g,
                    q,
                ) by {
                    crate::walk::lemma_mapped_at_preserves_other_root(
                        m_pre,
                        m_post,
                        cr3g,
                        lvl_pre,
                        lvl_post,
                        rootg,
                        cr3g,
                        i,
                        i,
                        flags.spec_bits(),
                        q,
                    );
                }
                assert forall|n: u64| start <= n < i + 1 implies path_complete(
                    m_post,
                    rootg,
                    n,
                ) && spec_translate_page(m_post, rootg, n) == Some(n) && l1e(m_post, rootg, n)
                    == entry_encode(n, (flags.spec_bits() | FLAG_PRESENT) as u64) by {
                    if n < i {
                        crate::page::lemma_low_page_idx4(n);
                        let b = flags.spec_bits();
                        crate::entry::lemma_present_nonzero(
                            entry_encode(n, (b | FLAG_PRESENT) as u64),
                        );
                        assert(entry_present(entry_encode(n, (b | FLAG_PRESENT) as u64))) by {
                            assert((b | 0x1u64) & 0x8000_0000_0000_01ffu64 == (b | 0x1u64) && (b
                                | 0x1u64) & 0x1u64 == 0x1u64) by (bit_vector)
                                requires
                                    b & 0x8000_0000_0000_01ffu64 == b,
                            ;
                            lemma_entry_encode(n, (b | FLAG_PRESENT) as u64);
                        }
                        assert(l1_slot(m_pre, rootg, n) == l1e(m_pre, rootg, n));
                        assert(l1_slot(m_post, rootg, n) == l1_slot(m_pre, rootg, n));
                        assert(l1_slot(m_post, rootg, n) != 0);
                        assert(path_complete(m_post, rootg, n));
                    }
                }
            }
            i = i + 1;
        }
    }

    /// Map `frame` writable at the first free page of the temporary window,
    /// and return that page.  The caller works through the returned page and
    /// hands it back to `unmap` when done; the original runs a continuation
    /// between the two steps instead.  The window must still have a free
    /// page — the original panics when it runs out — and its untranslatable
    /// pages must be genuinely unused.
    pub fn temporary_map<A: FrameAllocator>(&mut self, frame: Frame, allocator: &mut A) -> (p:
        Page)
        requires
            old(self).inv(),
            frame.num() < 0x100_0000_0000,
            exists|n: u64|
                temp_window_first() <= n <= temp_window_last() && spec_translate_page(
                    old(self).mem@,
                    old(self).root(),
                    n,
                ) is None,
            forall|n: u64|
                temp_window_first() <= n <= temp_window_last() && spec_translate_page(
                    old(self).mem@,
                    old(self).root(),
                    n,
                ) is None ==> l1_slot(old(self).mem@, old(self).root(), n) == 0 && path_no_huge(
                    old(self).mem@,
                    old(self).root(),
                    n,
                ),
            old(allocator).wf(),
            old(allocator).avail().finite(),
            old(allocator).avail().disjoint(old(self).mem@.dom()),
            forall|x: u64| old(allocator).avail().contains(x) ==> x < 0x100_0000_0000,
            old(allocator).avail().len() >= 3,
        ensures
            final(self).inv(),
            final(self).cr3 == old(self).cr3,
            final(self).root() == old(self).root(),
            lvl_extends(old(self).levels@, final(self).levels@),
            temp_window_first() <= p.num() <= temp_window_last(),
            spec_translate_page(old(self).mem@, old(self).root(), p.num()) is None,
            // the scan stops at the first free page of the window
            forall|k: u64|
                temp_window_first() <= k < p.num() ==> spec_translate_page(
                    old(self).mem@,
                    old(self).root(),
                    k,
                ) is Some,
            mapped_at(
                old(self).mem@,
                final(self).mem@,
                old(self).root(),
                p.num(),
                frame.num(),
                FLAG_WRITABLE,
            ),
            final(allocator).wf(),
            final(allocator).avail().finite(),
            final(allocator).avail().disjoint(final(self).mem@.dom()),
            forall|x: u64| final(allocator).avail().contains(x) ==> x < 0x100_0000_0000,
            forall|x: u64|
                final(allocator).avail().contains(x) ==> old(allocator).avail().contains(x),
    {
        let ghost free = choose|n: u64|
            temp_window_first() <= n <= temp_window_last() && spec_translate_page(
                self.mem@,
                self.root(),
                n,
            ) is None;
        proof {
            lemma_temp_window_bounds();
            lemma_temp_window_page(temp_window_first());
        }
        // find the first free page of the temporary window
        let mut page = Page::containing_address(crate::KERNEL_TEMP_OFFSET);
        while self.translate_page(page).is_some()
            invariant
                self.inv(),
                *self == *old(self),
                temp_window_first() <= page.num() <= free,
                temp_window_first() <= free <= temp_window_last(),
                spec_translate_page(self.mem@, self.root(), free) is None,
                forall|k: u64|
                    temp_window_first() <= k < page.num() ==> spec_translate_page(
                        self.mem@,
                        self.root(),
                        k,
                    ) is Some,
                page_canonical(page.num()),
                idx4(page.num()) == 508,
            decreases free - page.num(),
        {
            proof {
                lemma_temp_window_bounds();
                lemma_temp_window_page(page.num());
            }
            page = page.offset(1);
            proof {
                lemma_temp_window_page(page.num());
            }
        }
        self.map_to(page, frame, EntryFlags::writable(), allocator);
        page
    }

    /// Remove the mapping of `page`: zero its level-1 entry.  The page must
    /// currently translate through a complete, non-huge walk — the original
    /// panics both on an unmapped page and on a huge mapping.  Neither the
    /// frame the page pointed at nor any intermediate table is handed back
    /// to the allocator: both are deliberately leaked.
    pub fn unmap<A: FrameAllocator>(&mut self, page: Page, _allocator: &mut A)
        requires
            old(self).inv(),
            page_canonical(page.num()),
            idx4(page.num()) != 511,
            path_complete(old(self).mem@, old(self).root(), page.num()),
            entry_present(l1e(old(self).mem@, old(self).root(), page.num())),
        ensures
            *final(_allocator) == *old(_allocator),
            final(self).inv(),
            final(self).cr3 == old(self).cr3,
            final(self).root() == old(self).root(),
            final(self).levels@ == old(self).levels@,
            final(self).mem@.dom() == old(self).mem@.dom(),
            spec_translate_page(final(self).mem@, final(self).root(), page.num()) is None,
            l1e(final(self).mem@, final(self).root(), page.num()) == 0,
            forall|f: u64, i: int|
                !(f == p1_of(old(self).mem@, old(self).root(), page.num()) && i == idx1(
                    page.num(),
                ) as int) ==> rd(final(self).mem@, f, i) == rd(old(self).mem@, f, i),
    {
        let ghost m0 = self.mem@;
        let ghost lvl = self.levels@;
        let ghost n = page.num();
        let ghost rootg = old(self).root();
        proof {
            assert(self.mem.wf());
            crate::page::lemma_idx_range(n);
        }
        let root = self.root_frame();
        let e4 = self.mem.read(root, page.p4_index());
        proof {
            assert(is_branch_cell(m0, lvl, root, idx4(n) as int));
            assert(child_ok(m0, lvl, root, idx4(n) as int));
            lemma_entry_frame_bound(e4);
        }
        let p3t = (e4 & ENTRY_ADDR_MASK) >> 12;
        let e3 = self.mem.read(p3t, page.p3_index());
        proof {
            assert(is_branch_cell(m0, lvl, p3t, idx3(n) as int));
            assert(child_ok(m0, lvl, p3t, idx3(n) as int));
            lemma_entry_frame_bound(e3);
        }
        let p2t = (e3 & ENTRY_ADDR_MASK) >> 12;
        let e2 = self.mem.read(p2t, page.p2_index());
        proof {
            assert(is_branch_cell(m0, lvl, p2t, idx2(n) as int));
            assert(child_ok(m0, lvl, p2t, idx2(n) as int));
            lemma_entry_frame_bound(e2);
        }
        let p1t = (e2 & ENTRY_ADDR_MASK) >> 12;
        let mut entry = Entry::new(self.mem.read(p1t, page.p1_index()));
        entry.set_unused();
        self.mem.write(p1t, page.p1_index(), entry.value());
        proof {
            Self::lemma_l1_write_preserves_inv(
                m0,
                self.mem@,
                old(self).cr3,
                lvl,
                p1t,
                idx1(n) as int,
                0,
            );
            let m2 = self.mem@;
            assert(rd(m2, old(self).cr3, 511) == rd(m0, old(self).cr3, 511));
            assert(rd(m2, rootg, idx4(n) as int) == rd(m0, rootg, idx4(n) as int));
            assert(rd(m2, p3t, idx3(n) as int) == rd(m0, p3t, idx3(n) as int));
            assert(rd(m2, p2t, idx2(n) as int) == rd(m0, p2t, idx2(n) as int));
            crate::entry::lemma_present_nonzero(0);
        }
    }

    /// Overwriting one entry of a level-1 table preserves the hierarchy
    /// invariant: level-1 entries never point at tables.
    proof fn lemma_l1_write_preserves_inv(
        m0: Map<u64, Seq<u64>>,
        m2: Map<u64, Seq<u64>>,
        cr3: u64,
        lvl: Map<u64, int>,
        tf: u64,
        index: int,
        v: u64,
    )
        requires
            inv_at(m0, cr3, lvl),
            m0.contains_key(tf),
            lvl[tf] == 1,
            0 <= index < 512,
            m2 == m0.insert(tf, m0[tf].update(index, v)),
        ensures
            inv_at(m2, cr3, lvl),
            forall|f: u64, i: int| !(f == tf && i == index) ==> rd(m2, f, i) == rd(m0, f, i),
            rd(m2, tf, index) == v,
            m2.dom() == m0.dom(),
    {
        assert(m2.dom() =~= m0.dom());
        assert forall|f: u64, i: int| !(f == tf && i == index) implies rd(m2, f, i) == rd(
            m0,
            f,
            i,
        ) by {}
        let r = entry_frame(rd(m0, cr3, 511));
        assert(rd(m2, cr3, 511) == rd(m0, cr3, 511));
        assert(rd(m2, r, 511) == rd(m0, r, 511));
        assert forall|f: u64, i: int| is_branch_cell(m2, lvl, f, i) implies #[trigger] child_ok(
            m2,
            lvl,
            f,
            i,
        ) by {
            assert(!(f == tf && i == index));
            assert(m2[f][i] == m0[f][i]);
            assert(is_branch_cell(m0, lvl, f, i));
            assert(child_ok(m0, lvl, f, i));
        }
        assert forall|f: u64, i: int, g: u64, j: int|
            is_branch_cell(m2, lvl, f, i) && is_branch_cell(m2, lvl, g, j) && steps_down(
                #[trigger] m2[f][i],
            ) && steps_down(#[trigger] m2[g][j]) && entry_frame(m2[f][i]) == entry_frame(
                m2[g][j],
            ) implies f == g && i == j by {
            assert(m2[f][i] == m0[f][i] && m2[g][j] == m0[g][j]);
            assert(is_branch_cell(m0, lvl, f, i) && is_branch_cell(m0, lvl, g, j));
        }
        assert forall|f: u64, i: int|
            m2.contains_key(f) && 0 <= i < 512 && (lvl[f] == 3 || lvl[f] == 2) && entry_present(
                #[trigger] m2[f][i],
            ) && entry_huge(m2[f][i]) implies (m0[f][i] == m2[f][i]) by {
            assert(!(f == tf && i == index));
        }
    }

    /// Translate a virtual address to the physical address it is mapped to,
    /// or `None`: the frame of its page, plus the offset within the page.
    pub fn translate(&self, virtual_addr: u64) -> (r: Option<u64>)
        requires
            self.inv(),
            addr_canonical(virtual_addr),
            idx4(virtual_addr / 4096) != 511,
        ensures
            r == spec_translate(self.mem@, self.root(), virtual_addr),
    {
        let offset = virtual_addr % PAGE_SIZE;
        match self.translate_page(Page::containing_address(virtual_addr)) {
            Some(f) => {
                proof {
                    lemma_entry_frame_bound(0);  // no-op anchor; bounds argued below
                    assert(f.num() < 0x100_0000_0000 + 512 * 512) by {
                        let m = self.mem@;
                        let root = self.root();
                        let n = virtual_addr / 4096;
                        lemma_entry_frame_bound(l3e(m, root, n));
                        lemma_entry_frame_bound(l2e(m, root, n));
                        lemma_entry_frame_bound(l1e(m, root, n));
                        crate::page::lemma_idx_range(n);
                    }
                }
                Some(f.number() * PAGE_SIZE + offset)
            },
            None => None,
        }
    }
}

} // verus!
