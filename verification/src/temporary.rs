//! The temporary page and its three-slot frame allocator.
//!
//! A `TemporaryPage` owns one fixed virtual page and a tiny allocator holding
//! at most three frames — exactly the worst case of tables that mapping one
//! page can create.  It is used to alias a physical frame for a moment: the
//! inactive-table protocol maps the old top-level table here so it stays
//! reachable while the recursive slot points elsewhere.

use vstd::prelude::*;

verus! {

use crate::PAGE_SIZE;
use crate::active::ActivePageTable;
use crate::entry::EntryFlags;
use crate::entry::FLAG_WRITABLE;
use crate::frame::Frame;
use crate::frame::FrameAllocator;
use crate::page::Page;
use crate::page::idx4;
use crate::page::page_canonical;
use crate::walk::l1e;
use crate::walk::l1_slot;
use crate::walk::path_no_huge;
use crate::walk::path_complete;
use crate::walk::missing_tables;
use crate::walk::mapped_at;
use crate::walk::lvl_extends;
use crate::walk::spec_translate_page;
use crate::phys::rd;
use crate::entry::entry_present;
use crate::page::idx1;
use crate::walk::p1_of;

/// The frame numbers held in one slot.
pub open spec fn slot_set(o: Option<Frame>) -> Set<u64> {
    match o {
        Some(f) => Set::empty().insert(f.num()),
        None => Set::empty(),
    }
}

/// A frame allocator holding at most three frames, handed to it once at
/// construction.  It covers the worst case of one page mapping: three fresh
/// tables.  Handing back a fourth frame is refused — the original panics.
#[derive(Debug)]
pub struct TinyAllocator {
    slot0: Option<Frame>,
    slot1: Option<Frame>,
    slot2: Option<Frame>,
}

impl TinyAllocator {
    /// A tiny allocator filled with three frames from `allocator`.
    pub fn new<A: FrameAllocator>(allocator: &mut A) -> (r: TinyAllocator)
        requires
            old(allocator).wf(),
            old(allocator).avail().finite(),
            old(allocator).avail().len() >= 3,
        ensures
            final(allocator).wf(),
            final(allocator).avail().finite(),
            r.wf(),
            r.avail().finite(),
            r.avail().len() == 3,
            r.avail().subset_of(old(allocator).avail()),
            final(allocator).avail() == old(allocator).avail().difference(r.avail()),
            final(allocator).avail().len() == old(allocator).avail().len() - 3,
    {
        proof {
            if old(allocator).avail().is_empty() {
                assert(old(allocator).avail() =~= Set::<u64>::empty());
            }
        }
        let f0 = match allocator.allocate_frame() {
            Some(f) => f,
            None => {
                proof {
                    assert(false);
                }
                Frame::from_number(0)
            },
        };
        proof {
            if allocator.avail().is_empty() {
                assert(allocator.avail() =~= Set::<u64>::empty());
            }
        }
        let f1 = match allocator.allocate_frame() {
            Some(f) => f,
            None => {
                proof {
                    assert(false);
                }
                Frame::from_number(0)
            },
        };
        proof {
            if allocator.avail().is_empty() {
                assert(allocator.avail() =~= Set::<u64>::empty());
            }
        }
        let f2 = match allocator.allocate_frame() {
            Some(f) => f,
            None => {
                proof {
                    assert(false);
                }
                Frame::from_number(0)
            },
        };
        let r = TinyAllocator { slot0: Some(f0), slot1: Some(f1), slot2: Some(f2) };
        proof {
            assert(r.avail() =~= Set::empty().insert(f0.num()).insert(f1.num()).insert(f2.num()));
            assert(final(allocator).avail() =~= old(allocator).avail().difference(r.avail()));
        }
        r
    }
}

impl FrameAllocator for TinyAllocator {
    closed spec fn avail(&self) -> Set<u64> {
        slot_set(self.slot0).union(slot_set(self.slot1)).union(slot_set(self.slot2))
    }

    closed spec fn wf(&self) -> bool {
        &&& match self.slot0 {
            Some(a) => a.num() * PAGE_SIZE <= u64::MAX,
            None => true,
        }
        &&& match self.slot1 {
            Some(a) => a.num() * PAGE_SIZE <= u64::MAX,
            None => true,
        }
        &&& match self.slot2 {
            Some(a) => a.num() * PAGE_SIZE <= u64::MAX,
            None => true,
        }
        &&& match (self.slot0, self.slot1) {
            (Some(a), Some(b)) => a.num() != b.num(),
            _ => true,
        }
        &&& match (self.slot0, self.slot2) {
            (Some(a), Some(b)) => a.num() != b.num(),
            _ => true,
        }
        &&& match (self.slot1, self.slot2) {
            (Some(a), Some(b)) => a.num() != b.num(),
            _ => true,
        }
    }

    closed spec fn can_dealloc(&self, n: u64) -> bool {
        self.slot0 is None || self.slot1 is None || self.slot2 is None
    }

    proof fn avail_finite(&self) {
    }

    /// Hand out the first frame still held, left to right.
    fn allocate_frame(&mut self) -> (r: Option<Frame>) {
        if self.slot0.is_some() {
            let f = match &self.slot0 {
                Some(f) => f.clone(),
                None => Frame::from_number(0),
            };
            self.slot0 = None;
            proof {
                assert(final(self).avail() =~= old(self).avail().remove(f.num()));
            }
            Some(f)
        } else if self.slot1.is_some() {
            let f = match &self.slot1 {
                Some(f) => f.clone(),
                None => Frame::from_number(0),
            };
            self.slot1 = None;
            proof {
                assert(final(self).avail() =~= old(self).avail().remove(f.num()));
            }
            Some(f)
        } else if self.slot2.is_some() {
            let f = match &self.slot2 {
                Some(f) => f.clone(),
                None => Frame::from_number(0),
            };
            self.slot2 = None;
            proof {
                assert(final(self).avail() =~= old(self).avail().remove(f.num()));
            }
            Some(f)
        } else {
            proof {
                assert(old(self).avail() =~= Set::<u64>::empty());
            }
            None
        }
    }

    /// Take a frame back into the first empty slot.  With all three slots
    /// full the original panics; that input is refused here.
    fn deallocate_frame(&mut self, frame: Frame) {
        if self.slot0.is_none() {
            self.slot0 = Some(frame);
            proof {
                assert(final(self).avail() =~= old(self).avail().insert(frame.num()));
            }
        } else if self.slot1.is_none() {
            self.slot1 = Some(frame);
            proof {
                assert(final(self).avail() =~= old(self).avail().insert(frame.num()));
            }
        } else {
            self.slot2 = Some(frame);
            proof {
                assert(final(self).avail() =~= old(self).avail().insert(frame.num()));
            }
        }
    }
}

/// A fixed virtual page for short-lived mappings, with its own three-frame
/// allocator.
#[derive(Debug)]
pub struct TemporaryPage {
    /// The virtual page this temporary mapping always uses.
    pub page: Page,
    /// The three-slot allocator covering the tables the mapping may create.
    pub allocator: TinyAllocator,
}

impl TemporaryPage {
    /// A temporary page anchored at `page`, with three frames taken from
    /// `allocator` for the tables its mapping may need.
    pub fn new<A: FrameAllocator>(page: Page, allocator: &mut A) -> (r: TemporaryPage)
        requires
            old(allocator).wf(),
            old(allocator).avail().finite(),
            old(allocator).avail().len() >= 3,
        ensures
            final(allocator).wf(),
            final(allocator).avail().finite(),
            r.page == page,
            r.allocator.wf(),
            r.allocator.avail().finite(),
            r.allocator.avail().len() == 3,
            r.allocator.avail().subset_of(old(allocator).avail()),
            final(allocator).avail() == old(allocator).avail().difference(r.allocator.avail()),
            final(allocator).avail().len() == old(allocator).avail().len() - 3,
    {
        TemporaryPage { page, allocator: TinyAllocator::new(allocator) }
    }

    /// Map the temporary page to the given frame in the active table, and
    /// return the virtual address it is now reachable at.  The page must be
    /// unmapped — the original asserts this at run time.
    pub fn map(&mut self, frame: Frame, active_table: &mut ActivePageTable) -> (addr: u64)
        requires
            old(active_table).mapper.inv(),
            page_canonical(old(self).page.num()),
            idx4(old(self).page.num()) != 511,
            frame.num() < 0x100_0000_0000,
            path_no_huge(
                old(active_table).mapper.mem@,
                old(active_table).mapper.root(),
                old(self).page.num(),
            ),
            l1_slot(
                old(active_table).mapper.mem@,
                old(active_table).mapper.root(),
                old(self).page.num(),
            ) == 0,
            old(self).allocator.wf(),
            old(self).allocator.avail().finite(),
            old(self).allocator.avail().disjoint(old(active_table).mapper.mem@.dom()),
            forall|x: u64| old(self).allocator.avail().contains(x) ==> x < 0x100_0000_0000,
            old(self).allocator.avail().len() >= missing_tables(
                old(active_table).mapper.mem@,
                old(active_table).mapper.root(),
                old(self).page.num(),
            ),
            old(self).page.num() * PAGE_SIZE <= u64::MAX,
        ensures
            final(self).page == old(self).page,
            addr == old(self).page.num() * PAGE_SIZE,
            final(active_table).mapper.inv(),
            final(active_table).mapper.cr3 == old(active_table).mapper.cr3,
            final(active_table).mapper.root() == old(active_table).mapper.root(),
            lvl_extends(
                old(active_table).mapper.levels@,
                final(active_table).mapper.levels@,
            ),
            mapped_at(
                old(active_table).mapper.mem@,
                final(active_table).mapper.mem@,
                old(active_table).mapper.root(),
                old(self).page.num(),
                frame.num(),
                FLAG_WRITABLE,
            ),
            forall|f: u64|
                final(active_table).mapper.mem@.contains_key(f) && !old(
                    active_table,
                ).mapper.mem@.contains_key(f) ==> old(self).allocator.avail().contains(f),
            final(self).allocator.wf(),
            final(self).allocator.avail().finite(),
            final(self).allocator.avail().disjoint(final(active_table).mapper.mem@.dom()),
            forall|x: u64| final(self).allocator.avail().contains(x) ==> x < 0x100_0000_0000,
            forall|x: u64|
                final(self).allocator.avail().contains(x) ==> old(
                    self,
                ).allocator.avail().contains(x),
    {
        active_table.mapper.map_to(self.page, frame, EntryFlags::writable(), &mut self.allocator);
        self.page.start_address()
    }

    /// Unmap the temporary page in the active table.
    pub fn unmap(&mut self, active_table: &mut ActivePageTable)
        requires
            old(active_table).mapper.inv(),
            page_canonical(old(self).page.num()),
            idx4(old(self).page.num()) != 511,
            path_complete(
                old(active_table).mapper.mem@,
                old(active_table).mapper.root(),
                old(self).page.num(),
            ),
            entry_present(
                l1e(
                    old(active_table).mapper.mem@,
                    old(active_table).mapper.root(),
                    old(self).page.num(),
                ),
            ),
        ensures
            *final(self) == *old(self),
            final(active_table).mapper.inv(),
            final(active_table).mapper.cr3 == old(active_table).mapper.cr3,
            final(active_table).mapper.root() == old(active_table).mapper.root(),
            final(active_table).mapper.levels@ == old(active_table).mapper.levels@,
            final(active_table).mapper.mem@.dom() == old(active_table).mapper.mem@.dom(),
            spec_translate_page(
                final(active_table).mapper.mem@,
                final(active_table).mapper.root(),
                old(self).page.num(),
            ) is None,
            l1e(
                final(active_table).mapper.mem@,
                final(active_table).mapper.root(),
                old(self).page.num(),
            ) == 0,
            forall|f: u64, i: int|
                !(f == p1_of(
                    old(active_table).mapper.mem@,
                    old(active_table).mapper.root(),
                    old(self).page.num(),
                ) && i == idx1(old(self).page.num()) as int) ==> rd(
                    final(active_table).mapper.mem@,
                    f,
                    i,
                ) == rd(old(active_table).mapper.mem@, f, i),
    {
        active_table.mapper.unmap(self.page, &mut self.allocator);
    }
}

} // verus!
