//! The stack allocator: carve kernel stacks out of a fixed page range, each
//! preceded by one deliberately unmapped guard page, so that running off the
//! bottom of a stack faults instead of silently corrupting the neighbour.

use vstd::prelude::*;

verus! {

use crate::PAGE_SIZE;
use crate::active::ActivePageTable;
use crate::entry::EntryFlags;
use crate::frame::FrameAllocator;
use crate::page::Page;
use crate::page::PageIter;
use crate::page::page_canonical;
use crate::page::idx4;
use crate::walk::l1_slot;
use crate::walk::path_no_huge;
use crate::walk::lvl_extends;
use crate::walk::mapped_fresh;
use crate::entry::FLAG_WRITABLE;
use crate::walk::spec_translate_page;

/// A kernel stack: the virtual addresses one past its highest byte (`top`,
/// where the stack pointer starts) and of its lowest byte (`bottom`).
#[derive(Debug)]
pub struct Stack {
    top: u64,
    bottom: u64,
}

impl Stack {
    /// The address the stack grows down from.
    pub closed spec fn spec_top(self) -> u64 {
        self.top
    }

    /// The lowest address of the stack.
    pub closed spec fn spec_bottom(self) -> u64 {
        self.bottom
    }

    /// A stack between the two addresses; the top must lie above the bottom.
    pub(crate) fn new(top: u64, bottom: u64) -> (r: Stack)
        requires
            top > bottom,
        ensures
            r.spec_top() == top,
            r.spec_bottom() == bottom,
    {
        Stack { top, bottom }
    }

    /// The address the stack grows down from.
    pub fn top(&self) -> (r: u64)
        ensures
            r == self.spec_top(),
    {
        self.top
    }

    /// The lowest address of the stack.
    pub fn bottom(&self) -> (r: u64)
        ensures
            r == self.spec_bottom(),
    {
        self.bottom
    }
}

/// Allocator carving stacks out of a fixed range of pages.
#[derive(Debug)]
pub struct StackAllocator {
    range: PageIter,
}

impl StackAllocator {
    /// Number of the next page the allocator would hand out.
    pub closed spec fn cur(self) -> u64 {
        self.range.cur()
    }

    /// Number of the last page of the range.
    pub closed spec fn last(self) -> u64 {
        self.range.last()
    }

    /// The range is canonical and the cursor has not run past its end.
    pub open spec fn wf(self) -> bool {
        &&& forall|n: u64| self.cur() <= n <= self.last() ==> page_canonical(n)
        &&& page_canonical(self.last())
        &&& self.cur() <= self.last() + 1
        &&& (self.last() + 1) * PAGE_SIZE <= u64::MAX
    }

    /// An allocator handing out stacks from the given page range.
    pub fn new(page_range: PageIter) -> (r: StackAllocator)
        requires
            page_range.wf(),
            page_range.cur() <= page_range.last() + 1,
            (page_range.last() + 1) * PAGE_SIZE <= u64::MAX,
        ensures
            r.wf(),
            r.cur() == page_range.cur(),
            r.last() == page_range.last(),
    {
        StackAllocator { range: page_range }
    }

    /// Carve out a stack of `size_in_pages` pages: one guard page is taken
    /// from the range and left unmapped, then the stack pages follow, mapped
    /// writable to fresh frames.  A zero-sized request and an exhausted range
    /// yield `None` and change nothing.
    pub fn alloc_stack<A: FrameAllocator>(
        &mut self,
        active_table: &mut ActivePageTable,
        frame_allocator: &mut A,
        size_in_pages: u64,
    ) -> (r: Option<Stack>)
        requires
            old(self).wf(),
            old(active_table).inv(),
            forall|n: u64|
                old(self).cur() <= n <= old(self).last() ==> idx4(n) != 511 && l1_slot(
                    old(active_table).mapper.mem@,
                    old(active_table).mapper.cr3,
                    n,
                ) == 0 && path_no_huge(
                    old(active_table).mapper.mem@,
                    old(active_table).mapper.cr3,
                    n,
                ),
            old(frame_allocator).wf(),
            old(frame_allocator).avail().finite(),
            old(frame_allocator).avail().disjoint(old(active_table).mapper.mem@.dom()),
            forall|x: u64| old(frame_allocator).avail().contains(x) ==> x < 0x100_0000_0000,
            // frames are needed only when the request can succeed: a refused
            // request consumes nothing
            (1 <= size_in_pages && old(self).cur() + size_in_pages <= old(self).last()) ==> old(
                frame_allocator,
            ).avail().len() >= 4 * size_in_pages,
        ensures
            final(self).last() == old(self).last(),
            final(self).wf(),
            final(active_table).inv(),
            final(active_table).mapper.cr3 == old(active_table).mapper.cr3,
            lvl_extends(
                old(active_table).mapper.levels@,
                final(active_table).mapper.levels@,
            ),
            // a stack is owed exactly when the request is positive and the
            // guard page plus the stack pages fit in what is left
            (r is Some) == (1 <= size_in_pages && old(self).cur() + size_in_pages <= old(
                self,
            ).last()),
            match r {
                Some(stack) => {
                    &&& stack.spec_bottom() == (old(self).cur() + 1) * PAGE_SIZE
                    &&& stack.spec_top() == (old(self).cur() + 1 + size_in_pages) * PAGE_SIZE
                    &&& stack.spec_top() == stack.spec_bottom() + size_in_pages * PAGE_SIZE
                    &&& final(self).cur() == old(self).cur() + size_in_pages + 1
                    // the stack pages are mapped writable, each to a frame
                    // freshly drawn from the allocator
                    &&& forall|n: u64|
                        old(self).cur() + 1 <= n <= old(self).cur() + size_in_pages
                            ==> #[trigger] mapped_fresh(
                            final(active_table).mapper.mem@,
                            final(active_table).mapper.cr3,
                            n,
                            old(frame_allocator).avail(),
                            FLAG_WRITABLE,
                        )
                    // every other page — the guard page included — keeps its
                    // translation
                    &&& forall|q: u64|
                        page_canonical(q) && idx4(q) != 511 && !(old(self).cur() + 1 <= q <= old(
                            self,
                        ).cur() + size_in_pages) ==> spec_translate_page(
                            final(active_table).mapper.mem@,
                            final(active_table).mapper.cr3,
                            q,
                        ) == spec_translate_page(
                            old(active_table).mapper.mem@,
                            old(active_table).mapper.cr3,
                            q,
                        ) && l1_slot(
                            final(active_table).mapper.mem@,
                            final(active_table).mapper.cr3,
                            q,
                        ) == l1_slot(
                            old(active_table).mapper.mem@,
                            old(active_table).mapper.cr3,
                            q,
                        ) && (path_no_huge(
                            old(active_table).mapper.mem@,
                            old(active_table).mapper.cr3,
                            q,
                        ) ==> path_no_huge(
                            final(active_table).mapper.mem@,
                            final(active_table).mapper.cr3,
                            q,
                        ))
                },
                None => {
                    &&& *final(self) == *old(self)
                    &&& *final(active_table) == *old(active_table)
                    &&& *final(frame_allocator) == *old(frame_allocator)
                },
            },
            final(frame_allocator).wf(),
            final(frame_allocator).avail().finite(),
            final(frame_allocator).avail().disjoint(final(active_table).mapper.mem@.dom()),
            forall|x: u64|
                final(frame_allocator).avail().contains(x) ==> x < 0x100_0000_0000 && old(
                    frame_allocator,
                ).avail().contains(x),
    {
        if size_in_pages == 0 {
            // a zero-sized stack makes no sense
            return None;
        }
        let ghost oc = self.range.cur();
        let ghost ll = self.range.last();
        // work on a copy of the range, so that it only moves on success
        let mut range = self.range;
        // the guard page comes first, then the stack pages
        let guard_page = range.next();
        let stack_start = range.next();
        let stack_end: Option<Page> = if size_in_pages == 1 {
            stack_start
        } else {
            // walk to the last page of the stack
            let mut k: u64 = 0;
            let mut last_page: Option<Page> = None;
            while k < size_in_pages - 1
                invariant
                    1 <= size_in_pages,
                    k <= size_in_pages - 1,
                    oc <= ll + 1,
                    (ll + 1) * PAGE_SIZE <= u64::MAX,
                    range.last() == ll,
                    range.cur() == if oc + 2 + k <= ll + 1 {
                        (oc + 2 + k) as u64
                    } else {
                        (ll + 1) as u64
                    },
                    k >= 1 ==> (last_page matches Some(p) ==> p.num() == oc + 1 + k)
                        && ((last_page is Some) == (oc + 1 + k <= ll)),
                    k == 0 ==> last_page is None,
                decreases size_in_pages - 1 - k,
            {
                last_page = range.next();
                k = k + 1;
            }
            last_page
        };
        match (guard_page, stack_start, stack_end) {
            (Some(_), Some(start), Some(end)) => {
                // success: commit the advanced range
                self.range = range;
                proof {
                    assert(start.num() == oc + 1);
                    assert(end.num() == oc + size_in_pages);
                }
                // map the stack pages to fresh physical frames
                active_table.mapper.map_range(
                    start,
                    end,
                    EntryFlags::writable(),
                    frame_allocator,
                );
                let top_of_stack = end.start_address() + PAGE_SIZE;
                Some(Stack::new(top_of_stack, start.start_address()))
            },
            _ => {
                // not enough pages left
                None
            },
        }
    }
}

} // verus!
