//! Virtual pages.
//!
//! A `Page` stands for one 4 KiB slice of virtual address space, identified by
//! its number (virtual address divided by the page size).  A page is only ever
//! built from a canonical address — one whose bits 48 to 63 copy bit 47 — so
//! every page number is canonical too: below `0x8_0000_0000`, or at least
//! `0xf_fff8_0000_0000`.

use vstd::prelude::*;

verus! {

use crate::PAGE_SIZE;

/// Whether a virtual address is canonical: bits 48–63 are the sign extension
/// of bit 47.
pub open spec fn addr_canonical(addr: u64) -> bool {
    addr < 0x0000_8000_0000_0000 || addr >= 0xffff_8000_0000_0000
}

/// Whether a page number comes from a canonical address.
pub open spec fn page_canonical(n: u64) -> bool {
    n < 0x8_0000_0000 || (0xf_fff8_0000_0000 <= n && n < 0x10_0000_0000_0000)
}

/// Index into the level-4 table for this page number (bits 27–35).
pub open spec fn idx4(n: u64) -> u64 {
    (n >> 27) & 0o777
}

/// Index into the level-3 table for this page number (bits 18–26).
pub open spec fn idx3(n: u64) -> u64 {
    (n >> 18) & 0o777
}

/// Index into the level-2 table for this page number (bits 9–17).
pub open spec fn idx2(n: u64) -> u64 {
    (n >> 9) & 0o777
}

/// Index into the level-1 table for this page number (bits 0–8).
pub open spec fn idx1(n: u64) -> u64 {
    n & 0o777
}

/// Every table index extracted from a page number is below 512.
pub proof fn lemma_idx_range(n: u64)
    by (bit_vector)
    ensures
        idx4(n) < 512,
        idx3(n) < 512,
        idx2(n) < 512,
        idx1(n) < 512,
{
}

/// Two canonical page numbers with the same four table indexes are equal.
pub proof fn lemma_idx_injective(a: u64, b: u64)
    by (bit_vector)
    requires
        page_canonical(a),
        page_canonical(b),
        idx4(a) == idx4(b),
        idx3(a) == idx3(b),
        idx2(a) == idx2(b),
        idx1(a) == idx1(b),
    ensures
        a == b,
{
}

/// A page in the identity-mapped low half never uses the recursive slot.
pub proof fn lemma_low_page_idx4(n: u64)
    by (bit_vector)
    requires
        n < 0x8_0000_0000,
    ensures
        idx4(n) < 256,
{
}

/// The start address of a canonical page is canonical and maps back to the
/// page number.
pub proof fn lemma_page_start_addr(n: u64)
    by (bit_vector)
    requires
        page_canonical(n),
    ensures
        n * 4096 <= u64::MAX,
        addr_canonical((n * 4096) as u64),
        ((n * 4096) as u64) / 4096 == n,
{
}

/// A page number from a canonical address is canonical.
pub proof fn lemma_addr_canonical_page(addr: u64)
    by (bit_vector)
    requires
        addr_canonical(addr),
    ensures
        page_canonical(addr / 4096),
{
}

/// One 4 KiB unit of virtual address space.
#[derive(Debug, Clone, Copy, PartialEq, Eq, Structural)]
pub struct Page {
    number: u64,
}

impl Page {
    /// The page number (virtual address divided by the page size).
    pub closed spec fn num(self) -> u64 {
        self.number
    }

    /// The page holding the given virtual address.  The original panics on
    /// exactly the non-canonical addresses, those strictly between
    /// `0x0000_7fff_ffff_ffff` and `0xffff_8000_0000_0000`; here precisely
    /// the canonical ones are admitted.
    pub fn containing_address(addr: u64) -> (r: Page)
        requires
            addr_canonical(addr),
        ensures
            r.num() == addr / PAGE_SIZE,
            page_canonical(r.num()),
    {
        proof {
            lemma_addr_canonical_page(addr);
        }
        Page { number: addr / PAGE_SIZE }
    }

    /// The page number, as a plain value.
    pub(crate) fn number_of_page(&self) -> (r: u64)
        ensures
            r == self.num(),
    {
        self.number
    }

    /// Virtual address of the first byte of the page.
    pub fn start_address(&self) -> (r: u64)
        requires
            self.num() * PAGE_SIZE <= u64::MAX,
        ensures
            r == self.num() * PAGE_SIZE,
    {
        self.number * PAGE_SIZE
    }

    /// The page `rhs` pages above this one.
    pub fn offset(self, rhs: u64) -> (r: Page)
        requires
            self.num() + rhs <= u64::MAX,
        ensures
            r.num() == self.num() + rhs,
    {
        Page { number: self.number + rhs }
    }

    /// Index into the level-4 table.
    pub(crate) fn p4_index(&self) -> (r: usize)
        ensures
            r == idx4(self.num()),
            r < 512,
    {
        proof {
            lemma_idx_range(self.num());
        }
        ((self.number >> 27) & 0o777) as usize
    }

    /// Index into the level-3 table.
    pub(crate) fn p3_index(&self) -> (r: usize)
        ensures
            r == idx3(self.num()),
            r < 512,
    {
        proof {
            lemma_idx_range(self.num());
        }
        ((self.number >> 18) & 0o777) as usize
    }

    /// Index into the level-2 table.
    pub(crate) fn p2_index(&self) -> (r: usize)
        ensures
            r == idx2(self.num()),
            r < 512,
    {
        proof {
            lemma_idx_range(self.num());
        }
        ((self.number >> 9) & 0o777) as usize
    }

    /// Index into the level-1 table.
    pub(crate) fn p1_index(&self) -> (r: usize)
        ensures
            r == idx1(self.num()),
            r < 512,
    {
        proof {
            lemma_idx_range(self.num());
        }
        (self.number & 0o777) as usize
    }

    /// Iterator over the pages from `start` to `end`, both included.
    ///
    /// Both bounds must lie on the same side of the non-canonical hole, so
    /// that every page the iterator yields is canonical; a range that would
    /// step across the hole is refused up front.
    pub fn range_inclusive(start: Page, end: Page) -> (r: PageIter)
        requires
            page_canonical(start.num()),
            page_canonical(end.num()),
            start.num() < 0x8_0000_0000 <==> end.num() < 0x8_0000_0000,
        ensures
            r.cur() == start.num(),
            r.last() == end.num(),
            r.wf(),
    {
        PageIter { start, end }
    }
}

/// Inclusive iterator over a range of pages.
#[derive(Debug, Clone, Copy)]
pub struct PageIter {
    start: Page,
    end: Page,
}

impl PageIter {
    /// Number of the next page the iterator would yield.
    pub closed spec fn cur(self) -> u64 {
        self.start.num()
    }

    /// Number of the last page of the range.
    pub closed spec fn last(self) -> u64 {
        self.end.num()
    }

    /// Every page the iterator can still yield is canonical.
    pub open spec fn wf(self) -> bool {
        &&& page_canonical(self.last())
        &&& forall|n: u64| self.cur() <= n <= self.last() ==> page_canonical(n)
    }

    /// The number of the next page, as a plain value.
    pub(crate) fn cur_num(&self) -> (r: u64)
        ensures
            r == self.cur(),
    {
        self.start.number
    }

    /// The number of the last page, as a plain value.
    pub(crate) fn last_num(&self) -> (r: u64)
        ensures
            r == self.last(),
    {
        self.end.number
    }

    /// The next page of the range, if one is left.
    pub fn next(&mut self) -> (r: Option<Page>)
        requires
            old(self).cur() < u64::MAX,
        ensures
            final(self).last() == old(self).last(),
            old(self).wf() ==> final(self).wf(),
            old(self).cur() <= old(self).last() ==> {
                &&& r matches Some(p) && p.num() == old(self).cur()
                &&& final(self).cur() == old(self).cur() + 1
            },
            old(self).cur() > old(self).last() ==> r is None && final(self).cur() == old(
                self,
            ).cur(),
    {
        if self.start.number <= self.end.number {
            let page = self.start;
            self.start.number = self.start.number + 1;
            Some(page)
        } else {
            None
        }
    }
}

} // verus!
