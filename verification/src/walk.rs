//! Specification of the four-level table walk and of the well-formedness
//! invariant that the mapper maintains over the modelled physical memory.
//!
//! All definitions speak about a memory `m: Map<u64, Seq<u64>>` (frame number
//! to table words), a control-register frame `cr3`, and a ghost typing
//! `lvl: Map<u64, int>` that assigns each modelled table its level, 4 down
//! to 1.  The typing makes the hierarchy a forest: tables on a walk path have
//! strictly decreasing levels, so they are pairwise distinct, and distinct
//! table entries point at distinct child tables.

use vstd::prelude::*;

verus! {

use crate::entry::entry_present;
use crate::entry::entry_huge;
use crate::entry::entry_frame;
use crate::entry::entry_encode;
use crate::entry::FLAG_PRESENT;
use crate::entry::FLAG_WRITABLE;
use crate::page::idx4;
use crate::page::idx3;
use crate::page::idx2;
use crate::page::idx1;
use crate::phys::rd;

/// The flag word `PRESENT | WRITABLE`, which every entry pointing at a child
/// table carries.
pub open spec fn flags_table() -> u64 {
    FLAG_PRESENT | FLAG_WRITABLE
}

/// The level-4 entry read on the walk for page number `n` from `root`.
pub open spec fn l4e(m: Map<u64, Seq<u64>>, root: u64, n: u64) -> u64 {
    rd(m, root, idx4(n) as int)
}

/// The level-3 table frame on the walk for `n`.
pub open spec fn p3_of(m: Map<u64, Seq<u64>>, root: u64, n: u64) -> u64 {
    entry_frame(l4e(m, root, n))
}

/// The level-3 entry read on the walk for `n`.
pub open spec fn l3e(m: Map<u64, Seq<u64>>, root: u64, n: u64) -> u64 {
    rd(m, p3_of(m, root, n), idx3(n) as int)
}

/// The level-2 table frame on the walk for `n`.
pub open spec fn p2_of(m: Map<u64, Seq<u64>>, root: u64, n: u64) -> u64 {
    entry_frame(l3e(m, root, n))
}

/// The level-2 entry read on the walk for `n`.
pub open spec fn l2e(m: Map<u64, Seq<u64>>, root: u64, n: u64) -> u64 {
    rd(m, p2_of(m, root, n), idx2(n) as int)
}

/// The level-1 table frame on the walk for `n`.
pub open spec fn p1_of(m: Map<u64, Seq<u64>>, root: u64, n: u64) -> u64 {
    entry_frame(l2e(m, root, n))
}

/// The level-1 entry read on the walk for `n`.
pub open spec fn l1e(m: Map<u64, Seq<u64>>, root: u64, n: u64) -> u64 {
    rd(m, p1_of(m, root, n), idx1(n) as int)
}

/// Whether an entry steps down to a child table: present and not huge.
pub open spec fn steps_down(e: u64) -> bool {
    entry_present(e) && !entry_huge(e)
}

/// The walk for page `n` runs through present, non-huge entries all the way
/// down to the level-1 table.
pub open spec fn path_complete(m: Map<u64, Seq<u64>>, root: u64, n: u64) -> bool {
    &&& steps_down(l4e(m, root, n))
    &&& steps_down(l3e(m, root, n))
    &&& steps_down(l2e(m, root, n))
}

/// No entry on the walk for page `n` is a huge-page entry (as far as the walk
/// is present).  The mapper never writes over or below a huge page.
pub open spec fn path_no_huge(m: Map<u64, Seq<u64>>, root: u64, n: u64) -> bool {
    &&& !(entry_present(l4e(m, root, n)) && entry_huge(l4e(m, root, n)))
    &&& entry_present(l4e(m, root, n)) ==> !(entry_present(l3e(m, root, n)) && entry_huge(
        l3e(m, root, n),
    ))
    &&& entry_present(l4e(m, root, n)) && entry_present(l3e(m, root, n)) ==> !(entry_present(
        l2e(m, root, n),
    ) && entry_huge(l2e(m, root, n)))
}

/// How many tables the walk for page `n` still lacks: the tables a mapping
/// of `n` would have to create.
pub open spec fn missing_tables(m: Map<u64, Seq<u64>>, root: u64, n: u64) -> int {
    if !entry_present(l4e(m, root, n)) {
        3
    } else if !entry_present(l3e(m, root, n)) {
        2
    } else if !entry_present(l2e(m, root, n)) {
        1
    } else {
        0
    }
}

/// The level-1 entry governing page `n`, or zero where the walk is not
/// complete.  A page can be mapped only where this word is zero.
pub open spec fn l1_slot(m: Map<u64, Seq<u64>>, root: u64, n: u64) -> u64 {
    if path_complete(m, root, n) {
        l1e(m, root, n)
    } else {
        0
    }
}

/// The physical frame number that page number `n` translates to under `root`,
/// or `None`.  Huge entries resolve at level 3 (1 GiB) and level 2 (2 MiB).
pub open spec fn spec_translate_page(m: Map<u64, Seq<u64>>, root: u64, n: u64) -> Option<u64> {
    let e4 = l4e(m, root, n);
    if !steps_down(e4) {
        None
    } else {
        let e3 = l3e(m, root, n);
        if entry_present(e3) && entry_huge(e3) {
            Some(((entry_frame(e3) + idx2(n) * 512 + idx1(n)) as u64))
        } else if !entry_present(e3) {
            None
        } else {
            let e2 = l2e(m, root, n);
            if entry_present(e2) && entry_huge(e2) {
                Some(((entry_frame(e2) + idx1(n)) as u64))
            } else if !entry_present(e2) {
                None
            } else {
                let e1 = l1e(m, root, n);
                if entry_present(e1) {
                    Some(entry_frame(e1))
                } else {
                    None
                }
            }
        }
    }
}

/// The physical address that virtual address `addr` translates to under
/// `root`, or `None`: the frame of the page, plus the offset within the page.
pub open spec fn spec_translate(m: Map<u64, Seq<u64>>, root: u64, addr: u64) -> Option<u64> {
    match spec_translate_page(m, root, addr / 4096) {
        Some(f) => Some(((f * 4096 + addr % 4096) as u64)),
        None => None,
    }
}

/// Whether the cell `(f, i)` lies on the walk path of page `n` from `root`:
/// the four entry cells the mapper writes when it maps `n`.
pub open spec fn on_path(m: Map<u64, Seq<u64>>, root: u64, n: u64, f: u64, i: int) -> bool {
    ||| (f == root && i == idx4(n) as int)
    ||| (f == p3_of(m, root, n) && i == idx3(n) as int)
    ||| (f == p2_of(m, root, n) && i == idx2(n) as int)
    ||| (f == p1_of(m, root, n) && i == idx1(n) as int)
}

/// A table entry that points down at a child table does so consistently with
/// the level typing: the child is modelled, one level below.
pub open spec fn child_ok(m: Map<u64, Seq<u64>>, lvl: Map<u64, int>, f: u64, i: int) -> bool {
    steps_down(m[f][i]) ==> {
        &&& m.contains_key(entry_frame(m[f][i]))
        &&& lvl[entry_frame(m[f][i])] == lvl[f] - 1
    }
}

/// Whether `(f, i)` is a table cell that may point down at a child table:
/// a cell of a table of level 2 or above, excluding slot 511 of any level-4
/// table, which is reserved for the recursive self-reference.
pub open spec fn is_branch_cell(m: Map<u64, Seq<u64>>, lvl: Map<u64, int>, f: u64, i: int) -> bool {
    &&& m.contains_key(f)
    &&& 0 <= i < 512
    &&& 2 <= lvl[f]
    &&& !(lvl[f] == 4 && i == 511)
}

/// Well-formedness of the modelled memory under the level typing `lvl`.
///
/// - every modelled frame is a table of 512 words with a level 1 to 4;
/// - `cr3` is a level-4 table whose slot 511 points, with `PRESENT|WRITABLE`,
///   at a level-4 table (the edit root) whose own slot 511 points at itself:
///   the recursive-mapping invariant;
/// - every present, non-huge entry of a table of level 2 and above (slot 511
///   of level-4 tables aside) points at a modelled table one level below;
/// - distinct branch cells point at distinct child tables, so the hierarchy
///   is a forest;
/// - huge entries are aligned: 1 GiB entries to 512·512 frames, 2 MiB entries
///   to 512 frames.
pub open spec fn inv_at(m: Map<u64, Seq<u64>>, cr3: u64, lvl: Map<u64, int>) -> bool {
    &&& m.contains_key(cr3)
    &&& lvl.dom() == m.dom()
    &&& forall|f: u64| #[trigger] m.contains_key(f) ==> m[f].len() == 512
    &&& forall|f: u64| #[trigger] m.contains_key(f) ==> 1 <= lvl[f] <= 4
    &&& lvl[cr3] == 4
    &&& {
        let r = entry_frame(rd(m, cr3, 511));
        &&& rd(m, cr3, 511) == entry_encode(r, flags_table())
        &&& m.contains_key(r)
        &&& lvl[r] == 4
        &&& rd(m, r, 511) == entry_encode(r, flags_table())
    }
    &&& forall|f: u64, i: int|
        is_branch_cell(m, lvl, f, i) ==> #[trigger] child_ok(m, lvl, f, i)
    &&& forall|f: u64, i: int, g: u64, j: int|
        is_branch_cell(m, lvl, f, i) && is_branch_cell(m, lvl, g, j) && steps_down(
            #[trigger] m[f][i],
        ) && steps_down(#[trigger] m[g][j]) && entry_frame(m[f][i]) == entry_frame(m[g][j]) ==> f
            == g && i == j
    &&& forall|f: u64, i: int|
        m.contains_key(f) && 0 <= i < 512 && lvl[f] == 3 && entry_present(#[trigger] m[f][i])
            && entry_huge(m[f][i]) ==> entry_frame(m[f][i]) % 0x40000 == 0
    &&& forall|f: u64, i: int|
        m.contains_key(f) && 0 <= i < 512 && lvl[f] == 2 && entry_present(#[trigger] m[f][i])
            && entry_huge(m[f][i]) ==> entry_frame(m[f][i]) % 512 == 0
}

/// What a successful mapping of page `n` to frame `fnum` with flag bits
/// `bits` does to the memory: the walk for `n` is complete and ends in
/// the encoded entry, so `n` translates to `fnum`, and every cell off the
/// walk path of `n` is unchanged.
pub open spec fn mapped_at(
    pre: Map<u64, Seq<u64>>,
    post: Map<u64, Seq<u64>>,
    root: u64,
    n: u64,
    fnum: u64,
    bits: u64,
) -> bool {
    &&& path_complete(post, root, n)
    &&& l1e(post, root, n) == entry_encode(fnum, bits | FLAG_PRESENT)
    &&& spec_translate_page(post, root, n) == Some(fnum)
    &&& forall|f: u64, i: int|
        !on_path(post, root, n, f, i) ==> rd(post, f, i) == rd(pre, f, i)
    &&& forall|f: u64| pre.contains_key(f) ==> post.contains_key(f)
    &&& steps_down(l4e(pre, root, n)) ==> l4e(post, root, n) == l4e(pre, root, n)
    &&& !steps_down(l4e(pre, root, n)) ==> !pre.contains_key(p3_of(post, root, n))
    &&& steps_down(l4e(pre, root, n)) && steps_down(l3e(pre, root, n)) ==> l3e(
        post,
        root,
        n,
    ) == l3e(pre, root, n)
    &&& !(steps_down(l4e(pre, root, n)) && steps_down(l3e(pre, root, n)))
        ==> !pre.contains_key(p2_of(post, root, n))
    &&& path_complete(pre, root, n) ==> l2e(post, root, n) == l2e(pre, root, n)
    &&& !path_complete(pre, root, n) ==> !pre.contains_key(p1_of(post, root, n))
    &&& !steps_down(l4e(pre, root, n)) ==> l4e(post, root, n) == entry_encode(
        p3_of(post, root, n),
        flags_table(),
    )
    &&& !(steps_down(l4e(pre, root, n)) && steps_down(l3e(pre, root, n))) ==> l3e(
        post,
        root,
        n,
    ) == entry_encode(p2_of(post, root, n), flags_table())
    &&& !path_complete(pre, root, n) ==> l2e(post, root, n) == entry_encode(
        p1_of(post, root, n),
        flags_table(),
    )
}

/// Page `n` is mapped, through a complete walk, to a single frame drawn from
/// `avail`, with the flag bits `bits` plus `PRESENT` in its level-1 entry.
pub open spec fn mapped_fresh(
    m: Map<u64, Seq<u64>>,
    root: u64,
    n: u64,
    avail: Set<u64>,
    bits: u64,
) -> bool {
    exists|f: u64|
        {
            &&& #[trigger] avail.contains(f)
            &&& path_complete(m, root, n)
            &&& l1e(m, root, n) == entry_encode(f, (bits | FLAG_PRESENT) as u64)
            &&& spec_translate_page(m, root, n) == Some(f)
        }
}

/// Page `n` is mapped, through a complete walk, to some single frame, with
/// the flag bits `bits` plus `PRESENT` in its level-1 entry.
pub open spec fn mapped_with(m: Map<u64, Seq<u64>>, root: u64, n: u64, bits: u64) -> bool {
    exists|f: u64|
        {
            &&& path_complete(m, root, n)
            &&& l1e(m, root, n) == #[trigger] entry_encode(f, (bits | FLAG_PRESENT) as u64)
            &&& spec_translate_page(m, root, n) == Some(f)
        }
}

/// First page of the virtual window for temporary mappings.
pub open spec fn temp_window_first() -> u64 {
    crate::KERNEL_TEMP_OFFSET / 4096
}

/// Last page of the virtual window for temporary mappings: the window spans
/// one whole level-4 slot.
pub open spec fn temp_window_last() -> u64 {
    (crate::KERNEL_TEMP_OFFSET / 4096 + 0x7ff_ffff) as u64
}

/// The temporary window is canonical and lies under level-4 slot 508.
pub proof fn lemma_temp_window_bounds()
    by (bit_vector)
    ensures
        crate::page::page_canonical(temp_window_first()),
        crate::page::page_canonical(temp_window_last()),
        temp_window_first() == 0xffff_fe00_0000_0000u64 / 4096,
        crate::page::addr_canonical(0xffff_fe00_0000_0000u64),
{
}

/// Every page of the temporary window is canonical, indexes level-4 slot
/// 508, and has a start address.
pub proof fn lemma_temp_window_page(n: u64)
    by (bit_vector)
    requires
        temp_window_first() <= n <= temp_window_last(),
    ensures
        crate::page::page_canonical(n),
        idx4(n) == 508,
        n * 4096 <= u64::MAX,
        n < u64::MAX,
{
}

/// The table-pointer flag word is made of known flags, has `PRESENT` set,
/// and has `HUGE_PAGE` clear.
pub proof fn lemma_flags_table_bits()
    by (bit_vector)
    ensures
        flags_table() & crate::entry::ENTRY_FLAGS_MASK == flags_table(),
        flags_table() & FLAG_PRESENT == FLAG_PRESENT,
        flags_table() & crate::entry::FLAG_HUGE_PAGE != crate::entry::FLAG_HUGE_PAGE,
{
}

/// Mapping one page changes no other page: for every canonical page `q`
/// other than the mapped page `n`, the walk of `q` reads the same entries
/// before and after, so its translation, its level-1 slot and the absence of
/// huge entries on its path are untouched.
pub proof fn lemma_mapped_at_preserves_other(
    pre: Map<u64, Seq<u64>>,
    post: Map<u64, Seq<u64>>,
    cr3: u64,
    lvl1: Map<u64, int>,
    lvl2: Map<u64, int>,
    root: u64,
    n: u64,
    fnum: u64,
    bits: u64,
    q: u64,
)
    requires
        inv_at(pre, cr3, lvl1),
        inv_at(post, cr3, lvl2),
        lvl_extends(lvl1, lvl2),
        pre.contains_key(root),
        lvl1[root] == 4,
        mapped_at(pre, post, root, n, fnum, bits),
        path_no_huge(pre, root, n),
        crate::page::page_canonical(n),
        crate::page::page_canonical(q),
        idx4(n) != 511,
        idx4(q) != 511,
        q != n,
    ensures
        spec_translate_page(post, root, q) == spec_translate_page(pre, root, q),
        l1_slot(post, root, q) == l1_slot(pre, root, q),
        path_no_huge(pre, root, q) ==> path_no_huge(post, root, q),
{
    crate::page::lemma_idx_range(n);
    crate::page::lemma_idx_range(q);
    let p3n = p3_of(post, root, n);
    let p2n = p2_of(post, root, n);
    let p1n = p1_of(post, root, n);
    // the post walk of n is complete, so its three lower tables are typed
    assert(is_branch_cell(post, lvl2, root, idx4(n) as int));
    assert(child_ok(post, lvl2, root, idx4(n) as int));
    assert(post.contains_key(p3n) && lvl2[p3n] == 3);
    assert(is_branch_cell(post, lvl2, p3n, idx3(n) as int));
    assert(child_ok(post, lvl2, p3n, idx3(n) as int));
    assert(post.contains_key(p2n) && lvl2[p2n] == 2);
    assert(is_branch_cell(post, lvl2, p2n, idx2(n) as int));
    assert(child_ok(post, lvl2, p2n, idx2(n) as int));
    assert(post.contains_key(p1n) && lvl2[p1n] == 1);
    assert(lvl2[root] == 4);
    // level 4 of the walk of q
    if idx4(q) != idx4(n) {
        assert(!on_path(post, root, n, root, idx4(q) as int));
        assert(l4e(post, root, q) == l4e(pre, root, q));
        let e4q = l4e(pre, root, q);
        if steps_down(e4q) {
            let p3q = p3_of(pre, root, q);
            assert(is_branch_cell(pre, lvl1, root, idx4(q) as int));
            assert(child_ok(pre, lvl1, root, idx4(q) as int));
            assert(pre.contains_key(p3q) && lvl1[p3q] == 3 && lvl2[p3q] == 3);
            // the level-3 table of q is none of the path tables of n
            assert(p3q != p3n) by {
                if p3q == p3n {
                    if steps_down(l4e(pre, root, n)) {
                        assert(p3n == p3_of(pre, root, n));
                        assert(is_branch_cell(pre, lvl1, root, idx4(q) as int));
                        assert(is_branch_cell(pre, lvl1, root, idx4(n) as int));
                        assert(steps_down(pre[root][idx4(q) as int]));
                        assert(steps_down(pre[root][idx4(n) as int]));
                        assert(entry_frame(pre[root][idx4(q) as int]) == entry_frame(
                            pre[root][idx4(n) as int],
                        ));
                        assert(idx4(q) == idx4(n));
                    } else {
                        assert(!pre.contains_key(p3n));
                    }
                }
            }
            assert(!on_path(post, root, n, p3q, idx3(q) as int));
            assert(l3e(post, root, q) == l3e(pre, root, q));
            let e3q = l3e(pre, root, q);
            if steps_down(e3q) {
                let p2q = p2_of(pre, root, q);
                assert(is_branch_cell(pre, lvl1, p3q, idx3(q) as int));
                assert(child_ok(pre, lvl1, p3q, idx3(q) as int));
                assert(pre.contains_key(p2q) && lvl1[p2q] == 2 && lvl2[p2q] == 2);
                assert(p2q != p2n);
                assert(!on_path(post, root, n, p2q, idx2(q) as int));
                assert(l2e(post, root, q) == l2e(pre, root, q));
                let e2q = l2e(pre, root, q);
                if steps_down(e2q) {
                    let p1q = p1_of(pre, root, q);
                    assert(is_branch_cell(pre, lvl1, p2q, idx2(q) as int));
                    assert(child_ok(pre, lvl1, p2q, idx2(q) as int));
                    assert(pre.contains_key(p1q) && lvl1[p1q] == 1 && lvl2[p1q] == 1);
                    assert(p1q != p1n);
                    assert(!on_path(post, root, n, p1q, idx1(q) as int));
                    assert(l1e(post, root, q) == l1e(pre, root, q));
                }
            }
        }
    } else {
        // q shares the level-4 entry of n
        if steps_down(l4e(pre, root, n)) {
            assert(l4e(post, root, q) == l4e(pre, root, q));
            assert(p3_of(pre, root, q) == p3n);
            lemma_shared_p3(pre, post, cr3, lvl1, lvl2, root, n, q, p3n, p2n, p1n);
        } else {
            // the level-3 table under this entry is fresh: in `pre` the walk
            // of q already ends, and in `post` it runs into zeroed tables
            assert(!entry_present(l4e(pre, root, q)));
            assert(spec_translate_page(pre, root, q) is None);
            assert(l1_slot(pre, root, q) == 0);
            assert(!pre.contains_key(p3n));
            assert(p3_of(post, root, q) == p3n);
            if idx3(q) != idx3(n) {
                assert(!on_path(post, root, n, p3n, idx3(q) as int));
                assert(rd(post, p3n, idx3(q) as int) == rd(pre, p3n, idx3(q) as int));
                assert(rd(pre, p3n, idx3(q) as int) == 0);
                crate::entry::lemma_present_nonzero(0);
                assert(spec_translate_page(post, root, q) is None);
                assert(l1_slot(post, root, q) == 0);
            } else {
                assert(l3e(post, root, q) == l3e(post, root, n));
                assert(p2_of(post, root, q) == p2n);
                assert(!pre.contains_key(p2n));
                if idx2(q) != idx2(n) {
                    assert(!on_path(post, root, n, p2n, idx2(q) as int));
                    assert(rd(post, p2n, idx2(q) as int) == rd(pre, p2n, idx2(q) as int));
                    assert(rd(pre, p2n, idx2(q) as int) == 0);
                    crate::entry::lemma_present_nonzero(0);
                    assert(spec_translate_page(post, root, q) is None);
                    assert(l1_slot(post, root, q) == 0);
                } else {
                    assert(l2e(post, root, q) == l2e(post, root, n));
                    assert(p1_of(post, root, q) == p1n);
                    assert(!pre.contains_key(p1n));
                    assert(idx1(q) != idx1(n)) by {
                        if idx1(q) == idx1(n) {
                            crate::page::lemma_idx_injective(q, n);
                        }
                    }
                    assert(!on_path(post, root, n, p1n, idx1(q) as int));
                    assert(rd(post, p1n, idx1(q) as int) == rd(pre, p1n, idx1(q) as int));
                    assert(rd(pre, p1n, idx1(q) as int) == 0);
                    crate::entry::lemma_present_nonzero(0);
                    assert(spec_translate_page(post, root, q) is None);
                    assert(l1_slot(post, root, q) == 0);
                }
            }
        }
    }
}

/// Mapping a page under one level-4 root changes nothing that is reachable
/// from a different level-4 root: the two hierarchies share no branch cells.
pub proof fn lemma_mapped_at_preserves_other_root(
    pre: Map<u64, Seq<u64>>,
    post: Map<u64, Seq<u64>>,
    cr3: u64,
    lvl1: Map<u64, int>,
    lvl2: Map<u64, int>,
    root: u64,
    root2: u64,
    n: u64,
    fnum: u64,
    bits: u64,
    q: u64,
)
    requires
        inv_at(pre, cr3, lvl1),
        inv_at(post, cr3, lvl2),
        lvl_extends(lvl1, lvl2),
        pre.contains_key(root),
        lvl1[root] == 4,
        pre.contains_key(root2),
        lvl1[root2] == 4,
        root2 != root,
        mapped_at(pre, post, root, n, fnum, bits),
        crate::page::page_canonical(n),
        idx4(n) != 511,
        idx4(q) != 511,
    ensures
        spec_translate_page(post, root2, q) == spec_translate_page(pre, root2, q),
        l1_slot(post, root2, q) == l1_slot(pre, root2, q),
        path_no_huge(post, root2, q) == path_no_huge(pre, root2, q),
{
    crate::page::lemma_idx_range(n);
    crate::page::lemma_idx_range(q);
    let p3n = p3_of(post, root, n);
    let p2n = p2_of(post, root, n);
    let p1n = p1_of(post, root, n);
    assert(is_branch_cell(post, lvl2, root, idx4(n) as int));
    assert(child_ok(post, lvl2, root, idx4(n) as int));
    assert(post.contains_key(p3n) && lvl2[p3n] == 3);
    assert(is_branch_cell(post, lvl2, p3n, idx3(n) as int));
    assert(child_ok(post, lvl2, p3n, idx3(n) as int));
    assert(post.contains_key(p2n) && lvl2[p2n] == 2);
    assert(is_branch_cell(post, lvl2, p2n, idx2(n) as int));
    assert(child_ok(post, lvl2, p2n, idx2(n) as int));
    assert(post.contains_key(p1n) && lvl2[p1n] == 1);
    assert(!on_path(post, root, n, root2, idx4(q) as int));
    assert(l4e(post, root2, q) == l4e(pre, root2, q));
    let e4q = l4e(pre, root2, q);
    if steps_down(e4q) {
        let p3q = p3_of(pre, root2, q);
        assert(is_branch_cell(pre, lvl1, root2, idx4(q) as int));
        assert(child_ok(pre, lvl1, root2, idx4(q) as int));
        assert(pre.contains_key(p3q) && lvl1[p3q] == 3 && lvl2[p3q] == 3);
        assert(p3q != p3n) by {
            if p3q == p3n {
                if steps_down(l4e(pre, root, n)) {
                    assert(p3n == p3_of(pre, root, n));
                    assert(is_branch_cell(pre, lvl1, root, idx4(n) as int));
                    assert(steps_down(pre[root2][idx4(q) as int]));
                    assert(steps_down(pre[root][idx4(n) as int]));
                    assert(entry_frame(pre[root2][idx4(q) as int]) == entry_frame(
                        pre[root][idx4(n) as int],
                    ));
                    assert(root2 == root);
                } else {
                    assert(!pre.contains_key(p3n));
                }
            }
        }
        assert(!on_path(post, root, n, p3q, idx3(q) as int));
        assert(l3e(post, root2, q) == l3e(pre, root2, q));
        let e3q = l3e(pre, root2, q);
        if steps_down(e3q) {
            let p2q = p2_of(pre, root2, q);
            assert(is_branch_cell(pre, lvl1, p3q, idx3(q) as int));
            assert(child_ok(pre, lvl1, p3q, idx3(q) as int));
            assert(pre.contains_key(p2q) && lvl1[p2q] == 2 && lvl2[p2q] == 2);
            assert(p2q != p2n) by {
                if p2q == p2n {
                    if steps_down(l4e(pre, root, n)) && steps_down(l3e(pre, root, n)) {
                        assert(p2n == p2_of(pre, root, n));
                        let p3x = p3_of(pre, root, n);
                        assert(pre.contains_key(p3x) && lvl1[p3x] == 3) by {
                            assert(is_branch_cell(pre, lvl1, root, idx4(n) as int));
                            assert(child_ok(pre, lvl1, root, idx4(n) as int));
                        }
                        assert(is_branch_cell(pre, lvl1, p3q, idx3(q) as int));
                        assert(is_branch_cell(pre, lvl1, p3x, idx3(n) as int));
                        assert(steps_down(pre[p3q][idx3(q) as int]));
                        assert(steps_down(pre[p3x][idx3(n) as int]));
                        assert(entry_frame(pre[p3q][idx3(q) as int]) == entry_frame(
                            pre[p3x][idx3(n) as int],
                        ));
                        assert(p3q == p3x);
                        assert(p3q != p3n);
                        assert(false);
                    } else {
                        assert(!pre.contains_key(p2n));
                    }
                }
            }
            assert(!on_path(post, root, n, p2q, idx2(q) as int));
            assert(l2e(post, root2, q) == l2e(pre, root2, q));
            let e2q = l2e(pre, root2, q);
            if steps_down(e2q) {
                let p1q = p1_of(pre, root2, q);
                assert(is_branch_cell(pre, lvl1, p2q, idx2(q) as int));
                assert(child_ok(pre, lvl1, p2q, idx2(q) as int));
                assert(pre.contains_key(p1q) && lvl1[p1q] == 1 && lvl2[p1q] == 1);
                assert(p1q != p1n) by {
                    if p1q == p1n {
                        if path_complete(pre, root, n) {
                            assert(l3e(post, root, n) == l3e(pre, root, n));
                            let p2x = p2_of(pre, root, n);
                            assert(p2x == p2n);
                            assert(p1n == entry_frame(l2e(pre, root, n)));
                            assert(pre.contains_key(p2x) && lvl1[p2x] == 2) by {
                                let p3x = p3_of(pre, root, n);
                                assert(is_branch_cell(pre, lvl1, root, idx4(n) as int));
                                assert(child_ok(pre, lvl1, root, idx4(n) as int));
                                assert(is_branch_cell(pre, lvl1, p3x, idx3(n) as int));
                                assert(child_ok(pre, lvl1, p3x, idx3(n) as int));
                            }
                            assert(is_branch_cell(pre, lvl1, p2q, idx2(q) as int));
                            assert(is_branch_cell(pre, lvl1, p2x, idx2(n) as int));
                            assert(steps_down(pre[p2q][idx2(q) as int]));
                            assert(steps_down(pre[p2x][idx2(n) as int]));
                            assert(entry_frame(pre[p2q][idx2(q) as int]) == entry_frame(
                                pre[p2x][idx2(n) as int],
                            ));
                            assert(p2q == p2x);
                            assert(false);
                        } else {
                            assert(!pre.contains_key(p1n));
                        }
                    }
                }
                assert(!on_path(post, root, n, p1q, idx1(q) as int));
                assert(l1e(post, root2, q) == l1e(pre, root2, q));
            }
        }
    }
}

/// Helper for the case where `q` shares the level-4 entry of the mapped page
/// `n`, and that entry already stepped down before the mapping.
proof fn lemma_shared_p3(
    pre: Map<u64, Seq<u64>>,
    post: Map<u64, Seq<u64>>,
    cr3: u64,
    lvl1: Map<u64, int>,
    lvl2: Map<u64, int>,
    root: u64,
    n: u64,
    q: u64,
    p3n: u64,
    p2n: u64,
    p1n: u64,
)
    requires
        inv_at(pre, cr3, lvl1),
        inv_at(post, cr3, lvl2),
        lvl_extends(lvl1, lvl2),
        pre.contains_key(root),
        lvl1[root] == 4,
        forall|f: u64, i: int|
            !on_path(post, root, n, f, i) ==> rd(post, f, i) == rd(pre, f, i),
        steps_down(l4e(pre, root, n)),
        l4e(post, root, n) == l4e(pre, root, n),
        steps_down(l4e(pre, root, n)) && steps_down(l3e(pre, root, n)) ==> l3e(post, root, n)
            == l3e(pre, root, n),
        !(steps_down(l4e(pre, root, n)) && steps_down(l3e(pre, root, n)))
            ==> !pre.contains_key(p2n),
        path_complete(pre, root, n) ==> l2e(post, root, n) == l2e(pre, root, n),
        !path_complete(pre, root, n) ==> !pre.contains_key(p1n),
        path_complete(post, root, n),
        path_no_huge(pre, root, n),
        crate::page::page_canonical(n),
        crate::page::page_canonical(q),
        idx4(n) != 511,
        idx4(q) == idx4(n),
        q != n,
        p3n == p3_of(post, root, n),
        p2n == p2_of(post, root, n),
        p1n == p1_of(post, root, n),
        p3_of(pre, root, n) == p3n,
        post.contains_key(p3n) && lvl2[p3n] == 3 && lvl1.dom().contains(p3n) ==> lvl1[p3n] == 3,
        post.contains_key(p3n) && lvl2[p3n] == 3,
        post.contains_key(p2n) && lvl2[p2n] == 2,
        post.contains_key(p1n) && lvl2[p1n] == 1,
        lvl2[root] == 4,
    ensures
        spec_translate_page(post, root, q) == spec_translate_page(pre, root, q),
        l1_slot(post, root, q) == l1_slot(pre, root, q),
        path_no_huge(pre, root, q) ==> path_no_huge(post, root, q),
{
    crate::page::lemma_idx_range(n);
    crate::page::lemma_idx_range(q);
    assert(l4e(post, root, q) == l4e(pre, root, q));
    assert(p3_of(pre, root, q) == p3n && p3_of(post, root, q) == p3n);
    assert(pre.contains_key(p3n)) by {
        assert(is_branch_cell(pre, lvl1, root, idx4(n) as int));
        assert(child_ok(pre, lvl1, root, idx4(n) as int));
    }
    assert(lvl1[p3n] == 3);
    if idx3(q) != idx3(n) {
        assert(!on_path(post, root, n, p3n, idx3(q) as int));
        assert(l3e(post, root, q) == l3e(pre, root, q));
        let e3q = l3e(pre, root, q);
        if steps_down(e3q) {
            let p2q = p2_of(pre, root, q);
            assert(is_branch_cell(pre, lvl1, p3n, idx3(q) as int));
            assert(child_ok(pre, lvl1, p3n, idx3(q) as int));
            assert(pre.contains_key(p2q) && lvl1[p2q] == 2 && lvl2[p2q] == 2);
            assert(p2q != p2n) by {
                if pre.contains_key(p2n) {
                    if steps_down(l3e(pre, root, n)) {
                        assert(p2n == entry_frame(l3e(pre, root, n)));
                        assert(is_branch_cell(pre, lvl1, p3n, idx3(n) as int));
                    } else {
                        // the table under the level-3 entry of n is fresh,
                        // so it cannot be in `pre`
                        assert(!pre.contains_key(p2n));
                    }
                }
            }
            assert(!on_path(post, root, n, p2q, idx2(q) as int));
            assert(l2e(post, root, q) == l2e(pre, root, q));
            let e2q = l2e(pre, root, q);
            if steps_down(e2q) {
                let p1q = p1_of(pre, root, q);
                assert(is_branch_cell(pre, lvl1, p2q, idx2(q) as int));
                assert(child_ok(pre, lvl1, p2q, idx2(q) as int));
                assert(pre.contains_key(p1q) && lvl1[p1q] == 1 && lvl2[p1q] == 1);
                assert(p1q != p1n) by {
                    if p1q == p1n {
                        if path_complete(pre, root, n) {
                            assert(l3e(post, root, n) == l3e(pre, root, n));
                            let p2x = p2_of(pre, root, n);
                            assert(p2x == p2n);
                            assert(p1n == entry_frame(l2e(pre, root, n)));
                            assert(pre.contains_key(p2x) && lvl1[p2x] == 2) by {
                                assert(is_branch_cell(pre, lvl1, p3n, idx3(n) as int));
                                assert(child_ok(pre, lvl1, p3n, idx3(n) as int));
                            }
                            assert(is_branch_cell(pre, lvl1, p2q, idx2(q) as int));
                            assert(is_branch_cell(pre, lvl1, p2x, idx2(n) as int));
                            assert(steps_down(pre[p2q][idx2(q) as int]));
                            assert(steps_down(pre[p2x][idx2(n) as int]));
                            assert(entry_frame(pre[p2q][idx2(q) as int]) == entry_frame(
                                pre[p2x][idx2(n) as int],
                            ));
                            assert(p2q == p2x);
                        } else {
                            assert(!pre.contains_key(p1n));
                        }
                    }
                }
                assert(!on_path(post, root, n, p1q, idx1(q) as int));
                assert(l1e(post, root, q) == l1e(pre, root, q));
            }
        }
    } else {
        // q also shares the level-3 entry of n
        if steps_down(l3e(pre, root, n)) {
            assert(l3e(post, root, q) == l3e(post, root, n));
            assert(l3e(pre, root, q) == l3e(pre, root, n));
            assert(p2_of(pre, root, q) == p2n && p2_of(post, root, q) == p2n);
            assert(pre.contains_key(p2n)) by {
                assert(is_branch_cell(pre, lvl1, p3n, idx3(n) as int));
                assert(child_ok(pre, lvl1, p3n, idx3(n) as int));
            }
            assert(lvl1[p2n] == 2);
            if idx2(q) != idx2(n) {
                assert(!on_path(post, root, n, p2n, idx2(q) as int));
                assert(l2e(post, root, q) == l2e(pre, root, q));
                let e2q = l2e(pre, root, q);
                if steps_down(e2q) {
                    let p1q = p1_of(pre, root, q);
                    assert(is_branch_cell(pre, lvl1, p2n, idx2(q) as int));
                    assert(child_ok(pre, lvl1, p2n, idx2(q) as int));
                    assert(pre.contains_key(p1q) && lvl1[p1q] == 1 && lvl2[p1q] == 1);
                    assert(p1q != p1n) by {
                        if p1q == p1n {
                            if path_complete(pre, root, n) {
                                assert(p1n == entry_frame(l2e(pre, root, n)));
                                assert(p2_of(pre, root, n) == p2n);
                                assert(is_branch_cell(pre, lvl1, p2n, idx2(q) as int));
                                assert(is_branch_cell(pre, lvl1, p2n, idx2(n) as int));
                                assert(steps_down(pre[p2n][idx2(q) as int]));
                                assert(steps_down(pre[p2n][idx2(n) as int]));
                                assert(entry_frame(pre[p2n][idx2(q) as int]) == entry_frame(
                                    pre[p2n][idx2(n) as int],
                                ));
                                assert(idx2(q) == idx2(n));
                            } else {
                                assert(!pre.contains_key(p1n));
                            }
                        }
                    }
                    assert(!on_path(post, root, n, p1q, idx1(q) as int));
                    assert(l1e(post, root, q) == l1e(pre, root, q));
                }
            } else {
                // q shares the whole branch down to the level-1 table
                assert(idx1(q) != idx1(n)) by {
                    if idx1(q) == idx1(n) {
                        crate::page::lemma_idx_injective(q, n);
                    }
                }
                if path_complete(pre, root, n) {
                    assert(l2e(post, root, q) == l2e(pre, root, q));
                    assert(p1_of(pre, root, q) == p1n && p1_of(post, root, q) == p1n);
                    assert(!on_path(post, root, n, p1n, idx1(q) as int));
                    assert(l1e(post, root, q) == l1e(pre, root, q));
                } else {
                    // the level-1 table is fresh: q read nothing there before
                    assert(!entry_present(l2e(pre, root, n)));
                    assert(l2e(pre, root, q) == l2e(pre, root, n));
                    assert(spec_translate_page(pre, root, q) is None);
                    assert(l1_slot(pre, root, q) == 0);
                    assert(!pre.contains_key(p1n));
                    assert(p1_of(post, root, q) == p1n);
                    assert(!on_path(post, root, n, p1n, idx1(q) as int));
                    assert(rd(post, p1n, idx1(q) as int) == rd(pre, p1n, idx1(q) as int));
                    assert(rd(pre, p1n, idx1(q) as int) == 0);
                    crate::entry::lemma_present_nonzero(0);
                    assert(spec_translate_page(post, root, q) is None);
                    assert(l1_slot(post, root, q) == 0);
                }
            }
        } else {
            // the level-2 table is fresh
            assert(!entry_present(l3e(pre, root, n)));
            assert(l3e(pre, root, q) == l3e(pre, root, n));
            assert(spec_translate_page(pre, root, q) is None);
            assert(l1_slot(pre, root, q) == 0);
            assert(!pre.contains_key(p2n));
            assert(l3e(post, root, q) == l3e(post, root, n));
            assert(p2_of(post, root, q) == p2n);
            if idx2(q) != idx2(n) {
                assert(!on_path(post, root, n, p2n, idx2(q) as int));
                assert(rd(post, p2n, idx2(q) as int) == rd(pre, p2n, idx2(q) as int));
                assert(rd(pre, p2n, idx2(q) as int) == 0);
                crate::entry::lemma_present_nonzero(0);
                assert(spec_translate_page(post, root, q) is None);
                assert(l1_slot(post, root, q) == 0);
            } else {
                assert(l2e(post, root, q) == l2e(post, root, n));
                assert(p1_of(post, root, q) == p1n);
                assert(!pre.contains_key(p1n));
                assert(idx1(q) != idx1(n)) by {
                    if idx1(q) == idx1(n) {
                        crate::page::lemma_idx_injective(q, n);
                    }
                }
                assert(!on_path(post, root, n, p1n, idx1(q) as int));
                assert(rd(post, p1n, idx1(q) as int) == rd(pre, p1n, idx1(q) as int));
                assert(rd(pre, p1n, idx1(q) as int) == 0);
                crate::entry::lemma_present_nonzero(0);
                assert(spec_translate_page(post, root, q) is None);
                assert(l1_slot(post, root, q) == 0);
            }
        }
    }
}

/// Changing the one level-1 entry of page `n` (as unmapping does) changes no
/// other page: for every canonical page `q` other than `n`, translation, the
/// level-1 slot, and the absence of huge entries on the path are untouched.
pub proof fn lemma_l1_cell_preserves_other(
    pre: Map<u64, Seq<u64>>,
    post: Map<u64, Seq<u64>>,
    cr3: u64,
    lvl: Map<u64, int>,
    root: u64,
    n: u64,
    q: u64,
)
    requires
        inv_at(pre, cr3, lvl),
        inv_at(post, cr3, lvl),
        pre.contains_key(root),
        lvl[root] == 4,
        path_complete(pre, root, n),
        forall|f: u64, i: int|
            !(f == p1_of(pre, root, n) && i == idx1(n) as int) ==> rd(post, f, i) == rd(pre, f, i),
        crate::page::page_canonical(n),
        crate::page::page_canonical(q),
        idx4(n) != 511,
        idx4(q) != 511,
        q != n,
    ensures
        spec_translate_page(post, root, q) == spec_translate_page(pre, root, q),
        l1_slot(post, root, q) == l1_slot(pre, root, q),
        path_no_huge(post, root, q) == path_no_huge(pre, root, q),
{
    crate::page::lemma_idx_range(n);
    crate::page::lemma_idx_range(q);
    let p3n = p3_of(pre, root, n);
    let p2n = p2_of(pre, root, n);
    let p1n = p1_of(pre, root, n);
    assert(is_branch_cell(pre, lvl, root, idx4(n) as int));
    assert(child_ok(pre, lvl, root, idx4(n) as int));
    assert(pre.contains_key(p3n) && lvl[p3n] == 3);
    assert(is_branch_cell(pre, lvl, p3n, idx3(n) as int));
    assert(child_ok(pre, lvl, p3n, idx3(n) as int));
    assert(pre.contains_key(p2n) && lvl[p2n] == 2);
    assert(is_branch_cell(pre, lvl, p2n, idx2(n) as int));
    assert(child_ok(pre, lvl, p2n, idx2(n) as int));
    assert(pre.contains_key(p1n) && lvl[p1n] == 1);
    // level 4 of the walk of q: its cell is in a level-4 table
    assert(l4e(post, root, q) == l4e(pre, root, q));
    let e4q = l4e(pre, root, q);
    if steps_down(e4q) {
        let p3q = p3_of(pre, root, q);
        assert(is_branch_cell(pre, lvl, root, idx4(q) as int));
        assert(child_ok(pre, lvl, root, idx4(q) as int));
        assert(pre.contains_key(p3q) && lvl[p3q] == 3);
        assert(l3e(post, root, q) == l3e(pre, root, q));
        let e3q = l3e(pre, root, q);
        if steps_down(e3q) {
            let p2q = p2_of(pre, root, q);
            assert(is_branch_cell(pre, lvl, p3q, idx3(q) as int));
            assert(child_ok(pre, lvl, p3q, idx3(q) as int));
            assert(pre.contains_key(p2q) && lvl[p2q] == 2);
            assert(l2e(post, root, q) == l2e(pre, root, q));
            let e2q = l2e(pre, root, q);
            if steps_down(e2q) {
                let p1q = p1_of(pre, root, q);
                assert(is_branch_cell(pre, lvl, p2q, idx2(q) as int));
                assert(child_ok(pre, lvl, p2q, idx2(q) as int));
                assert(pre.contains_key(p1q) && lvl[p1q] == 1);
                // the level-1 cells of q and n coincide only if every index
                // does, which would make the pages equal
                assert(l1e(post, root, q) == l1e(pre, root, q)) by {
                    if p1q == p1n && idx1(q) == idx1(n) {
                        assert(steps_down(pre[p2q][idx2(q) as int]));
                        assert(steps_down(pre[p2n][idx2(n) as int]));
                        assert(entry_frame(pre[p2q][idx2(q) as int]) == entry_frame(
                            pre[p2n][idx2(n) as int],
                        ));
                        assert(p2q == p2n && idx2(q) == idx2(n));
                        assert(steps_down(pre[p3q][idx3(q) as int]));
                        assert(steps_down(pre[p3n][idx3(n) as int]));
                        assert(entry_frame(pre[p3q][idx3(q) as int]) == entry_frame(
                            pre[p3n][idx3(n) as int],
                        ));
                        assert(p3q == p3n && idx3(q) == idx3(n));
                        assert(steps_down(pre[root][idx4(q) as int]));
                        assert(steps_down(pre[root][idx4(n) as int]));
                        assert(entry_frame(pre[root][idx4(q) as int]) == entry_frame(
                            pre[root][idx4(n) as int],
                        ));
                        assert(idx4(q) == idx4(n));
                        crate::page::lemma_idx_injective(q, n);
                    }
                }
            }
        }
    }
}

/// Changing the level-1 entry of page `n` under one level-4 root changes
/// nothing reachable from a different level-4 root: two complete walks from
/// distinct roots share no table, so they share no cell.
pub proof fn lemma_l1_cell_preserves_other_root(
    pre: Map<u64, Seq<u64>>,
    post: Map<u64, Seq<u64>>,
    cr3: u64,
    lvl: Map<u64, int>,
    rootn: u64,
    root2: u64,
    n: u64,
    q: u64,
)
    requires
        inv_at(pre, cr3, lvl),
        inv_at(post, cr3, lvl),
        pre.contains_key(rootn),
        lvl[rootn] == 4,
        pre.contains_key(root2),
        lvl[root2] == 4,
        rootn != root2,
        path_complete(pre, rootn, n),
        forall|f: u64, i: int|
            !(f == p1_of(pre, rootn, n) && i == idx1(n) as int) ==> rd(post, f, i) == rd(
                pre,
                f,
                i,
            ),
        idx4(n) != 511,
        idx4(q) != 511,
    ensures
        spec_translate_page(post, root2, q) == spec_translate_page(pre, root2, q),
        l1_slot(post, root2, q) == l1_slot(pre, root2, q),
        path_no_huge(post, root2, q) == path_no_huge(pre, root2, q),
{
    crate::page::lemma_idx_range(n);
    crate::page::lemma_idx_range(q);
    let p3n = p3_of(pre, rootn, n);
    let p2n = p2_of(pre, rootn, n);
    let p1n = p1_of(pre, rootn, n);
    assert(is_branch_cell(pre, lvl, rootn, idx4(n) as int));
    assert(child_ok(pre, lvl, rootn, idx4(n) as int));
    assert(pre.contains_key(p3n) && lvl[p3n] == 3);
    assert(is_branch_cell(pre, lvl, p3n, idx3(n) as int));
    assert(child_ok(pre, lvl, p3n, idx3(n) as int));
    assert(pre.contains_key(p2n) && lvl[p2n] == 2);
    assert(is_branch_cell(pre, lvl, p2n, idx2(n) as int));
    assert(child_ok(pre, lvl, p2n, idx2(n) as int));
    assert(pre.contains_key(p1n) && lvl[p1n] == 1);
    assert(l4e(post, root2, q) == l4e(pre, root2, q));
    let e4q = l4e(pre, root2, q);
    if steps_down(e4q) {
        let p3q = p3_of(pre, root2, q);
        assert(is_branch_cell(pre, lvl, root2, idx4(q) as int));
        assert(child_ok(pre, lvl, root2, idx4(q) as int));
        assert(pre.contains_key(p3q) && lvl[p3q] == 3);
        assert(l3e(post, root2, q) == l3e(pre, root2, q));
        let e3q = l3e(pre, root2, q);
        if steps_down(e3q) {
            let p2q = p2_of(pre, root2, q);
            assert(is_branch_cell(pre, lvl, p3q, idx3(q) as int));
            assert(child_ok(pre, lvl, p3q, idx3(q) as int));
            assert(pre.contains_key(p2q) && lvl[p2q] == 2);
            assert(l2e(post, root2, q) == l2e(pre, root2, q));
            let e2q = l2e(pre, root2, q);
            if steps_down(e2q) {
                let p1q = p1_of(pre, root2, q);
                assert(is_branch_cell(pre, lvl, p2q, idx2(q) as int));
                assert(child_ok(pre, lvl, p2q, idx2(q) as int));
                assert(pre.contains_key(p1q) && lvl[p1q] == 1);
                // if the level-1 tables were shared, the parent chains would
                // force the two roots to coincide
                assert(l1e(post, root2, q) == l1e(pre, root2, q)) by {
                    if p1q == p1n {
                        assert(steps_down(pre[p2q][idx2(q) as int]));
                        assert(steps_down(pre[p2n][idx2(n) as int]));
                        assert(entry_frame(pre[p2q][idx2(q) as int]) == entry_frame(
                            pre[p2n][idx2(n) as int],
                        ));
                        assert(p2q == p2n && idx2(q) == idx2(n));
                        assert(steps_down(pre[p3q][idx3(q) as int]));
                        assert(steps_down(pre[p3n][idx3(n) as int]));
                        assert(entry_frame(pre[p3q][idx3(q) as int]) == entry_frame(
                            pre[p3n][idx3(n) as int],
                        ));
                        assert(p3q == p3n && idx3(q) == idx3(n));
                        assert(steps_down(pre[root2][idx4(q) as int]));
                        assert(steps_down(pre[rootn][idx4(n) as int]));
                        assert(entry_frame(pre[root2][idx4(q) as int]) == entry_frame(
                            pre[rootn][idx4(n) as int],
                        ));
                        assert(root2 == rootn);
                    }
                }
            }
        }
    }
}

/// On a complete walk, the three lower tables are modelled and typed with
/// levels 3, 2 and 1.
pub proof fn lemma_path_typed(
    m: Map<u64, Seq<u64>>,
    cr3: u64,
    lvl: Map<u64, int>,
    root: u64,
    n: u64,
)
    requires
        inv_at(m, cr3, lvl),
        m.contains_key(root),
        lvl[root] == 4,
        idx4(n) != 511,
        path_complete(m, root, n),
    ensures
        m.contains_key(p3_of(m, root, n)) && lvl[p3_of(m, root, n)] == 3,
        m.contains_key(p2_of(m, root, n)) && lvl[p2_of(m, root, n)] == 2,
        m.contains_key(p1_of(m, root, n)) && lvl[p1_of(m, root, n)] == 1,
{
    crate::page::lemma_idx_range(n);
    assert(is_branch_cell(m, lvl, root, idx4(n) as int));
    assert(child_ok(m, lvl, root, idx4(n) as int));
    assert(is_branch_cell(m, lvl, p3_of(m, root, n), idx3(n) as int));
    assert(child_ok(m, lvl, p3_of(m, root, n), idx3(n) as int));
    assert(is_branch_cell(m, lvl, p2_of(m, root, n), idx2(n) as int));
    assert(child_ok(m, lvl, p2_of(m, root, n), idx2(n) as int));
}

/// A mapped page translates byte for byte: when page `n` translates to frame
/// `fnum`, every address of the page translates to the same offset within
/// the frame.
pub proof fn lemma_translate_bytes(m: Map<u64, Seq<u64>>, root: u64, n: u64, fnum: u64, o: u64)
    requires
        crate::page::page_canonical(n),
        spec_translate_page(m, root, n) == Some(fnum),
        o < 4096,
    ensures
        spec_translate(m, root, ((n * 4096 + o) as u64)) == Some(((fnum * 4096 + o) as u64)),
{
    let addr = ((n * 4096 + o) as u64);
    assert(n * 4096 + o <= u64::MAX && addr / 4096 == n && addr % 4096 == o) by (bit_vector)
        requires
            n < 0x10_0000_0000_0000,
            o < 4096,
            addr == ((n * 4096 + o) as u64),
    ;
}

/// The typing `b` agrees with `a` wherever `a` is defined.
pub open spec fn lvl_extends(a: Map<u64, int>, b: Map<u64, int>) -> bool {
    &&& a.dom().subset_of(b.dom())
    &&& forall|f: u64| #[trigger] a.dom().contains(f) ==> b[f] == a[f]
}

} // verus!
