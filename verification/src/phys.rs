//! The modelled physical memory.
//!
//! Only the frames that hold page tables are modelled: each one is an array
//! of 512 entry words, keyed by its frame number.  Reading an entry of a
//! frame that holds no table yields zero, the "unused" word, which matches
//! how absent mappings read during a table walk.

use vstd::prelude::*;
use std::collections::HashMap;

verus! {

broadcast use vstd::std_specs::hash::group_hash_axioms;

/// An entry word of physical memory: entry `i` of the table in frame `f`,
/// read as zero when the frame holds no modelled table or the index is out
/// of range.
pub open spec fn rd(m: Map<u64, Seq<u64>>, f: u64, i: int) -> u64 {
    if m.contains_key(f) && 0 <= i < m[f].len() {
        m[f][i]
    } else {
        0
    }
}

/// Physical memory, holding the frames that contain page tables.
pub struct PhysMemory {
    tables: HashMap<u64, Vec<u64>>,
}

impl View for PhysMemory {
    type V = Map<u64, Seq<u64>>;

    closed spec fn view(&self) -> Map<u64, Seq<u64>> {
        self.tables@.map_values(|t: Vec<u64>| t@)
    }
}

impl PhysMemory {
    /// Every modelled table has exactly 512 entries.
    pub open spec fn wf(self) -> bool {
        forall|f: u64| #[trigger] self@.contains_key(f) ==> self@[f].len() == 512
    }

    /// Physical memory with no modelled tables.
    pub fn new() -> (r: PhysMemory)
        ensures
            r@ == Map::<u64, Seq<u64>>::empty(),
            r.wf(),
    {
        let r = PhysMemory { tables: HashMap::new() };
        proof {
            assert(r@ =~= Map::<u64, Seq<u64>>::empty());
        }
        r
    }

    /// Whether the given frame holds a modelled table.
    pub fn contains(&self, f: u64) -> (r: bool)
        ensures
            r == self@.contains_key(f),
    {
        self.tables.contains_key(&f)
    }

    /// Read entry `i` of the table in frame `f`; an absent table reads as
    /// all zeros.
    pub fn read(&self, f: u64, i: usize) -> (r: u64)
        requires
            i < 512,
            self.wf(),
        ensures
            r == rd(self@, f, i as int),
    {
        match self.tables.get(&f) {
            Some(t) => {
                proof {
                    assert(self@.contains_key(f) && self@[f] == t@);
                }
                t[i]
            },
            None => 0,
        }
    }

    /// Write entry `i` of the table in frame `f`.
    pub fn write(&mut self, f: u64, i: usize, v: u64)
        requires
            old(self)@.contains_key(f),
            i < 512,
            old(self).wf(),
        ensures
            final(self)@ == old(self)@.insert(f, old(self)@[f].update(i as int, v)),
            final(self).wf(),
    {
        let mut t = self.tables.remove(&f).unwrap();
        t[i] = v;
        self.tables.insert(f, t);
        proof {
            assert(self@ =~= old(self)@.insert(f, old(self)@[f].update(i as int, v)));
        }
    }

    /// Install an all-zero table in a frame that held none, as zeroing a
    /// freshly allocated table frame does.
    pub fn install_table(&mut self, f: u64)
        requires
            !old(self)@.contains_key(f),
            old(self).wf(),
        ensures
            final(self)@ == old(self)@.insert(f, Seq::<u64>::new(512, |i: int| 0u64)),
            final(self).wf(),
    {
        let mut t: Vec<u64> = Vec::new();
        let mut i: usize = 0;
        while i < 512
            invariant
                i <= 512,
                t@ =~= Seq::<u64>::new(i as nat, |j: int| 0u64),
            decreases 512 - i,
        {
            t.push(0);
            i = i + 1;
        }
        self.tables.insert(f, t);
        proof {
            assert(t@ =~= Seq::<u64>::new(512, |i: int| 0u64));
            assert(self@ =~= old(self)@.insert(f, Seq::<u64>::new(512, |i: int| 0u64)));
        }
    }
}

} // verus!
