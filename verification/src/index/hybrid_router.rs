//! One index over several kinds.

use vstd::prelude::*;
use crate::compute::simd_ops::{found_in, sorted_floats};
use crate::float::{not_a_number, rank, FloatModel, Floats, F64};
use crate::index::btree::BTree;
use crate::index::dynamic_pgm::{has_key, DynamicPGMIndex};
use crate::index::pgm::{key_place, PGMIndex};
use crate::index::rmi::{exact_window, staged_place, RMIIndex};

verus! {

/// How far around a predicted position a staged index is searched.
pub const SEARCH_REACH: usize = 16;

/// An index of one of the kinds.
pub enum HybridIndex {
    RMI(RMIIndex),
    PGM(PGMIndex),
    DynamicPGM(DynamicPGMIndex),
    BTree(BTree),
}

impl HybridIndex {
    pub open spec fn wf(&self) -> bool {
        match self {
            HybridIndex::RMI(i) => {
                &&& i.wf()
                &&& sorted_floats(i.keys@)
            },
            HybridIndex::PGM(i) => i.wf(),
            HybridIndex::DynamicPGM(i) => i.wf(),
            HybridIndex::BTree(i) => i.wf(),
        }
    }

    /// What a search for a key yields: a place or the key's value; for an index
    /// with a buffer, zero where the key is there.
    pub open spec fn lookup(&self, key: u64, fl: FloatModel) -> Option<int> {
        match self {
            HybridIndex::RMI(i) => {
                let p = staged_place(i.stages@, i.positions@.len() as int, key, fl);
                let w = exact_window(p, SEARCH_REACH as int, i.keys@.len() as int);
                found_in(i.keys@, key, w.0, w.1)
            },
            HybridIndex::PGM(i) => key_place(
                i.segments@,
                i.keys@,
                i.error_bound as int,
                key,
                fl,
            ),
            HybridIndex::DynamicPGM(i) => if has_key(i.write_buffer@, key) || has_key(
                i.base.keys@,
                key,
            ) {
                Some(0)
            } else {
                None
            },
            HybridIndex::BTree(i) => if i@.dom().contains(rank(key)) {
                Some(i@[rank(key)].1 as int)
            } else {
                None
            },
        }
    }

    /// Searches for a key.
    pub fn search<F: Floats>(&self, key: F64, floats: &F) -> (r: Option<usize>)
        requires
            floats.sound(),
            self.wf(),
            self matches HybridIndex::RMI(i) ==> i.in_reach(
                key.bits,
                SEARCH_REACH,
                floats.model(),
            ),
            !not_a_number(key.bits),
        ensures
            match r {
                Some(i) => self.lookup(key.bits, floats.model()) == Some(i as int),
                None => self.lookup(key.bits, floats.model()) is None,
            },
    {
        match self {
            HybridIndex::RMI(i) => i.find_exact(key, SEARCH_REACH, floats),
            HybridIndex::PGM(i) => i.search(key, floats),
            HybridIndex::DynamicPGM(i) => {
                if i.contains(key, floats) {
                    Some(0)
                } else {
                    None
                }
            },
            HybridIndex::BTree(i) => i.search(key),
        }
    }

    /// The name of the kind.
    pub fn index_type(&self) -> (r: &'static str)
        ensures
            r@ == match self {
                HybridIndex::RMI(_) => "RMI"@,
                HybridIndex::PGM(_) => "PGM"@,
                HybridIndex::DynamicPGM(_) => "DynamicPGM"@,
                HybridIndex::BTree(_) => "BTree"@,
            },
    {
        match self {
            HybridIndex::RMI(_) => "RMI",
            HybridIndex::PGM(_) => "PGM",
            HybridIndex::DynamicPGM(_) => "DynamicPGM",
            HybridIndex::BTree(_) => "BTree",
        }
    }
}

} // verus!
