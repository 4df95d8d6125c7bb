//! Aggregated simulation outputs: counters and histograms.

use vstd::prelude::*;

verus! {

/// A snapshot of the network's shape.
#[derive(Clone, Copy, Debug, PartialEq, Eq, Structural)]
pub struct NetworkStructure {
    /// total number of nodes across all sections
    pub size: usize,
    /// number of sections
    pub sections: usize,
    /// number of complete sections
    pub complete: usize,
}

/// The number of distinct ages a `u8` can hold; histogram vectors have
/// this many buckets.
pub const AGE_BUCKETS: usize = 256;

/// Counters and histograms accumulated over a run.
#[derive(Clone, Debug)]
pub struct Output {
    /// the number of "add" random events
    pub adds: u64,
    /// the number of "drop" random events
    pub drops: u64,
    /// the distribution of drops by age: one bucket per age
    pub drops_dist: Vec<usize>,
    /// the number of "rejoin" random events
    pub rejoins: u64,
    /// the number of relocations
    pub relocations: u64,
    /// the number of rejected nodes
    pub rejections: u64,
    /// the total number of churn events
    pub churn: u64,
    /// the structure of the network over time
    pub network_structure: Vec<NetworkStructure>,
}

/// Advance a counter by one, saturating at the top of the range.
pub open spec fn bump64(c: u64) -> u64 {
    if c < 0xffff_ffff_ffff_ffffu64 {
        (c + 1) as u64
    } else {
        c
    }
}

/// Exec counterpart of [`bump64`].
pub fn bump64_exec(c: u64) -> (r: u64)
    ensures
        r == bump64(c),
{
    if c < u64::MAX {
        c + 1
    } else {
        c
    }
}

/// Advance a histogram bucket by one, saturating at the top of the range.
pub open spec fn bump_usize(c: usize) -> usize {
    if c < usize::MAX {
        (c + 1) as usize
    } else {
        c
    }
}

/// Exec counterpart of [`bump_usize`].
pub fn bump_usize_exec(c: usize) -> (r: usize)
    ensures
        r == bump_usize(c),
{
    if c < usize::MAX {
        c + 1
    } else {
        c
    }
}

impl Output {
    /// One bucket per age.
    pub open spec fn wf(self) -> bool {
        self.drops_dist@.len() == AGE_BUCKETS
    }

    /// Every counter of `self` is at or below the same counter of `other`:
    /// the order in which outputs only ever move.
    pub open spec fn le(self, other: Output) -> bool {
        &&& self.adds <= other.adds
        &&& self.drops <= other.drops
        &&& self.rejoins <= other.rejoins
        &&& self.relocations <= other.relocations
        &&& self.rejections <= other.rejections
        &&& self.churn <= other.churn
        &&& self.drops_dist@.len() == other.drops_dist@.len()
        &&& forall|a: int|
            0 <= a < self.drops_dist@.len() ==> self.drops_dist@[a] <= other.drops_dist@[a]
    }

    /// Fresh, all-zero outputs.
    pub fn new() -> (r: Output)
        ensures
            r.adds == 0,
            r.drops == 0,
            r.rejoins == 0,
            r.relocations == 0,
            r.rejections == 0,
            r.churn == 0,
            r.network_structure@.len() == 0,
            forall|a: int| 0 <= a < r.drops_dist@.len() ==> r.drops_dist@[a] == 0,
            r.wf(),
    {
        let mut dist: Vec<usize> = Vec::new();
        let mut i: usize = 0;
        while i < AGE_BUCKETS
            invariant
                0 <= i <= AGE_BUCKETS,
                dist@.len() == i,
                forall|a: int| 0 <= a < i ==> dist@[a] == 0,
            decreases AGE_BUCKETS - i,
        {
            dist.push(0);
            i = i + 1;
        }
        Output {
            adds: 0,
            drops: 0,
            drops_dist: dist,
            rejoins: 0,
            relocations: 0,
            rejections: 0,
            churn: 0,
            network_structure: Vec::new(),
        }
    }

    /// The order `le` is reflexive and transitive, so outputs observed at
    /// successive moments of a run are totally ordered by it.
    pub proof fn lemma_le_transitive(a: Output, b: Output, c: Output)
        requires
            a.le(b),
            b.le(c),
        ensures
            a.le(a),
            a.le(c),
    {
    }
}

} // verus!
