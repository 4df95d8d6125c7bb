//! Simulation parameters.

use vstd::prelude::*;

verus! {

/// How a node's drop weight falls with its age.
#[derive(Clone, Copy, Debug, PartialEq, Eq, Structural)]
pub enum DropDist {
    /// Weight proportional to `10 / age`.
    RevProp,
    /// Weight proportional to `2^(-age)`.
    Exponential,
}

/// The parameter regime a simulation runs under.
///
/// Probabilities are held in parts per million so that the engine works on
/// plain integers throughout.
#[derive(Clone, Copy, Debug)]
pub struct Params {
    /// The age given to newly added nodes, and the floor for rejoining ones.
    pub init_age: u8,
    /// The age-to-weight law used when dropping a random node.
    pub drop_dist: DropDist,
    /// Probability that a relocation picks a fresh random name, in parts
    /// per million.
    pub distant_relocation_ppm: u32,
    /// A section that grows to this many members requests a split.
    pub max_section_size: usize,
    /// A section that falls below this many members requests a merge.
    pub min_section_size: usize,
    /// A section relocates its oldest member every this many counted churn
    /// events; zero disables relocation.
    pub relocation_interval: u64,
}

impl Params {
    /// Whether the distant-relocation probability is a valid proportion.
    pub open spec fn wf(self) -> bool {
        self.distant_relocation_ppm <= 1_000_000
    }
}

} // verus!
