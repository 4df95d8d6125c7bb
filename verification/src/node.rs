//! A network node: an identity and an age, with relocation and the
//! age-weighted drop law.

use vstd::prelude::*;
use crate::params::DropDist;
use crate::prefix::Name;
use crate::prefix::Prefix;

verus! {

/// Fixed-point scale for the age-proportional drop weights: a weight of
/// `WEIGHT_SCALE` stands for 1.0.
pub const WEIGHT_SCALE: u64 = 0x1_0000_0000;

/// Fixed-point scale for the exponential drop weights; the wide scale
/// keeps `2^(-age)` above zero for every age up to 63. Weights are only
/// ever compared under a single distribution, so the two scales never mix.
pub const EXP_SCALE: u64 = 0x8000_0000_0000_0000;

/// A node has a name and an age.
#[derive(Clone, Copy, Debug, PartialEq, Eq, Structural)]
pub struct Node {
    pub name: Name,
    pub age: u8,
}

impl Node {
    /// The node the relocation law turns `self` into: the fresh name is
    /// forced under `prefix` (extended by `bit` when one is given) and the
    /// age grows by one, saturating at the top of the age range.
    pub open spec fn spec_relocated(self, prefix: Prefix, bit: Option<u8>, fresh: Name) -> Node {
        let target = match bit {
            Option::None => prefix,
            Option::Some(b) => prefix.spec_extend(b),
        };
        Node {
            name: Name(target.spec_substituted_in(fresh.0)),
            age: if self.age < 255 {
                (self.age + 1) as u8
            } else {
                255u8
            },
        }
    }

    /// The node's drop weight: `10 / age` in units of `1 / WEIGHT_SCALE`
    /// under `RevProp` (an age of zero weighs as age one), and `2^(-age)`
    /// in units of `1 / EXP_SCALE` under `Exponential` (zero from age 64
    /// on, past the scale's precision).
    pub open spec fn spec_drop_weight(self, dist: DropDist) -> u64 {
        match dist {
            DropDist::RevProp => if self.age == 0 {
                (10 * WEIGHT_SCALE) as u64
            } else {
                (10 * (WEIGHT_SCALE as int) / (self.age as int)) as u64
            },
            DropDist::Exponential => if self.age >= 64 {
                0u64
            } else {
                EXP_SCALE >> (self.age as u64)
            },
        }
    }

    /// Creates a new node.
    pub fn new(name: u64, age: u8) -> (r: Node)
        ensures
            r == (Node { name: Name(name), age: age }),
    {
        Node { name: Name(name), age }
    }

    /// Generates a relocated name from the fresh random name `fresh` and
    /// increases the age by 1. The `bit` parameter indicates in which half
    /// of the target section the node is relocated.
    pub fn relocate(&mut self, prefix: &Prefix, bit: Option<u8>, fresh: Name)
        requires
            prefix.len <= 64,
        ensures
            *final(self) == old(self).spec_relocated(*prefix, bit, fresh),
    {
        let target: Prefix = match bit {
            None => *prefix,
            Some(b) => prefix.extend(b),
        };
        self.name = target.substituted_in(fresh);
        if self.age < 255 {
            self.age = self.age + 1;
        }
    }

    /// Reset the age for a rejoining node to the larger of `age - 1` and
    /// `min_age`.
    pub fn rejoined(&mut self, min_age: u8)
        ensures
            final(self).name == old(self).name,
            final(self).age == if old(self).age > min_age {
                (old(self).age - 1) as u8
            } else {
                min_age
            },
    {
        if self.age > min_age {
            self.age = self.age - 1;
        } else {
            self.age = min_age;
        }
    }

    /// Returns the name.
    pub fn name(&self) -> (r: Name)
        ensures
            r == self.name,
    {
        self.name
    }

    /// Returns the age.
    pub fn age(&self) -> (r: u8)
        ensures
            r == self.age,
    {
        self.age
    }

    /// Returns whether the node is an adult.
    pub fn is_adult(&self) -> (r: bool)
        ensures
            r == (self.age > 4),
    {
        self.age > 4
    }

    /// Returns the weight used in randomly choosing a node to be dropped.
    pub fn drop_probability(&self, dist: DropDist) -> (r: u64)
        ensures
            r == self.spec_drop_weight(dist),
    {
        match dist {
            DropDist::RevProp => {
                if self.age == 0 {
                    10 * WEIGHT_SCALE
                } else {
                    10 * WEIGHT_SCALE / (self.age as u64)
                }
            },
            DropDist::Exponential => {
                if self.age >= 64 {
                    0
                } else {
                    EXP_SCALE >> (self.age as u64)
                }
            },
        }
    }
}

/// A node's drop weight never exceeds the exponential scale.
pub proof fn lemma_drop_weight_bound(n: Node, dist: DropDist)
    ensures
        n.spec_drop_weight(dist) <= EXP_SCALE,
{
    match dist {
        DropDist::RevProp => {},
        DropDist::Exponential => {
            let a = n.age;
            if a < 64 {
                assert(EXP_SCALE >> (a as u64) <= EXP_SCALE) by (bit_vector);
            }
        },
    }
}

} // verus!
