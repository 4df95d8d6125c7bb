//! Events that can happen in the network. The sections handle them and
//! generate new ones in the process; some events are also generated from
//! the outside.

use vstd::prelude::*;
use crate::node::Node;
use crate::prefix::Name;
use crate::prefix::Prefix;

verus! {

/// The messages the dispatcher routes to a section.
#[derive(Clone, Copy, Debug, PartialEq, Eq, Structural)]
pub enum NetworkEvent {
    /// A node is joining. The boolean indicates whether the event should
    /// count for node ageing; it is false only for the synthetic `Live`
    /// events generated during a merge operation.
    Live(Node, bool),
    /// A node has left; the section decides the membership impact.
    Lost(Name),
    /// An elder was lost through a structural change; not counted for
    /// churn ageing.
    Gone(Node),
    /// An informational hand-off of a relocated node.
    Relocated(Node),
    /// Announces the section's new prefix after a structural transition.
    PrefixChange(Prefix),
    /// Marks the beginning of a merge preamble for a section.
    StartMerge(Prefix),
}

impl NetworkEvent {
    /// Whether the event counts towards churn when ageing peers in a
    /// section: true for all but `StartMerge`, `Gone` and `Live(_, false)`.
    pub open spec fn spec_should_count(self) -> bool {
        match self {
            NetworkEvent::StartMerge(_) => false,
            NetworkEvent::Gone(_) => false,
            NetworkEvent::Live(_, counts) => counts,
            _ => true,
        }
    }

    /// This function determines whether an event should count towards
    /// churn in ageing peers in the section.
    pub fn should_count(&self) -> (r: bool)
        ensures
            r == self.spec_should_count(),
    {
        match *self {
            NetworkEvent::StartMerge(_) | NetworkEvent::Gone(_) | NetworkEvent::Live(_, false)
                => false,
            _ => true,
        }
    }
}

/// Events reported by the sections to the network. The network processes
/// them and responds with churn events.
#[derive(Clone, Copy, Debug, PartialEq, Eq, Structural)]
pub enum SectionEvent {
    NodeDropped(Node),
    NodeRejected(Node),
    NeedRelocate(Node),
    RequestMerge,
    RequestSplit,
}

} // verus!
