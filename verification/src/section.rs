//! The per-prefix section: membership for one prefix, with the policy
//! that drives splits, merges and relocations.
//!
//! A section holds its members in insertion order, keeps their names
//! unique, and maintains a cached drop weight equal to the sum of its
//! members' age weights.

use vstd::prelude::*;
use crate::churn::NetworkEvent;
use crate::churn::SectionEvent;
use crate::node::Node;
use crate::node::EXP_SCALE;
use crate::params::DropDist;
use crate::params::Params;
use crate::prefix::Name;
use crate::prefix::Prefix;
use crate::prefix::spec_bit_is_set;

verus! {

/// A section with at least this many members counts as complete.
pub const GROUP_SIZE: usize = 8;

/// The sum of the members' drop weights under `dist`.
pub open spec fn spec_total_weight(nodes: Seq<Node>, dist: DropDist) -> int
    decreases nodes.len(),
{
    if nodes.len() == 0 {
        0
    } else {
        spec_total_weight(nodes.drop_last(), dist) + nodes.last().spec_drop_weight(dist)
    }
}

/// Whether some member of `nodes` carries `name`.
pub open spec fn spec_has_name(nodes: Seq<Node>, name: Name) -> bool {
    exists|i: int| 0 <= i < nodes.len() && nodes[i].name == name
}

pub proof fn lemma_total_weight_push(nodes: Seq<Node>, dist: DropDist, x: Node)
    ensures
        spec_total_weight(nodes.push(x), dist) == spec_total_weight(nodes, dist)
            + x.spec_drop_weight(dist),
{
    assert(nodes.push(x).drop_last() =~= nodes);
    assert(nodes.push(x).last() == x);
}

pub proof fn lemma_total_weight_nonneg(nodes: Seq<Node>, dist: DropDist)
    ensures
        spec_total_weight(nodes, dist) >= 0,
    decreases nodes.len(),
{
    if nodes.len() > 0 {
        lemma_total_weight_nonneg(nodes.drop_last(), dist);
    }
}

pub proof fn lemma_total_weight_bound(nodes: Seq<Node>, dist: DropDist)
    ensures
        spec_total_weight(nodes, dist) <= nodes.len() * EXP_SCALE,
    decreases nodes.len(),
{
    if nodes.len() == 0 {
    } else {
        lemma_total_weight_bound(nodes.drop_last(), dist);
        crate::node::lemma_drop_weight_bound(nodes.last(), dist);
        assert((nodes.len() - 1) * EXP_SCALE + EXP_SCALE == nodes.len()
            * EXP_SCALE) by (nonlinear_arith);
    }
}

pub proof fn lemma_total_weight_remove(nodes: Seq<Node>, dist: DropDist, i: int)
    requires
        0 <= i < nodes.len(),
    ensures
        spec_total_weight(nodes.remove(i), dist) == spec_total_weight(nodes, dist)
            - nodes[i].spec_drop_weight(dist),
    decreases nodes.len(),
{
    if i == nodes.len() - 1 {
        assert(nodes.remove(i) =~= nodes.drop_last());
    } else {
        lemma_total_weight_remove(nodes.drop_last(), dist, i);
        assert(nodes.remove(i).drop_last() =~= nodes.drop_last().remove(i));
        assert(nodes.remove(i).last() == nodes.last());
    }
}

/// The section collaborator: membership and policy for one prefix.
pub struct Section {
    pub prefix: Prefix,
    pub members: Vec<Node>,
    /// Cached sum of the members' drop weights; kept in step by
    /// `handle_event` and restored by `recompute_drop_weight` after
    /// structural changes.
    pub drop_weight: u128,
    /// How many counted churn events this section has seen; drives the
    /// relocation policy.
    pub churn_count: u64,
}

impl Section {
    /// Members carry distinct names and the prefix is well formed.
    pub open spec fn wf(self) -> bool {
        &&& self.prefix.wf()
        &&& forall|i: int, j: int|
            0 <= i < j < self.members@.len() ==> self.members@[i].name != self.members@[j].name
    }

    /// The cached drop weight agrees with the membership under `dist`.
    pub open spec fn weight_ok(self, dist: DropDist) -> bool {
        self.drop_weight as int == spec_total_weight(self.members@, dist)
    }

    pub open spec fn spec_is_complete(self) -> bool {
        self.members@.len() >= GROUP_SIZE
    }

    /// Creates a fresh, empty section for `prefix`.
    pub fn new(prefix: Prefix) -> (r: Section)
        requires
            prefix.wf(),
        ensures
            r.prefix == prefix,
            r.members@ =~= Seq::<Node>::empty(),
            r.drop_weight == 0,
            r.churn_count == 0,
            r.wf(),
            forall|d: DropDist| r.weight_ok(d),
    {
        Section { prefix, members: Vec::new(), drop_weight: 0, churn_count: 0 }
    }

    pub fn prefix(&self) -> (r: Prefix)
        ensures
            r == self.prefix,
    {
        self.prefix
    }

    pub fn len(&self) -> (r: usize)
        ensures
            r == self.members@.len(),
    {
        self.members.len()
    }

    pub fn is_complete(&self) -> (r: bool)
        ensures
            r == self.spec_is_complete(),
    {
        self.members.len() >= GROUP_SIZE
    }

    pub fn nodes(&self) -> (r: &Vec<Node>)
        ensures
            r@ == self.members@,
    {
        &self.members
    }

    pub fn drop_weight(&self) -> (r: u128)
        ensures
            r == self.drop_weight,
    {
        self.drop_weight
    }

    /// The adult members, in membership order.
    pub fn elders(&self) -> (r: Vec<Node>)
        ensures
            r@ == self.members@.filter(|n: Node| n.age > 4),
    {
        let pred = |n: Node| -> (b: bool)
            ensures
                b == (n.age > 4),
            { n.age > 4 };
        let mut r: Vec<Node> = Vec::new();
        let mut i: usize = 0;
        let n = self.members.len();
        while i < n
            invariant
                0 <= i <= n,
                n == self.members@.len(),
                r@ == self.members@.take(i as int).filter(|n: Node| n.age > 4),
            decreases n - i,
        {
            let x = self.members[i];
            proof {
                lemma_filter_push(self.members@.take(i as int), |n: Node| n.age > 4, x);
                assert(self.members@.take(i as int).push(x) =~= self.members@.take(i as int + 1));
            }
            if x.age > 4 {
                r.push(x);
            }
            i = i + 1;
        }
        proof {
            assert(self.members@.take(n as int) =~= self.members@);
        }
        r
    }

    /// The position of the member named `name`, if any.
    fn index_of_name(&self, name: &Name) -> (r: Option<usize>)
        ensures
            match r {
                Some(i) => i < self.members@.len() && self.members@[i as int].name == *name,
                None => !spec_has_name(self.members@, *name),
            },
    {
        let n = self.members.len();
        let mut i: usize = 0;
        while i < n
            invariant
                0 <= i <= n,
                n == self.members@.len(),
                forall|j: int| 0 <= j < i ==> self.members@[j].name != *name,
            decreases n - i,
        {
            if self.members[i].name.0 == name.0 {
                return Some(i);
            }
            i = i + 1;
        }
        None
    }

    /// Remove the member at `i`, keeping the cached weight in step.
    fn remove_member(&mut self, i: usize, dist: DropDist) -> (r: Node)
        requires
            old(self).wf(),
            old(self).weight_ok(dist),
            i < old(self).members@.len(),
        ensures
            r == old(self).members@[i as int],
            final(self).members@ == old(self).members@.remove(i as int),
            final(self).prefix == old(self).prefix,
            final(self).churn_count == old(self).churn_count,
            final(self).wf(),
            final(self).weight_ok(dist),
    {
        proof {
            lemma_total_weight_remove(self.members@, dist, i as int);
            lemma_total_weight_nonneg(self.members@.remove(i as int), dist);
        }
        let node = self.members.remove(i);
        let w = node.drop_probability(dist);
        self.drop_weight = self.drop_weight - w as u128;
        node
    }

    /// Add a member, keeping the cached weight in step.
    fn add_member(&mut self, node: Node, dist: DropDist)
        requires
            old(self).wf(),
            old(self).weight_ok(dist),
            !spec_has_name(old(self).members@, node.name),
            old(self).members@.len() < 0xffff_ffff_ffff_ffffu64,
        ensures
            final(self).members@ == old(self).members@.push(node),
            final(self).prefix == old(self).prefix,
            final(self).churn_count == old(self).churn_count,
            final(self).wf(),
            final(self).weight_ok(dist),
    {
        proof {
            lemma_total_weight_push(self.members@, dist, node);
            lemma_total_weight_bound(self.members@, dist);
            lemma_total_weight_nonneg(self.members@, dist);
            assert(self.members@.len() * EXP_SCALE < 0xffff_ffff_ffff_ffffu64
                * EXP_SCALE) by (nonlinear_arith)
                requires
                    self.members@.len() < 0xffff_ffff_ffff_ffffu64,
            ;
        }
        let w = node.drop_probability(dist);
        self.members.push(node);
        self.drop_weight = self.drop_weight + w as u128;
    }

    /// Recompute the cached drop weight from the membership.
    pub fn recompute_drop_weight(&mut self, params: &Params)
        ensures
            final(self).prefix == old(self).prefix,
            final(self).members@ == old(self).members@,
            final(self).churn_count == old(self).churn_count,
            final(self).weight_ok(params.drop_dist),
    {
        self.drop_weight = compute_weight(&self.members, params.drop_dist);
    }

    /// The expected populations of the two half-sections after a notional
    /// split: members whose bit at the prefix length is 0, and those whose
    /// bit is 1.
    pub fn count_halves(&self, params: &Params) -> (r: (usize, usize))
        requires
            self.prefix.len < 64,
        ensures
            r.0 == self.members@.filter(
                |n: Node| !spec_bit_is_set(n.name.0, self.prefix.len as u64),
            ).len(),
            r.1 == self.members@.filter(
                |n: Node| spec_bit_is_set(n.name.0, self.prefix.len as u64),
            ).len(),
            r.0 + r.1 == self.members@.len(),
    {
        let n = self.members.len();
        let ghost p0 = |nd: Node| !spec_bit_is_set(nd.name.0, self.prefix.len as u64);
        let ghost p1 = |nd: Node| spec_bit_is_set(nd.name.0, self.prefix.len as u64);
        let mut c0: usize = 0;
        let mut c1: usize = 0;
        let mut i: usize = 0;
        while i < n
            invariant
                0 <= i <= n,
                n == self.members@.len(),
                self.prefix.len < 64,
                p0 == (|nd: Node| !spec_bit_is_set(nd.name.0, self.prefix.len as u64)),
                p1 == (|nd: Node| spec_bit_is_set(nd.name.0, self.prefix.len as u64)),
                c0 == self.members@.take(i as int).filter(p0).len(),
                c1 == self.members@.take(i as int).filter(p1).len(),
                c0 + c1 == i,
            decreases n - i,
        {
            let x = self.members[i];
            proof {
                lemma_filter_push(self.members@.take(i as int), p0, x);
                lemma_filter_push(self.members@.take(i as int), p1, x);
                assert(self.members@.take(i as int).push(x) =~= self.members@.take(i as int + 1));
            }
            let mask: u64 = 1u64 << ((63 - self.prefix.len) as u64);
            if x.name.0 & mask != 0 {
                c1 = c1 + 1;
            } else {
                c0 = c0 + 1;
            }
            i = i + 1;
        }
        proof {
            assert(self.members@.take(n as int) =~= self.members@);
        }
        (c0, c1)
    }

    /// The churn count after seeing `event`: counted events advance it,
    /// saturating at the top of the range.
    pub open spec fn spec_churn_after(self, event: NetworkEvent) -> u64 {
        if event.spec_should_count() && self.churn_count < 0xffff_ffff_ffff_ffffu64 {
            (self.churn_count + 1) as u64
        } else {
            self.churn_count
        }
    }

    /// Whether a counted event at churn count `churn_after` makes the
    /// section relocate its longest-standing member.
    pub open spec fn spec_reloc_trigger(churn_after: u64, params: Params, counts: bool) -> bool {
        counts && params.relocation_interval > 0 && churn_after % params.relocation_interval == 0
    }

    /// Feed one event to the section and collect its responses.
    ///
    /// The policy: a joining node is added unless its name is taken (then
    /// it is rejected); growing to `max_section_size` members requests a
    /// split; every `relocation_interval` counted events the section
    /// relocates its longest-standing member; a lost member is handed back
    /// as dropped, and falling below `min_section_size` requests a merge;
    /// `Gone` silently removes a member; `PrefixChange` adopts the new
    /// prefix.
    pub fn handle_event(&mut self, event: NetworkEvent, params: &Params) -> (evs: Vec<
        SectionEvent,
    >)
        requires
            old(self).wf(),
            old(self).weight_ok(params.drop_dist),
        ensures
            final(self).wf(),
            final(self).weight_ok(params.drop_dist),
            final(self).churn_count == old(self).spec_churn_after(event),
            match event {
                NetworkEvent::Live(node, c) => {
                    if spec_has_name(old(self).members@, node.name) || old(self).members@.len()
                        >= usize::MAX {
                        final(self).members@ == old(self).members@ && final(self).prefix == old(
                            self,
                        ).prefix && evs@ == seq![SectionEvent::NodeRejected(node)]
                    } else {
                        let grown = old(self).members@.push(node);
                        final(self).prefix == old(self).prefix && if grown.len()
                            >= params.max_section_size {
                            final(self).members@ == grown && evs@ == seq![SectionEvent::RequestSplit]
                        } else if Section::spec_reloc_trigger(
                            old(self).spec_churn_after(event),
                            *params,
                            c,
                        ) {
                            final(self).members@ == grown.remove(0) && evs@
                                == seq![SectionEvent::NeedRelocate(grown[0])]
                        } else {
                            final(self).members@ == grown && evs@ =~= Seq::<SectionEvent>::empty()
                        }
                    }
                },
                NetworkEvent::Lost(name) => {
                    final(self).prefix == old(self).prefix && if spec_has_name(
                        old(self).members@,
                        name,
                    ) {
                        exists|i: int|
                            0 <= i < old(self).members@.len() && old(self).members@[i].name == name
                                && final(self).members@ == old(self).members@.remove(i) && evs@
                                == (if final(self).members@.len() < params.min_section_size && old(
                                self,
                            ).prefix.len > 0 {
                                seq![
                                    SectionEvent::NodeDropped(old(self).members@[i]),
                                    SectionEvent::RequestMerge,
                                ]
                            } else {
                                seq![SectionEvent::NodeDropped(old(self).members@[i])]
                            })
                    } else {
                        final(self).members@ == old(self).members@ && evs@ =~= Seq::<
                            SectionEvent,
                        >::empty()
                    }
                },
                NetworkEvent::Gone(node) => {
                    final(self).prefix == old(self).prefix && evs@ =~= Seq::<SectionEvent>::empty()
                        && if spec_has_name(old(self).members@, node.name) {
                        exists|i: int|
                            0 <= i < old(self).members@.len() && old(self).members@[i].name
                                == node.name && final(self).members@ == old(self).members@.remove(i)
                    } else {
                        final(self).members@ == old(self).members@
                    }
                },
                NetworkEvent::Relocated(_) => final(self).members@ == old(self).members@
                    && final(self).prefix == old(self).prefix
                    && evs@ =~= Seq::<SectionEvent>::empty(),
                NetworkEvent::PrefixChange(p) => final(self).members@ == old(self).members@ && evs@
                    =~= Seq::<SectionEvent>::empty() && final(self).prefix == (if p.wf() {
                    p
                } else {
                    old(self).prefix
                }),
                NetworkEvent::StartMerge(_) => final(self).members@ == old(self).members@
                    && final(self).prefix == old(self).prefix
                    && evs@ =~= Seq::<SectionEvent>::empty(),
            },
    {
        let counts = event.should_count();
        if counts && self.churn_count < u64::MAX {
            self.churn_count = self.churn_count + 1;
        }
        let mut evs: Vec<SectionEvent> = Vec::new();
        match event {
            NetworkEvent::Live(node, c) => {
                if self.index_of_name(&node.name).is_some() || self.members.len() == usize::MAX {
                    evs.push(SectionEvent::NodeRejected(node));
                } else {
                    self.add_member(node, params.drop_dist);
                    if self.members.len() >= params.max_section_size {
                        evs.push(SectionEvent::RequestSplit);
                    } else if c && params.relocation_interval > 0 && self.churn_count
                        % params.relocation_interval == 0 {
                        let first = self.remove_member(0, params.drop_dist);
                        evs.push(SectionEvent::NeedRelocate(first));
                    }
                }
            },
            NetworkEvent::Lost(name) => {
                match self.index_of_name(&name) {
                    Some(i) => {
                        let node = self.remove_member(i, params.drop_dist);
                        evs.push(SectionEvent::NodeDropped(node));
                        if self.members.len() < params.min_section_size && self.prefix.len > 0 {
                            evs.push(SectionEvent::RequestMerge);
                        }
                    },
                    None => {},
                }
            },
            NetworkEvent::Gone(node) => {
                match self.index_of_name(&node.name) {
                    Some(i) => {
                        let _ = self.remove_member(i, params.drop_dist);
                    },
                    None => {},
                }
            },
            NetworkEvent::Relocated(_) => {},
            NetworkEvent::PrefixChange(p) => {
                if p.is_wf() {
                    self.prefix = p;
                }
            },
            NetworkEvent::StartMerge(_) => {},
        }
        evs
    }

    /// Split into the two child sections, partitioning the members by the
    /// bit at the parent's length; each child comes with the (empty)
    /// preamble events it must process.
    pub fn split(self) -> (r: ((Section, Vec<NetworkEvent>), (Section, Vec<NetworkEvent>)))
        requires
            self.wf(),
            self.prefix.len < 64,
        ensures
            r.0.0.prefix == self.prefix.spec_extend(0),
            r.1.0.prefix == self.prefix.spec_extend(1),
            r.0.0.members@ == self.members@.filter(
                |n: Node| !spec_bit_is_set(n.name.0, self.prefix.len as u64),
            ),
            r.1.0.members@ == self.members@.filter(
                |n: Node| spec_bit_is_set(n.name.0, self.prefix.len as u64),
            ),
            r.0.0.wf(),
            r.1.0.wf(),
            r.0.1@ =~= Seq::<NetworkEvent>::empty(),
            r.1.1@ =~= Seq::<NetworkEvent>::empty(),
    {
        let ghost p0 = |nd: Node| !spec_bit_is_set(nd.name.0, self.prefix.len as u64);
        let ghost p1 = |nd: Node| spec_bit_is_set(nd.name.0, self.prefix.len as u64);
        let n = self.members.len();
        let mut m0: Vec<Node> = Vec::new();
        let mut m1: Vec<Node> = Vec::new();
        let mut i: usize = 0;
        while i < n
            invariant
                0 <= i <= n,
                n == self.members@.len(),
                self.prefix.len < 64,
                p0 == (|nd: Node| !spec_bit_is_set(nd.name.0, self.prefix.len as u64)),
                p1 == (|nd: Node| spec_bit_is_set(nd.name.0, self.prefix.len as u64)),
                m0@ == self.members@.take(i as int).filter(p0),
                m1@ == self.members@.take(i as int).filter(p1),
            decreases n - i,
        {
            let x = self.members[i];
            proof {
                lemma_filter_push(self.members@.take(i as int), p0, x);
                lemma_filter_push(self.members@.take(i as int), p1, x);
                assert(self.members@.take(i as int).push(x) =~= self.members@.take(i as int + 1));
            }
            let mask: u64 = 1u64 << ((63 - self.prefix.len) as u64);
            if x.name.0 & mask != 0 {
                m1.push(x);
            } else {
                m0.push(x);
            }
            i = i + 1;
        }
        proof {
            assert(self.members@.take(n as int) =~= self.members@);
            lemma_filter_distinct_names(self.members@, p0);
            lemma_filter_distinct_names(self.members@, p1);
        }
        let s0 = Section {
            prefix: self.prefix.extend(0),
            members: m0,
            drop_weight: 0,
            churn_count: 0,
        };
        let s1 = Section {
            prefix: self.prefix.extend(1),
            members: m1,
            drop_weight: 0,
            churn_count: 0,
        };
        ((s0, Vec::new()), (s1, Vec::new()))
    }

    /// Merge with a sibling section: the result owns the common parent
    /// prefix and the union of the memberships (members of `other` whose
    /// names are already present are not duplicated).
    pub fn merge(self, other: Section, params: &Params) -> (r: Section)
        requires
            self.wf(),
            other.wf(),
            self.prefix.spec_is_sibling(other.prefix),
        ensures
            r.prefix == self.prefix.spec_shorten(),
            r.members@ == self.members@ + other.members@.filter(
                |n: Node| !spec_has_name(self.members@, n.name),
            ),
            r.churn_count == self.churn_count,
            r.wf(),
            r.weight_ok(params.drop_dist),
    {
        let ghost orig = self.members@;
        let ghost pred = |n: Node| !spec_has_name(orig, n.name);
        let base_len = self.members.len();
        let new_prefix = self.prefix.shorten();
        let mut members = self.members;
        let n = other.members.len();
        let mut i: usize = 0;
        while i < n
            invariant
                0 <= i <= n,
                n == other.members@.len(),
                base_len == orig.len(),
                pred == (|nd: Node| !spec_has_name(orig, nd.name)),
                members@ == orig + other.members@.take(i as int).filter(pred),
                forall|a: int, b: int|
                    0 <= a < b < other.members@.len() ==> other.members@[a].name
                        != other.members@[b].name,
            decreases n - i,
        {
            let x = other.members[i];
            proof {
                lemma_filter_push(other.members@.take(i as int), pred, x);
                assert(other.members@.take(i as int).push(x) =~= other.members@.take(i as int + 1));
                assert(members@.take(base_len as int) =~= orig);
            }
            if !has_name_in(&members, base_len, &x.name) {
                members.push(x);
            }
            i = i + 1;
        }
        proof {
            assert(other.members@.take(n as int) =~= other.members@);
            lemma_filter_distinct_names(other.members@, pred);
            lemma_filter_name_membership(other.members@, pred);
        }
        let weight = compute_weight(&members, params.drop_dist);
        let r = Section {
            prefix: new_prefix,
            members,
            drop_weight: weight,
            churn_count: self.churn_count,
        };
        proof {
            let f = other.members@.filter(pred);
            assert forall|a: int, b: int|
                0 <= a < b < r.members@.len() implies r.members@[a].name != r.members@[b].name by {
                if a < orig.len() && b >= orig.len() {
                    assert(r.members@[b] == f[b - orig.len()]);
                    assert(pred(f[b - orig.len()]));
                    assert(r.members@[a] == orig[a]);
                } else if a >= orig.len() {
                    assert(r.members@[a] == f[a - orig.len()]);
                    assert(r.members@[b] == f[b - orig.len()]);
                }
            }
        }
        r
    }

    /// Whether a young node arriving now would find the section full; for
    /// reporting only.
    pub fn reject_young_node(&self, params: &Params) -> (r: bool)
        ensures
            r == (self.members@.len() >= params.max_section_size),
    {
        self.members.len() >= params.max_section_size
    }
}

/// Search the first `upto` entries of `v` for a member named `name`.
pub fn has_name_in(v: &Vec<Node>, upto: usize, name: &Name) -> (r: bool)
    requires
        upto <= v@.len(),
    ensures
        r == spec_has_name(v@.take(upto as int), *name),
{
    let mut i: usize = 0;
    while i < upto
        invariant
            0 <= i <= upto <= v@.len(),
            forall|j: int| 0 <= j < i ==> v@[j].name != *name,
        decreases upto - i,
    {
        if v[i].name.0 == name.0 {
            assert(v@.take(upto as int)[i as int].name == *name);
            return true;
        }
        i = i + 1;
    }
    assert forall|j: int| 0 <= j < upto implies v@.take(upto as int)[j].name != *name by {
        assert(v@.take(upto as int)[j] == v@[j]);
    }
    false
}

/// Every name in a filtered sequence is a name of the original.
pub proof fn lemma_filter_name_membership(s: Seq<Node>, pred: spec_fn(Node) -> bool)
    ensures
        forall|k: int|
            0 <= k < s.filter(pred).len() ==> spec_has_name(s, #[trigger] s.filter(pred)[k].name),
        forall|k: int| 0 <= k < s.filter(pred).len() ==> pred(#[trigger] s.filter(pred)[k]),
    decreases s.len(),
{
    reveal(Seq::filter);
    if s.len() > 0 {
        lemma_filter_name_membership(s.drop_last(), pred);
        assert forall|k: int| 0 <= k < s.filter(pred).len() implies spec_has_name(
            s,
            #[trigger] s.filter(pred)[k].name,
        ) && pred(s.filter(pred)[k]) by {
            let f = s.drop_last().filter(pred);
            if k < f.len() {
                assert(s.filter(pred)[k] == f[k]);
                let i = choose|i: int| 0 <= i < s.drop_last().len() && s.drop_last()[i].name == f[k].name;
                assert(s[i].name == f[k].name);
            } else {
                assert(s.filter(pred)[k] == s.last());
                assert(s[s.len() - 1].name == s.last().name);
            }
        }
    }
}

/// Filtering a sequence of distinct names keeps the names distinct.
pub proof fn lemma_filter_distinct_names(s: Seq<Node>, pred: spec_fn(Node) -> bool)
    requires
        forall|i: int, j: int| 0 <= i < j < s.len() ==> s[i].name != s[j].name,
    ensures
        forall|i: int, j: int|
            0 <= i < j < s.filter(pred).len() ==> s.filter(pred)[i].name != s.filter(pred)[j].name,
    decreases s.len(),
{
    reveal(Seq::filter);
    if s.len() > 0 {
        lemma_filter_distinct_names(s.drop_last(), pred);
        lemma_filter_name_membership(s.drop_last(), pred);
        assert forall|i: int, j: int|
            0 <= i < j < s.filter(pred).len() implies s.filter(pred)[i].name != s.filter(
            pred,
        )[j].name by {
            let f = s.drop_last().filter(pred);
            if j < f.len() {
                assert(s.filter(pred)[i] == f[i]);
                assert(s.filter(pred)[j] == f[j]);
            } else if j == f.len() && s.filter(pred).len() > f.len() {
                assert(s.filter(pred)[j] == s.last());
                assert(s.filter(pred)[i] == f[i]);
                let m = choose|m: int|
                    0 <= m < s.drop_last().len() && s.drop_last()[m].name == f[i].name;
                assert(s[m].name == f[i].name);
                assert(s[m].name != s[s.len() - 1].name);
            }
        }
    }
}

/// `filter` over a sequence grown by one element.
pub proof fn lemma_filter_push<A>(s: Seq<A>, pred: spec_fn(A) -> bool, x: A)
    ensures
        s.push(x).filter(pred) == if pred(x) {
            s.filter(pred).push(x)
        } else {
            s.filter(pred)
        },
{
    reveal(Seq::filter);
    assert(s.push(x).drop_last() =~= s);
    assert(s.push(x).last() == x);
}

/// Exec counterpart of [`spec_total_weight`].
pub fn compute_weight(nodes: &Vec<Node>, dist: DropDist) -> (r: u128)
    ensures
        r as int == spec_total_weight(nodes@, dist),
{
    let n = nodes.len();
    let mut acc: u128 = 0;
    let mut i: usize = 0;
    while i < n
        invariant
            0 <= i <= n,
            n == nodes@.len(),
            acc as int == spec_total_weight(nodes@.take(i as int), dist),
        decreases n - i,
    {
        let x = nodes[i];
        proof {
            lemma_total_weight_push(nodes@.take(i as int), dist, x);
            assert(nodes@.take(i as int).push(x) =~= nodes@.take(i as int + 1));
            lemma_total_weight_nonneg(nodes@.take(i as int), dist);
            lemma_total_weight_bound(nodes@.take(i as int), dist);
            assert(nodes@.take(i as int).len() * EXP_SCALE < 0xffff_ffff_ffff_ffffu64
                * EXP_SCALE) by (nonlinear_arith)
                requires
                    nodes@.take(i as int).len() < 0xffff_ffff_ffff_ffffu64,
            ;
        }
        acc = acc + x.drop_probability(dist) as u128;
        i = i + 1;
    }
    proof {
        assert(nodes@.take(n as int) =~= nodes@);
    }
    acc
}

} // verus!
