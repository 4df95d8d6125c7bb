//! The structure representing the whole network: a container for
//! sections that simulates all the churn and communication between them.

use vstd::prelude::*;
use crate::churn::NetworkEvent;
use crate::churn::SectionEvent;
use crate::node::Node;
use crate::output::NetworkStructure;
use crate::output::Output;
use crate::output::bump64;
use crate::output::bump64_exec;
use crate::output::bump_usize;
use crate::output::bump_usize_exec;
use crate::params::DropDist;
use crate::params::Params;
use crate::pmap::PrefixMap;
use crate::prefix::Name;
use crate::prefix::Prefix;
use crate::prefix::lemma_empty_matches;
use crate::prefix::lemma_matching_comparable;
use crate::prefix::lemma_ancestor_matches;
use crate::prefix::lemma_extend_partition;
use crate::prefix::spec_bit_is_set;
use crate::section::Section;
use crate::section::lemma_filter_push;
use crate::rng::new_source;
use crate::rng::next_u64;
use crate::rng::next_u64_below;
use crate::rng::next_u128_below;

verus! {

/// A wrapper that handles merges in progress: it remembers which sections
/// are merging and reports whether all of them are ready to be combined.
pub struct PendingMerge {
    pub complete: PrefixMap<bool>,
}

impl PendingMerge {
    pub open spec fn wf(self) -> bool {
        self.complete.wf()
    }

    /// All constituents have processed their prefix change.
    pub open spec fn spec_is_done(self) -> bool {
        forall|i: int|
            0 <= i < self.complete.entries@.len() ==> (#[trigger] self.complete.entries@[i]).1
    }

    /// Creates a new pending merge from the prefixes that are supposed to
    /// merge.
    pub fn from_prefixes(pfxs: &Vec<Prefix>) -> (r: PendingMerge)
        ensures
            r.wf(),
            forall|x: Prefix| r.complete.spec_contains_key(x) == pfxs@.contains(x),
            forall|i: int|
                0 <= i < r.complete.entries@.len() ==> !(#[trigger] r.complete.entries@[i]).1,
    {
        let mut m: PrefixMap<bool> = PrefixMap::new();
        let n = pfxs.len();
        let mut i: usize = 0;
        while i < n
            invariant
                0 <= i <= n,
                n == pfxs@.len(),
                m.wf(),
                forall|x: Prefix| m.spec_contains_key(x) == pfxs@.take(i as int).contains(x),
                forall|j: int| 0 <= j < m.entries@.len() ==> !(#[trigger] m.entries@[j]).1,
            decreases n - i,
        {
            let ghost mold = m;
            let k = pfxs[i];
            let pos = m.insert(k, false);
            proof {
                assert forall|j: int|
                    0 <= j < m.entries@.len() implies !(#[trigger] m.entries@[j]).1 by {
                    if mold.spec_contains_key(k) {
                        assert(m.entries@ == mold.entries@.update(pos as int, (k, false)));
                    } else {
                        assert(m.entries@ == mold.entries@.insert(pos as int, (k, false)));
                        if j < pos as int {
                            assert(m.entries@[j] == mold.entries@[j]);
                        } else if j > pos as int {
                            assert(m.entries@[j] == mold.entries@[j - 1]);
                        }
                    }
                }
                assert forall|x: Prefix| m.spec_contains_key(x) == pfxs@.take(
                    i as int + 1,
                ).contains(x) by {
                    if x == k {
                        assert(pfxs@.take(i as int + 1)[i as int] == k);
                        assert(pfxs@.take(i as int + 1).contains(k));
                    } else {
                        assert(m.spec_contains_key(x) == mold.spec_contains_key(x));
                        if pfxs@.take(i as int).contains(x) {
                            let j = choose|j: int|
                                0 <= j < i && #[trigger] pfxs@.take(i as int)[j] == x;
                            assert(pfxs@.take(i as int + 1)[j] == x);
                        }
                        if pfxs@.take(i as int + 1).contains(x) {
                            let j = choose|j: int|
                                0 <= j < i + 1 && #[trigger] pfxs@.take(i as int + 1)[j] == x;
                            assert(j != i);
                            assert(pfxs@.take(i as int)[j] == x);
                        }
                    }
                }
            }
            i = i + 1;
        }
        proof {
            assert(pfxs@.take(n as int) =~= pfxs@);
        }
        PendingMerge { complete: m }
    }

    /// Mark a constituent as having completed the merge.
    pub fn completed(&mut self, pfx: Prefix)
        requires
            old(self).wf(),
        ensures
            final(self).wf(),
            forall|x: Prefix|
                final(self).complete.spec_contains_key(x) == old(self).complete.spec_contains_key(
                    x,
                ),
            old(self).complete.spec_contains_key(pfx) ==> final(self).complete.spec_get(pfx),
            forall|x: Prefix|
                x != pfx && old(self).complete.spec_contains_key(x)
                    ==> final(self).complete.spec_get(x) == old(self).complete.spec_get(x),
    {
        match self.complete.index_of(&pfx) {
            Some(i) => {
                let _ = self.complete.replace_at(i, true);
            },
            None => {},
        }
    }

    /// Returns whether the sections are ready to be combined into one.
    pub fn is_done(&self) -> (r: bool)
        ensures
            r == self.spec_is_done(),
    {
        let n = self.complete.entries.len();
        let mut i: usize = 0;
        while i < n
            invariant
                0 <= i <= n,
                n == self.complete.entries@.len(),
                forall|j: int| 0 <= j < i ==> (#[trigger] self.complete.entries@[j]).1,
            decreases n - i,
        {
            if !self.complete.entries[i].1 {
                return false;
            }
            i = i + 1;
        }
        true
    }

    /// Throws out the wrapper layer and returns the pure map.
    pub fn into_map(self) -> (r: PrefixMap<bool>)
        ensures
            r == self.complete,
    {
        self.complete
    }
}

/// The whole network: the trie of sections, the nodes that left, the
/// per-section event queues, the merges in progress, and the outputs.
pub struct Network {
    /// all the sections in the network, indexed by prefix
    pub nodes: PrefixMap<Section>,
    /// the nodes that left the network and could rejoin in the future
    pub left_nodes: Vec<Node>,
    /// queues of events to be processed by each section
    pub event_queue: PrefixMap<Vec<NetworkEvent>>,
    /// prefixes that are in the process of merging, by target prefix
    pub pending_merges: PrefixMap<PendingMerge>,
    /// simulation parameters
    pub params: Params,
    /// simulation outputs
    pub output: Output,
    /// the source all randomness is drawn from
    pub rng: random::Xorshift128Plus,
}

/// The queue map `post` is `pre` with exactly `ev` appended to the queue
/// of `pfx` (created when absent) and every other queue untouched.
pub open spec fn spec_enqueued(
    pre: PrefixMap<Vec<NetworkEvent>>,
    post: PrefixMap<Vec<NetworkEvent>>,
    pfx: Prefix,
    ev: NetworkEvent,
) -> bool {
    &&& post.wf()
    &&& post.spec_contains_key(pfx)
    &&& post.spec_get(pfx)@ == (if pre.spec_contains_key(pfx) {
        pre.spec_get(pfx)@.push(ev)
    } else {
        seq![ev]
    })
    &&& forall|x: Prefix| x != pfx ==> post.spec_contains_key(x) == pre.spec_contains_key(x)
    &&& forall|x: Prefix|
        x != pfx && pre.spec_contains_key(x) ==> post.spec_get(x) == pre.spec_get(x)
}

/// Enqueueing at a live prefix keeps every queue key live.
proof fn lemma_queues_ok_enqueued(
    preq: PrefixMap<Vec<NetworkEvent>>,
    postq: PrefixMap<Vec<NetworkEvent>>,
    s: Seq<(Prefix, Section)>,
    pfx: Prefix,
    ev: NetworkEvent,
)
    requires
        preq.wf(),
        queues_ok(preq.entries@, s),
        spec_enqueued(preq, postq, pfx, ev),
        has_key(s, pfx),
    ensures
        queues_ok(postq.entries@, s),
{
    assert forall|i: int| 0 <= i < postq.entries@.len() implies has_key(
        s,
        (#[trigger] postq.entries@[i]).0,
    ) by {
        let k = postq.entries@[i].0;
        postq.lemma_get_at(i);
        if k != pfx {
            assert(preq.spec_contains_key(k));
            let pi = preq.spec_index_of(k);
            preq.lemma_get_at(pi);
            assert(has_key(s, (#[trigger] preq.entries@[pi]).0));
        }
    }
}

/// Append `ev` to the queue of `pfx`, creating the queue when absent.
fn enqueue(q: &mut PrefixMap<Vec<NetworkEvent>>, pfx: Prefix, ev: NetworkEvent)
    requires
        old(q).wf(),
    ensures
        final(q).wf(),
        spec_enqueued(*old(q), *final(q), pfx, ev),
{
    match q.index_of(&pfx) {
        Some(i) => {
            proof {
                q.lemma_get_at(i as int);
            }
            let mut evs = q.replace_at(i, Vec::new());
            evs.push(ev);
            let _ = q.replace_at(i, evs);
        },
        None => {
            let mut evs: Vec<NetworkEvent> = Vec::new();
            evs.push(ev);
            proof {
                assert(evs@ =~= seq![ev]);
            }
            let _ = q.insert(pfx, evs);
        },
    }
}

/// The sum of the cached section drop weights from position `i` on.
pub open spec fn spec_weight_suffix(s: Seq<(Prefix, Section)>, i: int) -> int
    decreases s.len() - i,
{
    if i < 0 || i >= s.len() {
        0
    } else {
        s[i].1.drop_weight + spec_weight_suffix(s, i + 1)
    }
}

/// The sum of the cached section drop weights of the first `i` entries.
pub open spec fn spec_weight_prefix(s: Seq<(Prefix, Section)>, i: int) -> int
    decreases i,
{
    if i <= 0 {
        0
    } else {
        spec_weight_prefix(s, i - 1) + s[i - 1].1.drop_weight
    }
}

proof fn lemma_weight_prefix_suffix(s: Seq<(Prefix, Section)>, i: int)
    requires
        0 <= i <= s.len(),
    ensures
        spec_weight_prefix(s, i) + spec_weight_suffix(s, i) == spec_weight_suffix(s, 0),
    decreases i,
{
    if i > 0 {
        lemma_weight_prefix_suffix(s, i - 1);
    }
}

/// The sum of the members' drop weights from position `j` on.
pub open spec fn spec_member_suffix(s: Seq<Node>, j: int, dist: DropDist) -> int
    decreases s.len() - j,
{
    if j < 0 || j >= s.len() {
        0
    } else {
        s[j].spec_drop_weight(dist) + spec_member_suffix(s, j + 1, dist)
    }
}

proof fn lemma_member_suffix_drop_last(s: Seq<Node>, j: int, dist: DropDist)
    requires
        0 <= j <= s.len() - 1,
    ensures
        spec_member_suffix(s, j, dist) == spec_member_suffix(s.drop_last(), j, dist)
            + s.last().spec_drop_weight(dist),
    decreases s.len() - j,
{
    if j == s.len() - 1 {
        assert(spec_member_suffix(s, j + 1, dist) == 0);
        assert(spec_member_suffix(s.drop_last(), j, dist) == 0);
    } else {
        lemma_member_suffix_drop_last(s, j + 1, dist);
        assert(s.drop_last()[j] == s[j]);
    }
}

/// The front-to-back suffix sum of the member weights agrees with the
/// section's total weight.
pub proof fn lemma_total_eq_member_suffix(s: Seq<Node>, dist: DropDist)
    ensures
        crate::section::spec_total_weight(s, dist) == spec_member_suffix(s, 0, dist),
    decreases s.len(),
{
    if s.len() > 0 {
        lemma_total_eq_member_suffix(s.drop_last(), dist);
        lemma_member_suffix_drop_last(s, 0, dist);
    }
}


/// A rejoin picked the node at position `j` of the left list and enqueued
/// its rejoined self at the live prefix `k`.
pub open spec fn spec_rejoined_one(pre: Network, post: Network, j: int, k: Prefix) -> bool {
    &&& 0 <= j < pre.left_nodes@.len()
    &&& post.left_nodes@ == pre.left_nodes@.update(j, pre.left_nodes@.last()).drop_last()
    &&& {
        let nd0 = pre.left_nodes@[j];
        let nd = Node {
            name: nd0.name,
            age: if nd0.age > pre.params.init_age {
                (nd0.age - 1) as u8
            } else {
                pre.params.init_age
            },
        };
        &&& post.nodes.spec_contains_key(k)
        &&& k.spec_matches(nd.name.0)
        &&& spec_enqueued(pre.event_queue, post.event_queue, k, NetworkEvent::Live(nd, true))
    }
}

/// A count clipped to what a `usize` can hold.
pub open spec fn sat_count(x: int) -> usize {
    if x < usize::MAX {
        x as usize
    } else {
        usize::MAX
    }
}

/// The total number of members held by the first `i` sections.
pub open spec fn spec_size_prefix(s: Seq<(Prefix, Section)>, i: int) -> int
    decreases i,
{
    if i <= 0 {
        0
    } else {
        spec_size_prefix(s, i - 1) + s[i - 1].1.members@.len()
    }
}

proof fn lemma_size_prefix_nonneg(s: Seq<(Prefix, Section)>, i: int)
    ensures
        spec_size_prefix(s, i) >= 0,
    decreases i,
{
    if i > 0 {
        lemma_size_prefix_nonneg(s, i - 1);
    }
}

/// How many of the first `j` members carry age `a`.
pub open spec fn spec_count_age(m: Seq<Node>, j: int, a: u8) -> int
    decreases j,
{
    if j <= 0 {
        0
    } else {
        spec_count_age(m, j - 1, a) + (if m[j - 1].age == a {
            1int
        } else {
            0int
        })
    }
}

proof fn lemma_count_age_nonneg(m: Seq<Node>, j: int, a: u8)
    ensures
        spec_count_age(m, j, a) >= 0,
    decreases j,
{
    if j > 0 {
        lemma_count_age_nonneg(m, j - 1, a);
    }
}

/// How many members of the first `i` sections carry age `a`.
pub open spec fn spec_age_prefix(s: Seq<(Prefix, Section)>, i: int, a: u8) -> int
    decreases i,
{
    if i <= 0 {
        0
    } else {
        spec_age_prefix(s, i - 1, a) + spec_count_age(
            s[i - 1].1.members@,
            s[i - 1].1.members@.len() as int,
            a,
        )
    }
}

proof fn lemma_age_prefix_nonneg(s: Seq<(Prefix, Section)>, i: int, a: u8)
    ensures
        spec_age_prefix(s, i, a) >= 0,
    decreases i,
{
    if i > 0 {
        lemma_age_prefix_nonneg(s, i - 1, a);
        lemma_count_age_nonneg(s[i - 1].1.members@, s[i - 1].1.members@.len() as int, a);
    }
}

/// Whether `nd` is a member of some live section below `target`.
pub open spec fn member_from(s: Seq<(Prefix, Section)>, target: Prefix, nd: Node) -> bool {
    exists|ci: int, mj: int|
        0 <= ci < s.len() && target.spec_is_ancestor(s[ci].0) && 0 <= mj < s[ci].1.members@.len()
            && nd == (#[trigger] s[ci].1.members@[mj])
}

/// Whether `x` is a key of the entry sequence.
pub open spec fn has_key(s: Seq<(Prefix, Section)>, x: Prefix) -> bool {
    exists|i: int| 0 <= i < s.len() && s[i].0 == x
}

/// Every element of a filtered sequence is an element of the original.
pub proof fn lemma_filter_elem<A>(s: Seq<A>, pred: spec_fn(A) -> bool)
    ensures
        forall|k: int| 0 <= k < s.filter(pred).len() ==> s.contains(#[trigger] s.filter(pred)[k]),
        forall|k: int| 0 <= k < s.filter(pred).len() ==> pred(#[trigger] s.filter(pred)[k]),
    decreases s.len(),
{
    reveal(Seq::filter);
    if s.len() > 0 {
        lemma_filter_elem(s.drop_last(), pred);
        assert forall|k: int| 0 <= k < s.filter(pred).len() implies s.contains(
            #[trigger] s.filter(pred)[k],
        ) && pred(s.filter(pred)[k]) by {
            let f = s.drop_last().filter(pred);
            if k < f.len() {
                assert(s.filter(pred)[k] == f[k]);
                let i = choose|i: int| 0 <= i < s.drop_last().len() && s.drop_last()[i] == f[k];
                assert(s[i] == f[k]);
            } else {
                assert(s.filter(pred)[k] == s.last());
                assert(s[s.len() - 1] == s.last());
            }
        }
    }
}

/// Filtering a strictly key-sorted entry sequence keeps it strictly
/// key-sorted.
pub proof fn lemma_filter_sorted(s: Seq<(Prefix, Section)>, pred: spec_fn((Prefix, Section)) -> bool)
    requires
        forall|i: int, j: int|
            0 <= i < j < s.len() ==> crate::prefix::spec_key_lt(s[i].0, s[j].0),
    ensures
        forall|i: int, j: int|
            0 <= i < j < s.filter(pred).len() ==> crate::prefix::spec_key_lt(
                s.filter(pred)[i].0,
                s.filter(pred)[j].0,
            ),
    decreases s.len(),
{
    reveal(Seq::filter);
    if s.len() > 0 {
        lemma_filter_sorted(s.drop_last(), pred);
        lemma_filter_elem(s.drop_last(), pred);
        assert forall|i: int, j: int|
            0 <= i < j < s.filter(pred).len() implies crate::prefix::spec_key_lt(
            s.filter(pred)[i].0,
            s.filter(pred)[j].0,
        ) by {
            let f = s.drop_last().filter(pred);
            if j < f.len() {
                assert(s.filter(pred)[i] == f[i]);
                assert(s.filter(pred)[j] == f[j]);
            } else if j == f.len() && s.filter(pred).len() > f.len() {
                assert(s.filter(pred)[j] == s.last());
                assert(s.filter(pred)[i] == f[i]);
                let m = choose|m: int|
                    0 <= m < s.drop_last().len() && s.drop_last()[m] == f[i];
                assert(s[m] == f[i]);
                assert(crate::prefix::spec_key_lt(s[m].0, s[s.len() - 1].0));
            }
        }
    }
}

/// Replacing a live prefix by its two one-bit extensions keeps the live
/// prefixes a complete binary-trie cover.
pub proof fn lemma_cover_split(pre: Seq<(Prefix, Section)>, post: Seq<(Prefix, Section)>, p: Prefix)
    requires
        cover_ok(pre),
        forall|i: int| 0 <= i < pre.len() ==> (#[trigger] pre[i]).0.wf(),
        forall|i: int| 0 <= i < post.len() ==> (#[trigger] post[i]).0.wf(),
        forall|i: int, j: int| 0 <= i < j < pre.len() ==> pre[i].0 != pre[j].0,
        forall|i: int, j: int| 0 <= i < j < post.len() ==> post[i].0 != post[j].0,
        p.wf(),
        p.len < 64,
        has_key(pre, p),
        forall|x: Prefix|
            #[trigger] has_key(post, x) == ((has_key(pre, x) && x != p) || x == p.spec_extend(0)
                || x == p.spec_extend(1)),
    ensures
        cover_ok(post),
{
    let e0 = p.spec_extend(0);
    let e1 = p.spec_extend(1);
    crate::prefix::lemma_extend_wf(p, 0);
    crate::prefix::lemma_extend_wf(p, 1);
    crate::prefix::lemma_extend_ancestor(p, 0);
    crate::prefix::lemma_extend_ancestor(p, 1);
    // no pre key other than p is compatible with p, so e0 and e1 are fresh
    assert forall|name: u64| #[trigger] covers(post, name) by {
        assert(covers(pre, name));
        let i = choose|i: int| 0 <= i < pre.len() && pre[i].0.spec_matches(name);
        let q = pre[i].0;
        if q == p {
            lemma_extend_partition(p, name);
            if e0.spec_matches(name) {
                assert(has_key(post, e0));
                let j = choose|j: int| 0 <= j < post.len() && post[j].0 == e0;
                assert(post[j].0.spec_matches(name));
            } else {
                assert(e1.spec_matches(name));
                assert(has_key(post, e1));
                let j = choose|j: int| 0 <= j < post.len() && post[j].0 == e1;
                assert(post[j].0.spec_matches(name));
            }
        } else {
            assert(has_key(pre, q));
            assert(has_key(post, q));
            let j = choose|j: int| 0 <= j < post.len() && post[j].0 == q;
            assert(post[j].0.spec_matches(name));
        }
    }
    assert forall|i: int, j: int|
        #![trigger post[i], post[j]]
        0 <= i < j < post.len() implies !post[i].0.spec_is_compatible_with(post[j].0) by {
        let x = post[i].0;
        let y = post[j].0;
        assert(has_key(post, x));
        assert(has_key(post, y));
        assert(x != y);
        if x.spec_is_compatible_with(y) {
            lemma_split_incompat(pre, p, x, y);
        }
    }
}

/// Helper for [`lemma_cover_split`]: no two distinct keys of the new
/// cover are compatible.
proof fn lemma_split_incompat(pre: Seq<(Prefix, Section)>, p: Prefix, x: Prefix, y: Prefix)
    requires
        cover_ok(pre),
        forall|i: int| 0 <= i < pre.len() ==> (#[trigger] pre[i]).0.wf(),
        forall|i: int, j: int| 0 <= i < j < pre.len() ==> pre[i].0 != pre[j].0,
        p.wf(),
        p.len < 64,
        has_key(pre, p),
        (has_key(pre, x) && x != p) || x == p.spec_extend(0) || x == p.spec_extend(1),
        (has_key(pre, y) && y != p) || y == p.spec_extend(0) || y == p.spec_extend(1),
        x != y,
    ensures
        !x.spec_is_compatible_with(y),
    decreases (if x == p.spec_extend(0) || x == p.spec_extend(1) {
        0int
    } else {
        1int
    }),
{
    let e0 = p.spec_extend(0);
    let e1 = p.spec_extend(1);
    crate::prefix::lemma_extend_wf(p, 0);
    crate::prefix::lemma_extend_wf(p, 1);
    crate::prefix::lemma_extend_ancestor(p, 0);
    crate::prefix::lemma_extend_ancestor(p, 1);
    lemma_extend_partition(p, 0);
    if x.spec_is_compatible_with(y) {
        if (x == e0 && y == e1) || (x == e1 && y == e0) {
            // two extensions of equal length that are compatible are equal
            assert(e0.len == e1.len);
            assert(x == y);
        } else if x == e0 || x == e1 {
            // x extends p, y is an untouched live prefix
            assert(has_key(pre, y) && y != p);
            lemma_pre_pair_incompatible(pre, p, y);
            if y.spec_is_ancestor(x) {
                // y matches x's bits and so does p: they are comparable
                assert(y.spec_matches(x.bits));
                assert(p.spec_matches(x.bits));
                if y.len <= p.len {
                    lemma_matching_comparable(y, p, x.bits);
                } else {
                    lemma_matching_comparable(p, y, x.bits);
                }
            } else {
                assert(x.spec_is_ancestor(y));
                assert(y.spec_matches(y.bits));
                crate::prefix::lemma_ancestor_matches(x, y, y.bits);
                crate::prefix::lemma_ancestor_matches(p, x, y.bits);
                if y.len <= p.len {
                    lemma_matching_comparable(y, p, y.bits);
                } else {
                    lemma_matching_comparable(p, y, y.bits);
                }
            }
        } else if y == e0 || y == e1 {
            lemma_split_incompat(pre, p, y, x);
        } else {
            // two untouched live prefixes
            lemma_pre_pair_incompatible(pre, x, y);
        }
    }
}

/// In a cover, `p` is incompatible with every other key.
proof fn lemma_pre_pair_incompatible(pre: Seq<(Prefix, Section)>, p: Prefix, y: Prefix)
    requires
        cover_ok(pre),
        has_key(pre, p),
        has_key(pre, y),
        p != y,
    ensures
        !p.spec_is_compatible_with(y),
        !y.spec_is_compatible_with(p),
{
    let i = choose|i: int| 0 <= i < pre.len() && pre[i].0 == p;
    let j = choose|j: int| 0 <= j < pre.len() && pre[j].0 == y;
    assert(i != j);
    if i < j {
        assert(!pre[i].0.spec_is_compatible_with(pre[j].0));
    } else {
        assert(!pre[j].0.spec_is_compatible_with(pre[i].0));
    }
}

/// Replacing all live descendants of `t` (of which there is at least one)
/// by `t` itself keeps the live prefixes a complete binary-trie cover.
pub proof fn lemma_cover_merge(pre: Seq<(Prefix, Section)>, post: Seq<(Prefix, Section)>, t: Prefix)
    requires
        cover_ok(pre),
        forall|i: int| 0 <= i < pre.len() ==> (#[trigger] pre[i]).0.wf(),
        forall|i: int| 0 <= i < post.len() ==> (#[trigger] post[i]).0.wf(),
        forall|i: int, j: int| 0 <= i < j < pre.len() ==> pre[i].0 != pre[j].0,
        forall|i: int, j: int| 0 <= i < j < post.len() ==> post[i].0 != post[j].0,
        t.wf(),
        exists|i: int| 0 <= i < pre.len() && t.spec_is_ancestor((#[trigger] pre[i]).0),
        forall|x: Prefix|
            #[trigger] has_key(post, x) == ((has_key(pre, x) && !t.spec_is_ancestor(x)) || x == t),
    ensures
        cover_ok(post),
{
    let di = choose|i: int| 0 <= i < pre.len() && t.spec_is_ancestor((#[trigger] pre[i]).0);
    let d = pre[di].0;
    assert(has_key(pre, d));
    assert forall|name: u64| #[trigger] covers(post, name) by {
        assert(covers(pre, name));
        let i = choose|i: int| 0 <= i < pre.len() && pre[i].0.spec_matches(name);
        let q = pre[i].0;
        if t.spec_is_ancestor(q) {
            crate::prefix::lemma_ancestor_matches(t, q, name);
            assert(has_key(post, t));
            let j = choose|j: int| 0 <= j < post.len() && post[j].0 == t;
            assert(post[j].0.spec_matches(name));
        } else {
            assert(has_key(pre, q));
            assert(has_key(post, q));
            let j = choose|j: int| 0 <= j < post.len() && post[j].0 == q;
            assert(post[j].0.spec_matches(name));
        }
    }
    assert forall|i: int, j: int|
        #![trigger post[i], post[j]]
        0 <= i < j < post.len() implies !post[i].0.spec_is_compatible_with(post[j].0) by {
        let x = post[i].0;
        let y = post[j].0;
        assert(has_key(post, x));
        assert(has_key(post, y));
        assert(x != y);
        if x.spec_is_compatible_with(y) {
            if x == t || y == t {
                let other = if x == t {
                    y
                } else {
                    x
                };
                assert(has_key(pre, other) && !t.spec_is_ancestor(other));
                if other.spec_is_ancestor(t) {
                    crate::prefix::lemma_ancestor_transitive(other, t, d);
                    if other == d {
                        // then other is both an ancestor and a strict
                        // descendant of t
                        crate::prefix::lemma_ancestor_antisymmetric(other, t);
                    } else {
                        lemma_pre_pair_incompatible(pre, other, d);
                    }
                }
            } else {
                lemma_pre_pair_incompatible(pre, x, y);
            }
        }
    }
}

/// The position of the first pending-merge key compatible with `t`, from
/// position `from` on; -1 when there is none.
pub open spec fn spec_first_compat(s: Seq<(Prefix, PendingMerge)>, t: Prefix, from: int) -> int
    decreases s.len() - from,
{
    if from < 0 || from >= s.len() {
        -1
    } else if s[from].0.spec_is_compatible_with(t) {
        from
    } else {
        spec_first_compat(s, t, from + 1)
    }
}

/// Whether `x` occurs in `v`.
fn contains_node(v: &Vec<Node>, x: &Node) -> (r: bool)
    ensures
        r == v@.contains(*x),
{
    let n = v.len();
    let mut i: usize = 0;
    while i < n
        invariant
            0 <= i <= n,
            n == v@.len(),
            forall|j: int| 0 <= j < i ==> v@[j] != *x,
        decreases n - i,
    {
        if v[i].name.0 == x.name.0 && v[i].age == x.age {
            assert(v@[i as int] == *x);
            return true;
        }
        i = i + 1;
    }
    false
}

/// A relocation of `node` enqueued exactly one counted `Live` event for
/// its relocated self `nd` at the live prefix `k`, which owns `nd`'s new
/// name; the age grew by one, saturating at the top of the range. The new
/// name lands in the emptier half of the target section, and without
/// distant relocation the target is the node's own section or one of its
/// neighbours with a prefix no longer than its own.
pub open spec fn spec_relocated_one(
    pre: Network,
    post: Network,
    node: Node,
    k: Prefix,
    nd: Node,
) -> bool {
    &&& post.nodes.spec_contains_key(k)
    &&& k.spec_matches(nd.name.0)
    &&& nd.age == (if node.age < 255 {
        (node.age + 1) as u8
    } else {
        255u8
    })
    &&& spec_enqueued(pre.event_queue, post.event_queue, k, NetworkEvent::Live(nd, true))
    &&& {
        let sec = pre.nodes.spec_get(k);
        (sec.prefix == k && k.len < 64) ==> {
            let c0 = sec.members@.filter(
                |n: Node| !spec_bit_is_set(n.name.0, sec.prefix.len as u64),
            ).len();
            let c1 = sec.members@.filter(
                |n: Node| spec_bit_is_set(n.name.0, sec.prefix.len as u64),
            ).len();
            &&& c0 < c1 ==> k.spec_extend(0).spec_matches(nd.name.0)
            &&& c0 > c1 ==> k.spec_extend(1).spec_matches(nd.name.0)
        }
    }
    &&& pre.params.distant_relocation_ppm == 0 ==> exists|src: Prefix|
        {
            &&& pre.nodes.spec_contains_key(src)
            &&& #[trigger] src.spec_matches(node.name.0)
            &&& k == src || (k.spec_is_neighbour(src) && k.len <= src.len)
        }
}

/// The elder set of a section: its adult members, in membership order.
pub open spec fn spec_elders(s: Section) -> Seq<Node> {
    s.members@.filter(|n: Node| n.age > 4)
}

/// The elements of `a` that do not occur in `b`, in order.
pub open spec fn spec_gone_from(a: Seq<Node>, b: Seq<Node>) -> Seq<Node> {
    a.filter(|n: Node| !b.contains(n))
}

/// The full merge preamble for a constituent with elders `older` joining
/// a merged section with elders `newer` and prefix `t`: the merge start,
/// a `Gone` for each elder lost, an uncounted `Live` for each elder
/// gained, and the prefix change.
pub open spec fn spec_merge_events(older: Seq<Node>, newer: Seq<Node>, t: Prefix) -> Seq<
    NetworkEvent,
> {
    seq![NetworkEvent::StartMerge(t)] + spec_gone_from(older, newer).map_values(
        |e: Node| NetworkEvent::Gone(e),
    ) + spec_gone_from(newer, older).map_values(|e: Node| NetworkEvent::Live(e, false)) + seq![
        NetworkEvent::PrefixChange(t),
    ]
}

/// `map_values` over a sequence grown by one element.
proof fn lemma_map_values_push<A, B>(s: Seq<A>, f: spec_fn(A) -> B, x: A)
    ensures
        s.push(x).map_values(f) == s.map_values(f).push(f(x)),
{
    assert(s.push(x).map_values(f) =~= s.map_values(f).push(f(x)));
}

/// The queue at `x` holds a merge preamble towards `t`: the merge start
/// first, the prefix change last, and only elder adjustments between.
pub open spec fn spec_queue_preamble(q: PrefixMap<Vec<NetworkEvent>>, x: Prefix, t: Prefix) -> bool {
    &&& q.spec_contains_key(x)
    &&& q.spec_get(x)@.len() >= 2
    &&& q.spec_get(x)@[0] == NetworkEvent::StartMerge(t)
    &&& q.spec_get(x)@.last() == NetworkEvent::PrefixChange(t)
    &&& forall|e: int|
        0 < e < q.spec_get(x)@.len() - 1 ==> (#[trigger] q.spec_get(x)@[e]) matches
            NetworkEvent::Gone(_) || q.spec_get(x)@[e] matches NetworkEvent::Live(_, false)
}

/// When a split request from `prefix` is current: the prefix is live and
/// canonical, the section has not moved on, and the prefix can be extended.
pub open spec fn spec_split_ok(pre: Network, prefix: Prefix) -> bool {
    &&& pre.nodes.spec_contains_key(prefix)
    &&& pre.nodes.spec_get(prefix).prefix == prefix
    &&& prefix.len < 64
    &&& prefix.wf()
}

/// What handling a split request does: a stale request changes nothing;
/// a current one replaces the parent by its two children (partitioning the
/// members by the bit at the parent's length), drops the parent's queue,
/// and counts one churn event.
pub open spec fn spec_split_post(pre: Network, post: Network, prefix: Prefix) -> bool {
    &&& post.inv()
    &&& pre.output.le(post.output)
    &&& post.params == pre.params
    &&& post.left_nodes == pre.left_nodes
    &&& post.pending_merges == pre.pending_merges
    &&& if !spec_split_ok(pre, prefix) {
        post == pre
    } else {
        let e0 = prefix.spec_extend(0);
        let e1 = prefix.spec_extend(1);
        let parent = pre.nodes.spec_get(prefix);
        &&& forall|x: Prefix|
            #[trigger] post.nodes.spec_contains_key(x) == ((pre.nodes.spec_contains_key(x) && x
                != prefix) || x == e0 || x == e1)
        &&& post.nodes.spec_get(e0).prefix == e0
        &&& post.nodes.spec_get(e1).prefix == e1
        &&& post.nodes.spec_get(e0).members@ == parent.members@.filter(
            |n: Node| !spec_bit_is_set(n.name.0, prefix.len as u64),
        )
        &&& post.nodes.spec_get(e1).members@ == parent.members@.filter(
            |n: Node| spec_bit_is_set(n.name.0, prefix.len as u64),
        )
        &&& forall|x: Prefix|
            x != prefix && x != e0 && x != e1 && pre.nodes.spec_contains_key(x)
                ==> post.nodes.spec_contains_key(x) && post.nodes.spec_get(x)
                == pre.nodes.spec_get(x)
        &&& forall|x: Prefix|
            #[trigger] post.event_queue.spec_contains_key(x) == (pre.event_queue.spec_contains_key(
                x,
            ) && x != prefix)
        &&& forall|x: Prefix|
            x != prefix && pre.event_queue.spec_contains_key(x) ==> post.event_queue.spec_get(x)
                == pre.event_queue.spec_get(x)
        &&& post.output.churn == bump64(pre.output.churn)
        &&& post.output.adds == pre.output.adds
        &&& post.output.drops == pre.output.drops
        &&& post.output.rejoins == pre.output.rejoins
        &&& post.output.relocations == pre.output.relocations
        &&& post.output.rejections == pre.output.rejections
        &&& post.output.drops_dist == pre.output.drops_dist
        &&& post.output.network_structure == pre.output.network_structure
    }
}

/// What relocating `node` does: the relocation and two churn events are
/// counted, and exactly one counted `Live` event for the aged, renamed
/// node lands at a live prefix owning its new name; nothing else moves.
pub open spec fn spec_relocate_post(pre: Network, post: Network, node: Node) -> bool {
    &&& post.inv()
    &&& post.output.relocations == bump64(pre.output.relocations)
    &&& post.output.churn == bump64(bump64(pre.output.churn))
    &&& post.output.adds == pre.output.adds
    &&& post.output.drops == pre.output.drops
    &&& post.output.rejoins == pre.output.rejoins
    &&& post.output.rejections == pre.output.rejections
    &&& post.output.drops_dist == pre.output.drops_dist
    &&& post.output.network_structure == pre.output.network_structure
    &&& pre.output.le(post.output)
    &&& post.nodes == pre.nodes
    &&& post.left_nodes == pre.left_nodes
    &&& post.pending_merges == pre.pending_merges
    &&& post.params == pre.params
    &&& exists|k: Prefix, nd: Node| spec_relocated_one(pre, post, node, k, nd)
}

/// What initiating a merge from `prefix` does: a non-canonical prefix is
/// ignored; a merge already covered by a broader or equal pending target
/// is a no-op; otherwise the merge is registered at the target over
/// exactly the live descendants with all completion flags false, any
/// narrower compatible pending merge gives way while every other entry is
/// untouched, and each constituent's queue is replaced with its merge
/// preamble.
pub open spec fn spec_merge_post(pre: Network, post: Network, prefix: Prefix) -> bool {
    let t = prefix.spec_shorten();
    let fc = spec_first_compat(pre.pending_merges.entries@, t, 0);
    let subsumed = fc >= 0 && pre.pending_merges.entries@[fc].0.spec_is_ancestor(t);
    &&& post.inv()
    &&& post.nodes == pre.nodes
    &&& post.left_nodes == pre.left_nodes
    &&& post.output == pre.output
    &&& post.params == pre.params
    &&& !prefix.wf() ==> post == pre
    &&& prefix.wf() && subsumed ==> post == pre
    &&& prefix.wf() && !subsumed ==> {
        &&& post.pending_merges.spec_contains_key(t)
        &&& forall|x: Prefix|
            post.pending_merges.spec_get(t).complete.spec_contains_key(x) == (
            pre.nodes.spec_contains_key(x) && t.spec_is_ancestor(x))
        &&& forall|i: int|
            0 <= i < post.pending_merges.spec_get(t).complete.entries@.len() ==> !(
            #[trigger] post.pending_merges.spec_get(t).complete.entries@[i]).1
        &&& forall|x: Prefix|
            x != t ==> #[trigger] post.pending_merges.spec_contains_key(x) == (
            pre.pending_merges.spec_contains_key(x) && !(fc >= 0 && x
                == pre.pending_merges.entries@[fc].0))
        &&& forall|x: Prefix|
            x != t && post.pending_merges.spec_contains_key(x)
                ==> post.pending_merges.spec_get(x) == pre.pending_merges.spec_get(x)
        &&& forall|x: Prefix|
            #[trigger] post.event_queue.spec_contains_key(x)
                ==> pre.event_queue.spec_contains_key(x) || (pre.nodes.spec_contains_key(x)
                && t.spec_is_ancestor(x))
        &&& forall|x: Prefix|
            pre.nodes.spec_contains_key(x) && #[trigger] t.spec_is_ancestor(x)
                ==> spec_queue_preamble(post.event_queue, x, t)
        &&& forall|x: Prefix|
            #[trigger] pre.event_queue.spec_contains_key(x) && !(pre.nodes.spec_contains_key(x)
                && t.spec_is_ancestor(x)) ==> post.event_queue.spec_contains_key(x)
                && post.event_queue.spec_get(x) == pre.event_queue.spec_get(x)
    }
}

/// A drop selected member `j` of the section at position `i`, enqueued a
/// `Lost` event for it there, and recorded its age.
pub open spec fn spec_dropped_one(pre: Network, post: Network, i: int, j: int) -> bool {
    &&& 0 <= i < pre.nodes.entries@.len()
    &&& 0 <= j < pre.nodes.entries@[i].1.members@.len()
    &&& spec_enqueued(
        pre.event_queue,
        post.event_queue,
        pre.nodes.entries@[i].0,
        NetworkEvent::Lost(pre.nodes.entries@[i].1.members@[j].name),
    )
    &&& post.output.drops_dist@ == pre.output.drops_dist@.update(
        pre.nodes.entries@[i].1.members@[j].age as int,
        bump_usize(pre.output.drops_dist@[pre.nodes.entries@[i].1.members@[j].age as int]),
    )
}

/// Whether some prefix among the live entries matches `name`.
pub open spec fn covers(s: Seq<(Prefix, Section)>, name: u64) -> bool {
    exists|i: int| 0 <= i < s.len() && s[i].0.spec_matches(name)
}

/// Every section key is canonical, every section is internally
/// consistent, and the cached drop weights agree with the drop law.
pub open spec fn sections_ok(s: Seq<(Prefix, Section)>, dist: DropDist) -> bool {
    &&& forall|i: int| 0 <= i < s.len() ==> (#[trigger] s[i]).0.wf()
    &&& forall|i: int| 0 <= i < s.len() ==> (#[trigger] s[i]).1.wf()
    &&& forall|i: int| 0 <= i < s.len() ==> (#[trigger] s[i]).1.weight_ok(dist)
}

/// The live prefixes form a complete binary-trie cover: every name is
/// matched by some live prefix, and no two live prefixes are compatible,
/// so the match is unique.
pub open spec fn cover_ok(s: Seq<(Prefix, Section)>) -> bool {
    &&& forall|name: u64| #[trigger] covers(s, name)
    &&& forall|i: int, j: int|
        #![trigger s[i], s[j]]
        0 <= i < j < s.len() ==> !s[i].0.spec_is_compatible_with(s[j].0)
}

/// Every queue key is a live prefix: events are only ever queued for
/// sections that exist, so no orphan queues arise.
pub open spec fn queues_ok(q: Seq<(Prefix, Vec<NetworkEvent>)>, s: Seq<(Prefix, Section)>) -> bool {
    forall|i: int| 0 <= i < q.len() ==> has_key(s, (#[trigger] q[i]).0)
}

/// Every registered pending merge has a canonical target prefix and keeps
/// a well-formed constituent map.
pub open spec fn merges_ok(s: Seq<(Prefix, PendingMerge)>) -> bool {
    &&& forall|j: int| 0 <= j < s.len() ==> (#[trigger] s[j]).0.wf()
    &&& forall|j: int| 0 <= j < s.len() ==> (#[trigger] s[j]).1.wf()
}

/// Law: under the invariant the live prefixes are a complete binary-trie
/// cover: every 64-bit name is matched by exactly one live prefix.
pub proof fn lemma_cover_exact(s: Seq<(Prefix, Section)>, name: u64)
    requires
        forall|i: int| 0 <= i < s.len() ==> (#[trigger] s[i]).0.wf(),
        cover_ok(s),
    ensures
        exists|i: int| 0 <= i < s.len() && (#[trigger] s[i]).0.spec_matches(name),
        forall|i: int, j: int|
            0 <= i < s.len() && 0 <= j < s.len() && (#[trigger] s[i]).0.spec_matches(name) && (
            #[trigger] s[j]).0.spec_matches(name) ==> i == j,
{
    assert(covers(s, name));
    let w = choose|i: int| 0 <= i < s.len() && s[i].0.spec_matches(name);
    assert(s[w].0.spec_matches(name));
    assert forall|i: int, j: int|
        0 <= i < s.len() && 0 <= j < s.len() && (#[trigger] s[i]).0.spec_matches(name) && (
        #[trigger] s[j]).0.spec_matches(name) implies i == j by {
        lemma_unique_match(s, i, j, name);
    }
}

/// Two live prefixes matching the same name are the same entry.
pub proof fn lemma_unique_match(s: Seq<(Prefix, Section)>, i: int, j: int, name: u64)
    requires
        forall|k: int| 0 <= k < s.len() ==> (#[trigger] s[k]).0.wf(),
        cover_ok(s),
        0 <= i < s.len(),
        0 <= j < s.len(),
        s[i].0.spec_matches(name),
        s[j].0.spec_matches(name),
    ensures
        i == j,
{
    if i != j {
        let p = s[i].0;
        let q = s[j].0;
        if p.len <= q.len {
            lemma_matching_comparable(p, q, name);
        } else {
            lemma_matching_comparable(q, p, name);
        }
    }
}

impl Network {
    /// The invariant every operator preserves.
    pub open spec fn inv(self) -> bool {
        &&& self.nodes.wf()
        &&& sections_ok(self.nodes.entries@, self.params.drop_dist)
        &&& cover_ok(self.nodes.entries@)
        &&& self.event_queue.wf()
        &&& queues_ok(self.event_queue.entries@, self.nodes.entries@)
        &&& self.pending_merges.wf()
        &&& merges_ok(self.pending_merges.entries@)
        &&& self.output.wf()
    }

    /// Starts a new network with the given seed for its randomness.
    pub fn new_seeded(params: Params, seed: u64) -> (r: Network)
        ensures
            r.inv(),
            r.params == params,
            r.nodes.entries@.len() == 1,
            r.nodes.entries@[0].0 == Prefix::spec_empty(),
            r.nodes.entries@[0].1.members@.len() == 0,
            r.left_nodes@.len() == 0,
            r.event_queue.entries@.len() == 0,
            r.pending_merges.entries@.len() == 0,
            r.output.adds == 0 && r.output.drops == 0 && r.output.rejoins == 0
                && r.output.relocations == 0 && r.output.rejections == 0 && r.output.churn == 0,
            r.nodes.entries@[0].1.prefix == Prefix::spec_empty(),
            r.nodes.entries@[0].1.churn_count == 0,
            r.nodes.entries@[0].1.drop_weight == 0,
            forall|a: int| 0 <= a < r.output.drops_dist@.len() ==> r.output.drops_dist@[a] == 0,
            r.output.network_structure@.len() == 0,
    {
        let empty = Prefix::empty();
        let mut nodes: PrefixMap<Section> = PrefixMap::new();
        let _ = nodes.insert(empty, Section::new(empty));
        let r = Network {
            nodes,
            left_nodes: Vec::new(),
            event_queue: PrefixMap::new(),
            pending_merges: PrefixMap::new(),
            params,
            output: Output::new(),
            rng: new_source(seed),
        };
        proof {
            assert forall|name: u64| #[trigger] covers(r.nodes.entries@, name) by {
                lemma_empty_matches(name);
                assert(r.nodes.entries@[0].0.spec_matches(name));
            }
        }
        r
    }

    /// Starts a new network, with a fixed default seed for its randomness.
    pub fn new(params: Params) -> (r: Network)
        ensures
            r.inv(),
            r.params == params,
            r.nodes.entries@.len() == 1,
            r.nodes.entries@[0].0 == Prefix::spec_empty(),
            r.nodes.entries@[0].1.members@.len() == 0,
            r.left_nodes@.len() == 0,
            r.event_queue.entries@.len() == 0,
            r.pending_merges.entries@.len() == 0,
            r.output.adds == 0 && r.output.drops == 0 && r.output.rejoins == 0
                && r.output.relocations == 0 && r.output.rejections == 0 && r.output.churn == 0,
            r.nodes.entries@[0].1.prefix == Prefix::spec_empty(),
            r.nodes.entries@[0].1.churn_count == 0,
            r.nodes.entries@[0].1.drop_weight == 0,
            forall|a: int| 0 <= a < r.output.drops_dist@.len() ==> r.output.drops_dist@[a] == 0,
            r.output.network_structure@.len() == 0,
    {
        Network::new_seeded(params, 0)
    }

    /// Checks whether there are any events in the queues.
    fn has_events(&self) -> (r: bool)
        ensures
            r == exists|i: int|
                0 <= i < self.event_queue.entries@.len() && (
                #[trigger] self.event_queue.entries@[i]).1@.len() > 0,
    {
        let n = self.event_queue.entries.len();
        let mut i: usize = 0;
        while i < n
            invariant
                0 <= i <= n,
                n == self.event_queue.entries@.len(),
                forall|j: int| 0 <= j < i ==> (#[trigger] self.event_queue.entries@[j]).1@.len()
                    == 0,
            decreases n - i,
        {
            if self.event_queue.entries[i].1.len() > 0 {
                return true;
            }
            i = i + 1;
        }
        false
    }

    /// Returns the prefix a node should belong to: the unique live prefix
    /// matching its name.
    pub fn prefix_for_node(&self, node: Node) -> (r: Prefix)
        requires
            self.nodes.wf(),
            sections_ok(self.nodes.entries@, self.params.drop_dist),
            cover_ok(self.nodes.entries@),
        ensures
            self.nodes.spec_contains_key(r),
            r.spec_matches(node.name.0),
            r.wf(),
    {
        let n = self.nodes.entries.len();
        let mut i: usize = 0;
        while i < n
            invariant
                0 <= i <= n,
                n == self.nodes.entries@.len(),
                self.nodes.wf(),
                sections_ok(self.nodes.entries@, self.params.drop_dist),
                cover_ok(self.nodes.entries@),
                forall|j: int|
                    0 <= j < i ==> !(#[trigger] self.nodes.entries@[j]).0.spec_matches(node.name.0),
            decreases n - i,
        {
            let pfx = self.nodes.entries[i].0;
            if pfx.matches(node.name) {
                proof {
                    self.nodes.lemma_get_at(i as int);
                }
                return pfx;
            }
            i = i + 1;
        }
        proof {
            assert(covers(self.nodes.entries@, node.name.0));
            assert(false);
        }
        Prefix::empty()
    }

    pub fn num_sections(&self) -> (r: usize)
        ensures
            r == self.nodes.entries@.len(),
    {
        self.nodes.entries.len()
    }

    pub fn complete_sections(&self) -> (r: usize)
        ensures
            r == self.nodes.entries@.filter(|e: (Prefix, Section)| e.1.spec_is_complete()).len(),
    {
        let ghost pred = |e: (Prefix, Section)| e.1.spec_is_complete();
        let n = self.nodes.entries.len();
        let mut count: usize = 0;
        let mut i: usize = 0;
        while i < n
            invariant
                0 <= i <= n,
                n == self.nodes.entries@.len(),
                pred == (|e: (Prefix, Section)| e.1.spec_is_complete()),
                count == self.nodes.entries@.take(i as int).filter(pred).len(),
                count <= i,
            decreases n - i,
        {
            proof {
                lemma_filter_push(
                    self.nodes.entries@.take(i as int),
                    pred,
                    self.nodes.entries@[i as int],
                );
                assert(self.nodes.entries@.take(i as int).push(self.nodes.entries@[i as int])
                    =~= self.nodes.entries@.take(i as int + 1));
            }
            if self.nodes.entries[i].1.is_complete() {
                count = count + 1;
            }
            i = i + 1;
        }
        proof {
            assert(self.nodes.entries@.take(n as int) =~= self.nodes.entries@);
        }
        count
    }

    pub fn output(&self) -> (r: &Output)
        ensures
            r == self.output,
    {
        &self.output
    }

    /// Calculates the sum of the sections' drop weights, saturating at the
    /// top of the range. Older nodes weigh less, so they are less likely
    /// to be chosen when dropping.
    fn total_drop_weight(&self) -> (r: u128)
        ensures
            r as int <= spec_weight_suffix(self.nodes.entries@, 0),
            (r == 0) == (spec_weight_suffix(self.nodes.entries@, 0) == 0),
    {
        let n = self.nodes.entries.len();
        let mut acc: u128 = 0;
        let mut i: usize = 0;
        while i < n
            invariant
                0 <= i <= n,
                n == self.nodes.entries@.len(),
                acc as int <= spec_weight_prefix(self.nodes.entries@, i as int),
                (acc == 0) == (spec_weight_prefix(self.nodes.entries@, i as int) == 0),
            decreases n - i,
        {
            let w = self.nodes.entries[i].1.drop_weight;
            if acc <= u128::MAX - w {
                acc = acc + w;
            } else {
                acc = u128::MAX;
            }
            i = i + 1;
        }
        proof {
            lemma_weight_prefix_suffix(self.nodes.entries@, n as int);
        }
        acc
    }

    /// Drops a random node from the network by sending a `Lost` event to
    /// its section. The probability of a given node dropping is weighted
    /// by its age.
    pub fn drop_random_node(&mut self)
        requires
            old(self).inv(),
        ensures
            final(self).inv(),
            final(self).output.drops == bump64(old(self).output.drops),
            final(self).output.churn == bump64(old(self).output.churn),
            final(self).output.adds == old(self).output.adds,
            final(self).output.rejoins == old(self).output.rejoins,
            final(self).output.relocations == old(self).output.relocations,
            final(self).output.rejections == old(self).output.rejections,
            old(self).output.le(final(self).output),
            final(self).nodes == old(self).nodes,
            final(self).left_nodes == old(self).left_nodes,
            final(self).pending_merges == old(self).pending_merges,
            final(self).params == old(self).params,
            spec_weight_suffix(old(self).nodes.entries@, 0) == 0 ==> final(self).event_queue == old(
                self,
            ).event_queue && final(self).output.drops_dist == old(self).output.drops_dist,
            spec_weight_suffix(old(self).nodes.entries@, 0) > 0 ==> exists|i: int, j: int|
                spec_dropped_one(*old(self), *final(self), i, j),
    {
        self.output.drops = bump64_exec(self.output.drops);
        self.output.churn = bump64_exec(self.output.churn);
        let total = self.total_drop_weight();
        if total == 0 {
            return ;
        }
        let mut rem = next_u128_below(&mut self.rng, total);
        let n = self.nodes.entries.len();
        let mut i: usize = 0;
        while i < n
            invariant
                0 <= i <= n,
                n == self.nodes.entries@.len(),
                old(self).inv(),
                self.nodes == old(self).nodes,
                self.left_nodes == old(self).left_nodes,
                self.event_queue == old(self).event_queue,
                self.pending_merges == old(self).pending_merges,
                self.params == old(self).params,
                self.output.drops == bump64(old(self).output.drops),
                self.output.churn == bump64(old(self).output.churn),
                self.output.adds == old(self).output.adds,
                self.output.rejoins == old(self).output.rejoins,
                self.output.relocations == old(self).output.relocations,
                self.output.rejections == old(self).output.rejections,
                self.output.drops_dist == old(self).output.drops_dist,
                self.output.network_structure == old(self).output.network_structure,
                spec_weight_suffix(old(self).nodes.entries@, 0) > 0,
                rem < spec_weight_suffix(self.nodes.entries@, i as int),
            decreases n - i,
        {
            let w = self.nodes.entries[i].1.drop_weight;
            if w > rem {
                proof {
                    let sec = self.nodes.entries@[i as int].1;
                    assert(sec.weight_ok(self.params.drop_dist));
                    lemma_total_eq_member_suffix(sec.members@, self.params.drop_dist);
                }
                // the remaining draw falls inside this section; walk its
                // members the same way
                let mut j: usize = 0;
                let m = self.nodes.entries[i].1.members.len();
                while j < m
                    invariant
                        0 <= j <= m,
                        0 <= i < n,
                        n == self.nodes.entries@.len(),
                        m == self.nodes.entries@[i as int].1.members@.len(),
                        old(self).inv(),
                        self.nodes == old(self).nodes,
                        self.left_nodes == old(self).left_nodes,
                        self.event_queue == old(self).event_queue,
                        self.pending_merges == old(self).pending_merges,
                        self.params == old(self).params,
                        self.output.drops == bump64(old(self).output.drops),
                        self.output.churn == bump64(old(self).output.churn),
                        self.output.adds == old(self).output.adds,
                        self.output.rejoins == old(self).output.rejoins,
                        self.output.relocations == old(self).output.relocations,
                        self.output.rejections == old(self).output.rejections,
                        self.output.drops_dist == old(self).output.drops_dist,
                        self.output.network_structure == old(self).output.network_structure,
                        spec_weight_suffix(old(self).nodes.entries@, 0) > 0,
                        rem < spec_member_suffix(
                            self.nodes.entries@[i as int].1.members@,
                            j as int,
                            self.params.drop_dist,
                        ),
                    decreases m - j,
                {
                    let sec = &self.nodes.entries[i].1;
                    let node = sec.members[j];
                    let wj = node.drop_probability(self.params.drop_dist);
                    if (wj as u128) > rem {
                        let age = node.age;
                        let cur = self.output.drops_dist[age as usize];
                        self.output.drops_dist[age as usize] = bump_usize_exec(cur);
                        let key = self.nodes.entries[i].0;
                        let ghost pre = self.event_queue;
                        enqueue(&mut self.event_queue, key, NetworkEvent::Lost(node.name));
                        proof {
                            assert(spec_enqueued(pre, self.event_queue, key, NetworkEvent::Lost(node.name)));
                            assert(has_key(self.nodes.entries@, key));
                            lemma_queues_ok_enqueued(
                                pre,
                                self.event_queue,
                                self.nodes.entries@,
                                key,
                                NetworkEvent::Lost(node.name),
                            );
                            assert(self.output.drops_dist@ =~= old(self).output.drops_dist@.update(
                                node.age as int,
                                bump_usize(old(self).output.drops_dist@[node.age as int]),
                            ));
                            assert(spec_dropped_one(*old(self), *self, i as int, j as int));
                        }
                        return ;
                    }
                    rem = rem - wj as u128;
                    j = j + 1;
                }
                proof {
                    assert(false);
                }
                return ;
            }
            rem = rem - w;
            i = i + 1;
        }
        proof {
            assert(false);
        }
    }

    /// Chooses a random node from among the ones that left the network and
    /// gets it to rejoin with a reduced age.
    pub fn rejoin_random_node(&mut self)
        requires
            old(self).inv(),
        ensures
            final(self).inv(),
            final(self).output.rejoins == bump64(old(self).output.rejoins),
            final(self).output.churn == bump64(old(self).output.churn),
            final(self).output.adds == old(self).output.adds,
            final(self).output.drops == old(self).output.drops,
            final(self).output.relocations == old(self).output.relocations,
            final(self).output.rejections == old(self).output.rejections,
            final(self).output.drops_dist == old(self).output.drops_dist,
            old(self).output.le(final(self).output),
            final(self).nodes == old(self).nodes,
            final(self).pending_merges == old(self).pending_merges,
            final(self).params == old(self).params,
            old(self).left_nodes@.len() == 0 ==> final(self).left_nodes == old(self).left_nodes
                && final(self).event_queue == old(self).event_queue,
            old(self).left_nodes@.len() > 0 ==> exists|j: int, k: Prefix|
                spec_rejoined_one(*old(self), *final(self), j, k),
    {
        self.output.rejoins = bump64_exec(self.output.rejoins);
        self.output.churn = bump64_exec(self.output.churn);
        let len = self.left_nodes.len();
        if len == 0 {
            return ;
        }
        let j = next_u64_below(&mut self.rng, len as u64) as usize;
        let mut node = self.left_nodes.swap_remove(j);
        node.rejoined(self.params.init_age);
        let prefix = self.prefix_for_node(node);
        let ghost pre = self.event_queue;
        enqueue(&mut self.event_queue, prefix, NetworkEvent::Live(node, true));
        proof {
            assert(spec_rejoined_one(*old(self), *self, j as int, prefix));
            lemma_queues_ok_enqueued(
                pre,
                self.event_queue,
                self.nodes.entries@,
                prefix,
                NetworkEvent::Live(node, true),
            );
        }
    }

    /// Chooses a new section for the given node, generates a new name for
    /// it under that section, increases its age, and sends a `Live` event
    /// to the section. The target is the neighbour of the node's current
    /// section in the worst shape: shortest prefix first, then fewest
    /// members.
    pub fn relocate(&mut self, node: Node)
        requires
            old(self).inv(),
        ensures
            spec_relocate_post(*old(self), *final(self), node),
    {
        self.output.relocations = bump64_exec(self.output.relocations);
        self.output.churn = bump64_exec(bump64_exec(self.output.churn));
        // with the configured probability, relocate under a fresh random
        // name instead of the current one
        let draw = next_u64_below(&mut self.rng, 1_000_000);
        let mut new_node = if (draw as u32) < self.params.distant_relocation_ppm {
            Node::new(next_u64(&mut self.rng), node.age())
        } else {
            node
        };
        let src = self.prefix_for_node(new_node);
        // neighbours are sections one bit away; shorter ones are included,
        // longer ones excluded because they are in better shape
        let mut neighbours: Vec<Prefix> = Vec::new();
        let len = src.len();
        let mut pos: u8 = 0;
        while pos < len
            invariant
                old(self).inv(),
                self.nodes == old(self).nodes,
                src.wf(),
                pos <= len,
                len == src.len,
                forall|t: int|
                    0 <= t < neighbours@.len() ==> self.nodes.spec_contains_key(
                        #[trigger] neighbours@[t],
                    ),
                forall|t: int|
                    0 <= t < neighbours@.len() ==> (#[trigger] neighbours@[t]).spec_is_neighbour(
                        src,
                    ),
            decreases len - pos,
        {
            let mut pfx = src.with_flipped_bit(pos);
            let mut steps: u8 = 0;
            let mut found = false;
            let bound = len - pos;
            while steps < bound && !found
                invariant
                    old(self).inv(),
                    self.nodes == old(self).nodes,
                    pfx.wf(),
                    found ==> self.nodes.spec_contains_key(pfx),
                decreases bound - steps, (if found { 0int } else { 1int }),
            {
                if self.nodes.contains_key(&pfx) {
                    found = true;
                } else {
                    pfx = pfx.shorten();
                    steps = steps + 1;
                }
            }
            if found && pfx.is_neighbour(&src) {
                neighbours.push(pfx);
            }
            pos = pos + 1;
        }
        neighbours.push(src);
        proof {
            assert(neighbours@.last() == src);
        }
        // pick the neighbour with the shortest prefix, then the fewest
        // members
        let mut best: Prefix = neighbours[0];
        let mut best_size: usize = self.section_size(&best);
        let n = neighbours.len();
        let mut t: usize = 1;
        while t < n
            invariant
                old(self).inv(),
                self.nodes == old(self).nodes,
                n == neighbours@.len(),
                1 <= t <= n,
                neighbours@.last() == src,
                self.nodes.spec_contains_key(best),
                best == src || best.spec_is_neighbour(src),
                best_size == self.nodes.spec_get(best).members@.len(),
                forall|u: int|
                    0 <= u < neighbours@.len() ==> self.nodes.spec_contains_key(
                        #[trigger] neighbours@[u],
                    ),
                forall|u: int|
                    0 <= u < neighbours@.len() ==> ((#[trigger] neighbours@[u]) == src
                        || neighbours@[u].spec_is_neighbour(src)),
                forall|u: int|
                    0 <= u < t ==> (best.len < (#[trigger] neighbours@[u]).len || (best.len
                        == neighbours@[u].len && best_size <= self.nodes.spec_get(
                        neighbours@[u],
                    ).members@.len())),
            decreases n - t,
        {
            let c = neighbours[t];
            let csize = self.section_size(&c);
            if c.len < best.len || (c.len == best.len && csize < best_size) {
                best = c;
                best_size = csize;
            }
            t = t + 1;
        }
        proof {
            // the node's own section is among the candidates, so the chosen
            // target's prefix is no longer than its own
            assert(best.len < src.len || (best.len == src.len && best_size
                <= self.nodes.spec_get(src).members@.len()));
        }
        // choose in which half of the section the node lands, to balance it
        let ghost pre_nodes = self.nodes;
        let bit: Option<u8> = {
            match self.nodes.index_of(&best) {
                Some(bi) => {
                    proof {
                        self.nodes.lemma_get_at(bi as int);
                    }
                    let sec = &self.nodes.entries[bi].1;
                    if sec.prefix.len < 64 {
                        let halves = sec.count_halves(&self.params);
                        if halves.0 == halves.1 {
                            None
                        } else if halves.0 > halves.1 {
                            Some(1)
                        } else {
                            Some(0)
                        }
                    } else {
                        None
                    }
                },
                None => {
                    proof {
                        assert(false);
                    }
                    None
                },
            }
        };
        proof {
            let bi = choose|bi: int|
                0 <= bi < self.nodes.entries@.len() && self.nodes.entries@[bi].0 == best;
            assert((#[trigger] self.nodes.entries@[bi]).0.wf());
        }
        let fresh = Name(next_u64(&mut self.rng));
        new_node.relocate(&best, bit, fresh);
        proof {
            let target = match bit {
                Option::None => best,
                Option::Some(b) => best.spec_extend(b),
            };
            if bit is Some {
                crate::prefix::lemma_extend_wf(best, bit->0);
                crate::prefix::lemma_substituted_matches(best.spec_extend(bit->0), fresh.0);
            } else {
                crate::prefix::lemma_substituted_matches(best, fresh.0);
            }
            match bit {
                Option::None => {},
                Option::Some(b) => {
                    crate::prefix::lemma_extend_wf(best, b);
                    crate::prefix::lemma_extend_ancestor(best, b);
                    lemma_ancestor_matches(best, best.spec_extend(b), new_node.name.0);
                },
            }
            assert(best.spec_matches(new_node.name.0));
        }
        let ghost pre = self.event_queue;
        enqueue(&mut self.event_queue, best, NetworkEvent::Live(new_node, true));
        proof {
            assert(spec_relocated_one(*old(self), *self, node, best, new_node));
            lemma_queues_ok_enqueued(
                pre,
                self.event_queue,
                self.nodes.entries@,
                best,
                NetworkEvent::Live(new_node, true),
            );
        }
    }

    /// The section that would result from merging every live section under
    /// `target`: it owns `target` and the union of their memberships, with
    /// duplicate names collapsed.
    #[verifier::rlimit(60)]
    fn merged_section(&self, target: Prefix) -> (r: Section)
        requires
            self.nodes.wf(),
            sections_ok(self.nodes.entries@, self.params.drop_dist),
            target.wf(),
        ensures
            r.prefix == target,
            r.wf(),
            r.weight_ok(self.params.drop_dist),
            forall|ci: int, mj: int|
                0 <= ci < self.nodes.entries@.len() && target.spec_is_ancestor(
                    (#[trigger] self.nodes.entries@[ci]).0,
                ) && 0 <= mj < self.nodes.entries@[ci].1.members@.len()
                    ==> crate::section::spec_has_name(
                    r.members@,
                    (#[trigger] self.nodes.entries@[ci].1.members@[mj]).name,
                ),
            forall|mi: int|
                0 <= mi < r.members@.len() ==> member_from(
                    self.nodes.entries@,
                    target,
                    #[trigger] r.members@[mi],
                ),
    {
        let mut members: Vec<Node> = Vec::new();
        let n = self.nodes.entries.len();
        let mut i: usize = 0;
        #[verifier::loop_isolation(false)]
        while i < n
            invariant
                0 <= i <= n,
                forall|a: int, b: int|
                    0 <= a < b < members@.len() ==> members@[a].name != members@[b].name,
                forall|ci: int, mj: int|
                    0 <= ci < i && target.spec_is_ancestor((#[trigger] self.nodes.entries@[ci]).0)
                        && 0 <= mj < self.nodes.entries@[ci].1.members@.len()
                        ==> crate::section::spec_has_name(
                        members@,
                        (#[trigger] self.nodes.entries@[ci].1.members@[mj]).name,
                    ),
                forall|mi: int|
                    0 <= mi < members@.len() ==> member_from(
                        self.nodes.entries@,
                        target,
                        #[trigger] members@[mi],
                    ),
            decreases n - i,
        {
            let key = self.nodes.entries[i].0;
            if target.len <= 64 && target.is_ancestor(&key) {
                let m = self.nodes.entries[i].1.members.len();
                let mut j: usize = 0;
                #[verifier::loop_isolation(false)]
                while j < m
                    invariant
                        0 <= j <= m,
                        forall|a: int, b: int|
                            0 <= a < b < members@.len() ==> members@[a].name != members@[b].name,
                        forall|ci: int, mj: int|
                            0 <= ci < i && target.spec_is_ancestor(
                                (#[trigger] self.nodes.entries@[ci]).0,
                            ) && 0 <= mj < self.nodes.entries@[ci].1.members@.len()
                                ==> crate::section::spec_has_name(
                                members@,
                                (#[trigger] self.nodes.entries@[ci].1.members@[mj]).name,
                            ),
                        forall|mj: int|
                            0 <= mj < j ==> crate::section::spec_has_name(
                                members@,
                                (#[trigger] self.nodes.entries@[i as int].1.members@[mj]).name,
                            ),
                        forall|mi: int|
                            0 <= mi < members@.len() ==> member_from(
                                self.nodes.entries@,
                                target,
                                #[trigger] members@[mi],
                            ),
                    decreases m - j,
                {
                    let node = self.nodes.entries[i].1.members[j];
                    let here = members.len();
                    let ghost premem = members@;
                    if !crate::section::has_name_in(&members, here, &node.name) {
                        proof {
                            assert(members@.take(here as int) =~= members@);
                        }
                        members.push(node);
                        proof {
                            assert(members@.last() == node);
                            assert(forall|w: int|
                                0 <= w < premem.len() ==> members@[w] == premem[w]);
                        }
                    }
                    proof {
                        assert(crate::section::spec_has_name(members@, node.name));
                        assert forall|ci: int, mj: int|
                            0 <= ci < i && target.spec_is_ancestor(
                                (#[trigger] self.nodes.entries@[ci]).0,
                            ) && 0 <= mj < self.nodes.entries@[ci].1.members@.len()
                            implies crate::section::spec_has_name(
                            members@,
                            (#[trigger] self.nodes.entries@[ci].1.members@[mj]).name,
                        ) by {
                            let nm = self.nodes.entries@[ci].1.members@[mj].name;
                            assert(crate::section::spec_has_name(premem, nm));
                            let w = choose|w: int|
                                0 <= w < premem.len() && premem[w].name == nm;
                            assert(members@[w].name == nm);
                        }
                        assert forall|mj: int|
                            0 <= mj < j + 1 implies crate::section::spec_has_name(
                            members@,
                            (#[trigger] self.nodes.entries@[i as int].1.members@[mj]).name,
                        ) by {
                            if mj < j {
                                let nm = self.nodes.entries@[i as int].1.members@[mj].name;
                                assert(crate::section::spec_has_name(premem, nm));
                                let w = choose|w: int|
                                    0 <= w < premem.len() && premem[w].name == nm;
                                assert(members@[w].name == nm);
                            }
                        }
                        assert forall|mi: int|
                            0 <= mi < members@.len() implies member_from(
                            self.nodes.entries@,
                            target,
                            #[trigger] members@[mi],
                        ) by {
                            if mi < premem.len() {
                                assert(members@[mi] == premem[mi]);
                                assert(member_from(self.nodes.entries@, target, premem[mi]));
                            } else {
                                assert(members@[mi] == node);
                                assert(0 <= i < self.nodes.entries@.len()
                                    && target.spec_is_ancestor(self.nodes.entries@[i as int].0)
                                    && 0 <= j < self.nodes.entries@[i as int].1.members@.len()
                                    && node == self.nodes.entries@[i as int].1.members@[j as int]);
                                assert(member_from(self.nodes.entries@, target, node));
                            }
                        }
                    }
                    j = j + 1;
                }
            }
            i = i + 1;
        }
        let weight = crate::section::compute_weight(&members, self.params.drop_dist);
        Section { prefix: target, members, drop_weight: weight, churn_count: 0 }
    }

    /// Creates the queue of events a section at `pfx` must process when it
    /// merges into `merged`: the merge start, a `Gone` for each elder it
    /// loses, an uncounted `Live` for each elder it gains, and finally the
    /// prefix change.
    fn calculate_merge_events(&self, merged: &Section, pfx: Prefix) -> (evs: Vec<NetworkEvent>)
        requires
            self.nodes.wf(),
            self.nodes.spec_contains_key(pfx),
        ensures
            evs@ == spec_merge_events(
                spec_elders(self.nodes.spec_get(pfx)),
                spec_elders(*merged),
                merged.prefix,
            ),
            evs@.len() >= 2,
            evs@[0] == NetworkEvent::StartMerge(merged.prefix),
            evs@.last() == NetworkEvent::PrefixChange(merged.prefix),
            forall|e: int|
                0 < e < evs@.len() - 1 ==> (#[trigger] evs@[e]) matches NetworkEvent::Gone(_) || evs@[e]
                    matches NetworkEvent::Live(_, false),
    {
        let old_elders = match self.nodes.get(&pfx) {
            Some(sec) => sec.elders(),
            None => {
                proof {
                    assert(false);
                }
                Vec::new()
            },
        };
        let new_elders = merged.elders();
        let ghost older = old_elders@;
        let ghost newer = new_elders@;
        let ghost gpred = |n: Node| !newer.contains(n);
        let ghost lpred = |n: Node| !older.contains(n);
        let ghost gf = |e: Node| NetworkEvent::Gone(e);
        let ghost lf = |e: Node| NetworkEvent::Live(e, false);
        let mut evs: Vec<NetworkEvent> = Vec::new();
        evs.push(NetworkEvent::StartMerge(merged.prefix()));
        let ghost start = seq![NetworkEvent::StartMerge(merged.prefix)];
        proof {
            assert(evs@ =~= start + older.take(0).filter(gpred).map_values(gf));
        }
        let on = old_elders.len();
        let mut i: usize = 0;
        #[verifier::loop_isolation(false)]
        while i < on
            invariant
                0 <= i <= on,
                evs@ == start + older.take(i as int).filter(gpred).map_values(gf),
                evs@.len() >= 1,
                evs@[0] == NetworkEvent::StartMerge(merged.prefix),
                forall|e: int|
                    0 < e < evs@.len() ==> (#[trigger] evs@[e]) matches NetworkEvent::Gone(_)
                        || evs@[e] matches NetworkEvent::Live(_, false),
            decreases on - i,
        {
            let lost = old_elders[i];
            proof {
                crate::section::lemma_filter_push(older.take(i as int), gpred, lost);
                assert(older.take(i as int).push(lost) =~= older.take(i as int + 1));
                lemma_map_values_push(older.take(i as int).filter(gpred), gf, lost);
            }
            if !contains_node(&new_elders, &lost) {
                evs.push(NetworkEvent::Gone(lost));
                proof {
                    assert(evs@ =~= start + older.take(i as int + 1).filter(gpred).map_values(gf));
                }
            }
            i = i + 1;
        }
        proof {
            assert(older.take(on as int) =~= older);
        }
        let ghost part1 = start + spec_gone_from(older, newer).map_values(gf);
        let nn = new_elders.len();
        let mut j: usize = 0;
        #[verifier::loop_isolation(false)]
        while j < nn
            invariant
                0 <= j <= nn,
                evs@ == part1 + newer.take(j as int).filter(lpred).map_values(lf),
                evs@.len() >= 1,
                evs@[0] == NetworkEvent::StartMerge(merged.prefix),
                forall|e: int|
                    0 < e < evs@.len() ==> (#[trigger] evs@[e]) matches NetworkEvent::Gone(_)
                        || evs@[e] matches NetworkEvent::Live(_, false),
            decreases nn - j,
        {
            let gained = new_elders[j];
            proof {
                crate::section::lemma_filter_push(newer.take(j as int), lpred, gained);
                assert(newer.take(j as int).push(gained) =~= newer.take(j as int + 1));
                lemma_map_values_push(newer.take(j as int).filter(lpred), lf, gained);
            }
            if !contains_node(&old_elders, &gained) {
                evs.push(NetworkEvent::Live(gained, false));
                proof {
                    assert(evs@ =~= part1 + newer.take(j as int + 1).filter(lpred).map_values(lf));
                }
            }
            j = j + 1;
        }
        proof {
            assert(newer.take(nn as int) =~= newer);
        }
        evs.push(NetworkEvent::PrefixChange(merged.prefix()));
        proof {
            assert(evs@ =~= spec_merge_events(older, newer, merged.prefix));
        }
        evs
    }

    /// Calculates which sections will merge into a given prefix, creates a
    /// pending merge for them and replaces their queues with the churn
    /// events to be processed before the merge itself. Initiating a merge
    /// already covered by a broader pending merge is a no-op; a narrower
    /// compatible pending merge is discarded first.
    #[verifier::rlimit(100)]
    pub fn merge(&mut self, prefix: Prefix)
        requires
            old(self).inv(),
        ensures
            spec_merge_post(*old(self), *final(self), prefix),
    {
        if !prefix.is_wf() {
            return ;
        }
        let target = prefix.shorten();
        // a broader pending merge subsumes this one; a narrower compatible
        // one gives way
        let pn = self.pending_merges.entries.len();
        let mut pi: usize = 0;
        let mut compat: Option<Prefix> = None;
        while pi < pn && compat.is_none()
            invariant
                0 <= pi <= pn,
                pn == self.pending_merges.entries@.len(),
                old(self).inv(),
                *self == *old(self),
                target == prefix.spec_shorten(),
                target.wf(),
                compat is None ==> spec_first_compat(self.pending_merges.entries@, target, 0)
                    == spec_first_compat(self.pending_merges.entries@, target, pi as int),
                compat is Some ==> pi < pn && spec_first_compat(
                    self.pending_merges.entries@,
                    target,
                    0,
                ) == pi as int && compat->0 == self.pending_merges.entries@[pi as int].0,
            decreases pn - pi, (if compat is Some { 0int } else { 1int }),
        {
            let key = self.pending_merges.entries[pi].0;
            if key.is_compatible_with(&target) {
                compat = Some(key);
            } else {
                pi = pi + 1;
            }
        }
        match compat {
            Some(cm) => {
                if cm.len() <= 64 && cm.is_ancestor(&target) {
                    return ;
                }
                let _ = self.pending_merges.remove(&cm);
            },
            None => {},
        }
        let ghost mid = *self;
        self.register_merge(target);
        proof {
            let ghost fc = spec_first_compat(old(self).pending_merges.entries@, target, 0);
            assert forall|x: Prefix|
                x != target implies #[trigger] self.pending_merges.spec_contains_key(x) == (old(
                self,
            ).pending_merges.spec_contains_key(x) && !(fc >= 0 && x == old(
                self,
            ).pending_merges.entries@[fc].0)) by {
                assert(self.pending_merges.spec_contains_key(x)
                    == mid.pending_merges.spec_contains_key(x));
                if compat is Some {
                    let cm2 = compat->0;
                    assert(fc >= 0 && old(self).pending_merges.entries@[fc].0 == cm2);
                } else {
                    assert(fc == -1);
                }
            }
            assert forall|x: Prefix|
                x != target && self.pending_merges.spec_contains_key(x)
                implies self.pending_merges.spec_get(x) == old(self).pending_merges.spec_get(
                x,
            ) by {
                assert(self.pending_merges.spec_get(x) == mid.pending_merges.spec_get(x));
                assert(mid.pending_merges.spec_contains_key(x));
                if compat is Some {
                    assert(x != compat->0);
                }
            }
            let t2 = prefix.spec_shorten();
            let fc2 = spec_first_compat(old(self).pending_merges.entries@, t2, 0);
            assert(!(fc2 >= 0 && old(self).pending_merges.entries@[fc2].0.spec_is_ancestor(t2)));
            assert(self.pending_merges.spec_contains_key(t2));
            assert forall|x: Prefix|
                self.pending_merges.spec_get(t2).complete.spec_contains_key(x) == (old(
                self,
            ).nodes.spec_contains_key(x) && t2.spec_is_ancestor(x)) by {
                assert(mid.nodes.spec_contains_key(x) == old(self).nodes.spec_contains_key(x));
            }
            assert(forall|i: int|
                0 <= i < self.pending_merges.spec_get(t2).complete.entries@.len() ==> !(
                #[trigger] self.pending_merges.spec_get(t2).complete.entries@[i]).1);
            assert(forall|x: Prefix|
                #[trigger] self.event_queue.spec_contains_key(x) ==> old(
                    self,
                ).event_queue.spec_contains_key(x) || (old(self).nodes.spec_contains_key(x)
                    && t2.spec_is_ancestor(x)));
            assert(forall|x: Prefix|
                old(self).nodes.spec_contains_key(x) && #[trigger] t2.spec_is_ancestor(x)
                    ==> spec_queue_preamble(self.event_queue, x, t2));
            assert(forall|x: Prefix|
                #[trigger] old(self).event_queue.spec_contains_key(x) && !(old(
                    self,
                ).nodes.spec_contains_key(x) && t2.spec_is_ancestor(x))
                    ==> self.event_queue.spec_contains_key(x) && self.event_queue.spec_get(x)
                    == old(self).event_queue.spec_get(x));
        }
    }

    /// Register a pending merge towards `target`: record the live sections
    /// below it as the constituents, none acknowledged yet, and replace
    /// each constituent's queue with its merge preamble.
    #[verifier::rlimit(100)]
    fn register_merge(&mut self, target: Prefix)
        requires
            old(self).inv(),
            target.wf(),
        ensures
            final(self).inv(),
            final(self).nodes == old(self).nodes,
            final(self).left_nodes == old(self).left_nodes,
            final(self).output == old(self).output,
            final(self).params == old(self).params,
            final(self).pending_merges.spec_contains_key(target),
            forall|x: Prefix|
                #[trigger] final(self).pending_merges.spec_get(target).complete.spec_contains_key(
                    x,
                ) == (old(self).nodes.spec_contains_key(x) && target.spec_is_ancestor(x)),
            forall|i: int|
                0 <= i < final(self).pending_merges.spec_get(target).complete.entries@.len() ==> !(
                #[trigger] final(self).pending_merges.spec_get(target).complete.entries@[i]).1,
            forall|x: Prefix|
                x != target ==> #[trigger] final(self).pending_merges.spec_contains_key(x) == old(
                    self,
                ).pending_merges.spec_contains_key(x),
            forall|x: Prefix|
                x != target && old(self).pending_merges.spec_contains_key(x)
                    ==> final(self).pending_merges.spec_get(x) == old(
                    self,
                ).pending_merges.spec_get(x),
            forall|x: Prefix|
                #[trigger] final(self).event_queue.spec_contains_key(x) ==> old(
                    self,
                ).event_queue.spec_contains_key(x) || (old(self).nodes.spec_contains_key(x)
                    && target.spec_is_ancestor(x)),
            forall|x: Prefix|
                old(self).nodes.spec_contains_key(x) && #[trigger] target.spec_is_ancestor(x)
                    ==> spec_queue_preamble(final(self).event_queue, x, target),
            forall|x: Prefix|
                #[trigger] old(self).event_queue.spec_contains_key(x) && !(old(
                    self,
                ).nodes.spec_contains_key(x) && target.spec_is_ancestor(x))
                    ==> final(self).event_queue.spec_contains_key(x)
                    && final(self).event_queue.spec_get(x) == old(self).event_queue.spec_get(x),
    {
        // the live sections below the target are the constituents
        let mut constituents: Vec<Prefix> = Vec::new();
        let n = self.nodes.entries.len();
        let mut i: usize = 0;
        while i < n
            invariant
                0 <= i <= n,
                n == self.nodes.entries@.len(),
                old(self).inv(),
                self.nodes == old(self).nodes,
                target.wf(),
                forall|x: Prefix|
                    constituents@.contains(x) == (exists|u: int|
                        0 <= u < i && (#[trigger] self.nodes.entries@[u]).0 == x
                            && target.spec_is_ancestor(x)),
                forall|a: int, b: int|
                    0 <= a < b < constituents@.len() ==> crate::prefix::spec_key_lt(
                        constituents@[a],
                        constituents@[b],
                    ),
            decreases n - i,
        {
            let key = self.nodes.entries[i].0;
            let ghost prev = constituents@;
            if target.is_ancestor(&key) {
                constituents.push(key);
                proof {
                    assert forall|a: int, b: int|
                        0 <= a < b < constituents@.len() implies crate::prefix::spec_key_lt(
                        constituents@[a],
                        constituents@[b],
                    ) by {
                        if b == constituents@.len() - 1 {
                            let x = constituents@[a];
                            assert(prev[a] == x);
                            assert(prev.contains(x));
                            let u = choose|u: int|
                                0 <= u < i && (#[trigger] self.nodes.entries@[u]).0 == x
                                    && target.spec_is_ancestor(x);
                            assert(crate::prefix::spec_key_lt(
                                self.nodes.entries@[u].0,
                                self.nodes.entries@[i as int].0,
                            ));
                        } else {
                            assert(constituents@[a] == prev[a]);
                            assert(constituents@[b] == prev[b]);
                        }
                    }
                }
            }
            proof {
                assert forall|x: Prefix| constituents@.contains(x) == (exists|u: int|
                    0 <= u < i + 1 && (#[trigger] self.nodes.entries@[u]).0 == x
                        && target.spec_is_ancestor(x)) by {
                    if constituents@.contains(x) {
                        let w = choose|w: int|
                            0 <= w < constituents@.len() && #[trigger] constituents@[w] == x;
                        if w < prev.len() {
                            assert(prev[w] == x);
                            assert(prev.contains(x));
                        } else {
                            assert(x == key);
                            assert(self.nodes.entries@[i as int].0 == x);
                        }
                    }
                    if exists|u: int|
                        0 <= u < i + 1 && (#[trigger] self.nodes.entries@[u]).0 == x
                            && target.spec_is_ancestor(x) {
                        let u = choose|u: int|
                            0 <= u < i + 1 && (#[trigger] self.nodes.entries@[u]).0 == x
                                && target.spec_is_ancestor(x);
                        if u < i as int {
                            assert(prev.contains(x));
                            let w = choose|w: int|
                                0 <= w < prev.len() && #[trigger] prev[w] == x;
                            assert(constituents@[w] == x);
                        } else {
                            assert(constituents@.last() == x);
                        }
                    }
                }
            }
            i = i + 1;
        }
        proof {
            assert forall|x: Prefix| #[trigger] constituents@.contains(x) == (
            self.nodes.spec_contains_key(x) && target.spec_is_ancestor(x)) by {
                if self.nodes.spec_contains_key(x) && target.spec_is_ancestor(x) {
                    let u = choose|u: int|
                        0 <= u < self.nodes.entries@.len() && (
                        #[trigger] self.nodes.entries@[u]).0 == x;
                    assert(0 <= u < n && self.nodes.entries@[u].0 == x
                        && target.spec_is_ancestor(x));
                }
            }
            assert forall|u: int|
                0 <= u < constituents@.len() implies self.nodes.spec_contains_key(
                #[trigger] constituents@[u],
            ) by {
                assert(constituents@.contains(constituents@[u]));
            }
        }
        let pending_merge = PendingMerge::from_prefixes(&constituents);
        let _ = self.pending_merges.insert(target, pending_merge);
        let ghost pms = self.pending_merges;
        // a hypothetical merged section, to work out the elder changes
        let merged = self.merged_section(target);
        let cn = constituents.len();
        let mut c: usize = 0;
        #[verifier::loop_isolation(false)]
        while c < cn
            invariant
                0 <= c <= cn,
                self.nodes == old(self).nodes,
                self.left_nodes == old(self).left_nodes,
                self.output == old(self).output,
                self.params == old(self).params,
                self.pending_merges == pms,
                self.event_queue.wf(),
                forall|x: Prefix|
                    #[trigger] self.event_queue.spec_contains_key(x) ==> old(
                        self,
                    ).event_queue.spec_contains_key(x) || (old(self).nodes.spec_contains_key(x)
                        && target.spec_is_ancestor(x)),
                forall|x: Prefix|
                    #[trigger] old(self).event_queue.spec_contains_key(x) && !(old(
                        self,
                    ).nodes.spec_contains_key(x) && target.spec_is_ancestor(x))
                        ==> self.event_queue.spec_contains_key(x) && self.event_queue.spec_get(x)
                        == old(self).event_queue.spec_get(x),
                forall|u: int|
                    0 <= u < c ==> spec_queue_preamble(
                        self.event_queue,
                        #[trigger] constituents@[u],
                        target,
                    ),
            decreases cn - c,
        {
            let q = constituents[c];
            proof {
                assert(constituents@.contains(q));
            }
            let events = self.calculate_merge_events(&merged, q);
            let ghost qpre = self.event_queue;
            let _ = self.event_queue.insert(q, events);
            proof {
                assert forall|u: int|
                    0 <= u < c + 1 implies spec_queue_preamble(
                    self.event_queue,
                    #[trigger] constituents@[u],
                    target,
                ) by {
                    if u < c {
                        assert(crate::prefix::spec_key_lt(
                            constituents@[u],
                            constituents@[c as int],
                        ));
                        assert(constituents@[u] != constituents@[c as int]);
                        assert(self.event_queue.spec_get(constituents@[u]) == qpre.spec_get(
                            constituents@[u],
                        ));
                    } else {
                        assert(self.event_queue.spec_get(q) == events);
                        assert(merged.prefix == target);
                    }
                }
            }
            c = c + 1;
        }
        proof {
            assert forall|x: Prefix|
                old(self).nodes.spec_contains_key(x) && #[trigger] target.spec_is_ancestor(
                x,
            ) implies spec_queue_preamble(self.event_queue, x, target) by {
                assert(constituents@.contains(x));
                let w = choose|w: int|
                    0 <= w < constituents@.len() && #[trigger] constituents@[w] == x;
                assert(spec_queue_preamble(self.event_queue, constituents@[w], target));
            }
            assert forall|i2: int|
                0 <= i2 < self.event_queue.entries@.len() implies has_key(
                self.nodes.entries@,
                (#[trigger] self.event_queue.entries@[i2]).0,
            ) by {
                let k = self.event_queue.entries@[i2].0;
                self.event_queue.lemma_get_at(i2);
                assert(self.event_queue.spec_contains_key(k));
                if old(self).event_queue.spec_contains_key(k) && !(old(
                    self,
                ).nodes.spec_contains_key(k) && target.spec_is_ancestor(k)) {
                    let qi2 = old(self).event_queue.spec_index_of(k);
                    old(self).event_queue.lemma_get_at(qi2);
                    assert(has_key(
                        old(self).nodes.entries@,
                        (#[trigger] old(self).event_queue.entries@[qi2]).0,
                    ));
                }
            }
        }
    }

    /// Handle a section's request to split: replace it by its two children,
    /// moving the preamble events to the children's queues. The request is
    /// ignored when the prefix is no longer live, the section has already
    /// changed prefix, or the prefix cannot be extended.
    fn handle_split(&mut self, prefix: Prefix)
        requires
            old(self).inv(),
        ensures
            spec_split_post(*old(self), *final(self), prefix),
    {
        let idx = match self.nodes.index_of(&prefix) {
            Some(i) => i,
            None => {
                return ;
            },
        };
        proof {
            self.nodes.lemma_get_at(idx as int);
        }
        let sp = self.nodes.entries[idx].1.prefix;
        if !(sp.bits == prefix.bits && sp.len == prefix.len) || prefix.len >= 64
            || !prefix.is_wf() {
            return ;
        }
        let ghost pre = *self;
        let removed = match self.nodes.remove(&prefix) {
            Some(s) => s,
            None => {
                proof {
                    assert(false);
                }
                return ;
            },
        };
        let ((mut sec0, _ev0), (mut sec1, _ev1)) = removed.split();
        let _ = self.event_queue.remove(&prefix);
        sec0.recompute_drop_weight(&self.params);
        sec1.recompute_drop_weight(&self.params);
        let k0 = sec0.prefix;
        let k1 = sec1.prefix;
        let ghost mid = self.nodes;
        let _ = self.nodes.insert(k0, sec0);
        let ghost mid2 = self.nodes;
        proof {
            lemma_extend_partition(prefix, 0);
        }
        let _ = self.nodes.insert(k1, sec1);
        self.output.churn = bump64_exec(self.output.churn);
        proof {
            let post = self.nodes.entries@;
            let preseq = pre.nodes.entries@;
            assert forall|x: Prefix| #[trigger] has_key(post, x) == ((has_key(preseq, x) && x
                != prefix) || x == k0 || x == k1) by {
                assert(has_key(post, x) == self.nodes.spec_contains_key(x));
                assert(has_key(preseq, x) == pre.nodes.spec_contains_key(x));
            }
            assert forall|i: int, j: int| 0 <= i < j < preseq.len() implies preseq[i].0
                != preseq[j].0 by {
                if preseq[i].0 == preseq[j].0 {
                    pre.nodes.lemma_key_unique(i, j);
                }
            }
            assert forall|i: int, j: int| 0 <= i < j < post.len() implies post[i].0
                != post[j].0 by {
                if post[i].0 == post[j].0 {
                    self.nodes.lemma_key_unique(i, j);
                }
            }
            // sections stay internally consistent
            assert forall|i: int|
                0 <= i < post.len() implies (#[trigger] post[i]).0.wf() && post[i].1.wf()
                && post[i].1.weight_ok(self.params.drop_dist) by {
                self.nodes.lemma_get_at(i);
                let k = post[i].0;
                let v = post[i].1;
                if k == k0 {
                    assert(v == self.nodes.spec_get(k0));
                    crate::prefix::lemma_extend_wf(prefix, 0);
                } else if k == k1 {
                    assert(v == self.nodes.spec_get(k1));
                    crate::prefix::lemma_extend_wf(prefix, 1);
                } else {
                    assert(self.nodes.spec_contains_key(k));
                    assert(has_key(post, k));
                    assert(pre.nodes.spec_contains_key(k));
                    assert(v == pre.nodes.spec_get(k));
                    let oi = pre.nodes.spec_index_of(k);
                    pre.nodes.lemma_get_at(oi);
                    assert((#[trigger] preseq[oi]).0.wf());
                }
            }
            lemma_cover_split(preseq, post, prefix);
        }
    }

    /// Finalise a pending merge whose constituents are all ready: remove
    /// every live section under the target together with its queue, and
    /// install the combined section at the target. A merge whose target no
    /// longer has a live descendant is discarded.
    fn finalise_merge(&mut self, target: Prefix)
        requires
            old(self).inv(),
            target.wf(),
        ensures
            final(self).inv(),
            old(self).output.le(final(self).output),
            final(self).params == old(self).params,
            final(self).left_nodes == old(self).left_nodes,
            forall|x: Prefix|
                final(self).event_queue.spec_contains_key(x) ==> old(
                    self,
                ).event_queue.spec_contains_key(x) && final(self).event_queue.spec_get(x) == old(
                    self,
                ).event_queue.spec_get(x),
            !final(self).pending_merges.spec_contains_key(target),
            forall|x: Prefix|
                x != target ==> final(self).pending_merges.spec_contains_key(x) == old(
                    self,
                ).pending_merges.spec_contains_key(x),
            forall|x: Prefix|
                x != target && old(self).pending_merges.spec_contains_key(x)
                    ==> final(self).pending_merges.spec_get(x) == old(
                    self,
                ).pending_merges.spec_get(x),
            !(exists|u: int|
                0 <= u < old(self).nodes.entries@.len() && target.spec_is_ancestor(
                    (#[trigger] old(self).nodes.entries@[u]).0,
                )) ==> final(self).nodes == old(self).nodes && final(self).event_queue == old(
                self,
            ).event_queue && final(self).output == old(self).output,
            (exists|u: int|
                0 <= u < old(self).nodes.entries@.len() && target.spec_is_ancestor(
                    (#[trigger] old(self).nodes.entries@[u]).0,
                )) ==> {
                &&& final(self).nodes.spec_contains_key(target)
                &&& final(self).nodes.spec_get(target).prefix == target
                &&& forall|x: Prefix|
                    old(self).nodes.spec_contains_key(x) && #[trigger] target.spec_is_ancestor(x)
                        ==> !final(self).event_queue.spec_contains_key(x)
                &&& final(self).output.churn == bump64(old(self).output.churn)
                &&& final(self).output.adds == old(self).output.adds
                &&& final(self).output.drops == old(self).output.drops
                &&& final(self).output.rejoins == old(self).output.rejoins
                &&& final(self).output.relocations == old(self).output.relocations
                &&& final(self).output.rejections == old(self).output.rejections
                &&& final(self).output.drops_dist == old(self).output.drops_dist
                &&& final(self).output.network_structure == old(self).output.network_structure
                &&& forall|ci: int, mj: int|
                    0 <= ci < old(self).nodes.entries@.len() && target.spec_is_ancestor(
                        (#[trigger] old(self).nodes.entries@[ci]).0,
                    ) && 0 <= mj < old(self).nodes.entries@[ci].1.members@.len()
                        ==> crate::section::spec_has_name(
                        final(self).nodes.spec_get(target).members@,
                        (#[trigger] old(self).nodes.entries@[ci].1.members@[mj]).name,
                    )
                &&& forall|mi: int|
                    0 <= mi < final(self).nodes.spec_get(target).members@.len() ==> member_from(
                        old(self).nodes.entries@,
                        target,
                        #[trigger] final(self).nodes.spec_get(target).members@[mi],
                    )
            },
    {
        let _ = self.pending_merges.remove(&target);
        // a merge without live constituents is stale; drop it
        let n = self.nodes.entries.len();
        let mut any: bool = false;
        let mut i: usize = 0;
        while i < n
            invariant
                0 <= i <= n,
                n == self.nodes.entries@.len(),
                self.nodes == old(self).nodes,
                target.wf(),
                any ==> exists|u: int|
                    0 <= u < n && target.spec_is_ancestor((#[trigger] self.nodes.entries@[u]).0),
                !any ==> forall|u: int|
                    0 <= u < i ==> !target.spec_is_ancestor((#[trigger] self.nodes.entries@[u]).0),
            decreases n - i,
        {
            if target.is_ancestor(&self.nodes.entries[i].0) {
                any = true;
            }
            i = i + 1;
        }
        if !any {
            return ;
        }
        let merged = self.merged_section(target);
        let ghost pre = *self;
        let ghost keep = |e: (Prefix, Section)| !target.spec_is_ancestor(e.0);
        // keep the sections that are not constituents, in order
        let mut entries: Vec<(Prefix, Section)> = Vec::new();
        core::mem::swap(&mut entries, &mut self.nodes.entries);
        let ghost orig = entries@;
        let mut kept: Vec<(Prefix, Section)> = Vec::new();
        let mut removed_keys: Vec<Prefix> = Vec::new();
        let en = entries.len();
        let mut j: usize = 0;
        #[verifier::loop_isolation(false)]
        while j < en
            invariant
                0 <= j <= en,
                entries@ == orig.skip(j as int),
                kept@ == orig.take(j as int).filter(keep),
                self.nodes.entries@.len() == 0,
                forall|oi: int|
                    0 <= oi < j && target.spec_is_ancestor((#[trigger] orig[oi]).0)
                        ==> removed_keys@.contains(orig[oi].0),
            decreases en - j,
        {
            proof {
                assert(orig.skip(j as int)[0] == orig[j as int]);
                assert(orig.skip(j as int).remove(0) =~= orig.skip(j as int + 1));
                lemma_filter_push(orig.take(j as int), keep, orig[j as int]);
                assert(orig.take(j as int).push(orig[j as int]) =~= orig.take(j as int + 1));
            }
            let ghost rkpre = removed_keys@;
            let (k, s) = entries.remove(0);
            if target.is_ancestor(&k) {
                removed_keys.push(k);
            } else {
                kept.push((k, s));
            }
            proof {
                assert forall|oi: int|
                    0 <= oi < j + 1 && target.spec_is_ancestor((#[trigger] orig[oi]).0)
                    implies removed_keys@.contains(orig[oi].0) by {
                    if oi < j as int {
                        assert(rkpre.contains(orig[oi].0));
                        let w = choose|w: int|
                            0 <= w < rkpre.len() && #[trigger] rkpre[w] == orig[oi].0;
                        assert(removed_keys@[w] == orig[oi].0);
                    } else {
                        assert(removed_keys@.last() == orig[oi].0);
                    }
                }
            }
            j = j + 1;
        }
        proof {
            assert(orig.take(en as int) =~= orig);
            lemma_filter_sorted(orig, keep);
            lemma_filter_elem(orig, keep);
        }
        self.nodes.entries = kept;
        let ghost mid = self.nodes;
        proof {
            // the kept keys are exactly the old keys outside the target
            assert forall|x: Prefix| #[trigger] mid.spec_contains_key(x) == (
            pre.nodes.spec_contains_key(x) && !target.spec_is_ancestor(x)) by {
                if mid.spec_contains_key(x) {
                    let ki = choose|ki: int|
                        0 <= ki < mid.entries@.len() && mid.entries@[ki].0 == x;
                    assert(orig.contains(mid.entries@[ki]));
                    let oi = choose|oi: int|
                        0 <= oi < orig.len() && #[trigger] orig[oi] == mid.entries@[ki];
                    assert(pre.nodes.entries@[oi].0 == x);
                    assert(keep(mid.entries@[ki]));
                }
                if pre.nodes.spec_contains_key(x) && !target.spec_is_ancestor(x) {
                    let oi = choose|oi: int|
                        0 <= oi < orig.len() && (#[trigger] orig[oi]).0 == x;
                    orig.lemma_filter_contains(keep, oi);
                    let ki = choose|ki: int|
                        0 <= ki < orig.filter(keep).len() && #[trigger] orig.filter(keep)[ki]
                            == orig[oi];
                    assert(mid.entries@[ki].0 == x);
                }
            }
        }
        // drop the constituents' queues
        let rn = removed_keys.len();
        let mut r: usize = 0;
        #[verifier::loop_isolation(false)]
        while r < rn
            invariant
                0 <= r <= rn,
                self.nodes == mid,
                self.left_nodes == old(self).left_nodes,
                self.output == pre.output,
                self.params == old(self).params,
                self.pending_merges == pre.pending_merges,
                self.event_queue.wf(),
                forall|x: Prefix|
                    self.event_queue.spec_contains_key(x) ==> old(
                        self,
                    ).event_queue.spec_contains_key(x) && self.event_queue.spec_get(x) == old(
                        self,
                    ).event_queue.spec_get(x),
                forall|u: int|
                    0 <= u < r ==> !self.event_queue.spec_contains_key(
                        #[trigger] removed_keys@[u],
                    ),
            decreases rn - r,
        {
            let _ = self.event_queue.remove(&removed_keys[r]);
            r = r + 1;
        }
        proof {
            assert forall|x: Prefix|
                old(self).nodes.spec_contains_key(x) && #[trigger] target.spec_is_ancestor(
                x,
            ) implies !self.event_queue.spec_contains_key(x) by {
                let oi = choose|oi: int|
                    0 <= oi < orig.len() && (#[trigger] orig[oi]).0 == x;
                assert(target.spec_is_ancestor(orig[oi].0));
                assert(removed_keys@.contains(x));
                let w = choose|w: int| 0 <= w < removed_keys@.len() && #[trigger] removed_keys@[w] == x;
                assert(!self.event_queue.spec_contains_key(removed_keys@[w]));
            }
        }
        // install the merged section
        let mut merged = merged;
        merged.recompute_drop_weight(&self.params);
        let _ = self.nodes.insert(target, merged);
        self.output.churn = bump64_exec(self.output.churn);
        proof {
            let post = self.nodes.entries@;
            let preseq = pre.nodes.entries@;
            assert forall|x: Prefix| #[trigger] has_key(post, x) == ((has_key(preseq, x)
                && !target.spec_is_ancestor(x)) || x == target) by {
                assert(has_key(post, x) == self.nodes.spec_contains_key(x));
                assert(has_key(preseq, x) == pre.nodes.spec_contains_key(x));
            }
            assert forall|i: int, j2: int| 0 <= i < j2 < preseq.len() implies preseq[i].0
                != preseq[j2].0 by {
                if preseq[i].0 == preseq[j2].0 {
                    pre.nodes.lemma_key_unique(i, j2);
                }
            }
            assert forall|i: int, j2: int| 0 <= i < j2 < post.len() implies post[i].0
                != post[j2].0 by {
                if post[i].0 == post[j2].0 {
                    self.nodes.lemma_key_unique(i, j2);
                }
            }
            assert forall|i: int|
                0 <= i < post.len() implies (#[trigger] post[i]).0.wf() && post[i].1.wf()
                && post[i].1.weight_ok(self.params.drop_dist) by {
                self.nodes.lemma_get_at(i);
                let k = post[i].0;
                let v = post[i].1;
                if k == target {
                    assert(v == self.nodes.spec_get(target));
                } else {
                    assert(self.nodes.spec_contains_key(k));
                    assert(has_key(post, k));
                    assert(pre.nodes.spec_contains_key(k));
                    assert(mid.spec_contains_key(k));
                    assert(v == mid.spec_get(k));
                    let mi = mid.spec_index_of(k);
                    mid.lemma_get_at(mi);
                    assert(orig.contains(mid.entries@[mi]));
                    let oi = choose|oi: int|
                        0 <= oi < orig.len() && #[trigger] orig[oi] == mid.entries@[mi];
                    assert((#[trigger] preseq[oi]).0.wf());
                }
            }
            lemma_cover_merge(preseq, post, target);
            assert forall|i2: int|
                0 <= i2 < self.event_queue.entries@.len() implies has_key(
                post,
                (#[trigger] self.event_queue.entries@[i2]).0,
            ) by {
                let k = self.event_queue.entries@[i2].0;
                self.event_queue.lemma_get_at(i2);
                assert(self.event_queue.spec_contains_key(k));
                assert(old(self).event_queue.spec_contains_key(k));
                let qi2 = old(self).event_queue.spec_index_of(k);
                old(self).event_queue.lemma_get_at(qi2);
                assert(has_key(
                    old(self).nodes.entries@,
                    (#[trigger] old(self).event_queue.entries@[qi2]).0,
                ));
                assert(!target.spec_is_ancestor(k));
            }
        }
    }

    /// Processes a single response from a section, which may enqueue
    /// events, register structural changes, or move nodes.
    fn process_single_event(&mut self, prefix: Prefix, event: SectionEvent)
        requires
            old(self).inv(),
        ensures
            final(self).inv(),
            old(self).output.le(final(self).output),
            final(self).params == old(self).params,
            match event {
                SectionEvent::NodeDropped(n) => {
                    &&& final(self).left_nodes@ == old(self).left_nodes@.push(n)
                    &&& final(self).nodes == old(self).nodes
                    &&& final(self).event_queue == old(self).event_queue
                    &&& final(self).pending_merges == old(self).pending_merges
                    &&& final(self).output == old(self).output
                },
                SectionEvent::NodeRejected(_) => {
                    &&& final(self).output.rejections == bump64(old(self).output.rejections)
                    &&& final(self).output.adds == old(self).output.adds
                    &&& final(self).output.drops == old(self).output.drops
                    &&& final(self).output.rejoins == old(self).output.rejoins
                    &&& final(self).output.relocations == old(self).output.relocations
                    &&& final(self).output.churn == old(self).output.churn
                    &&& final(self).output.drops_dist == old(self).output.drops_dist
                    &&& final(self).output.network_structure == old(self).output.network_structure
                    &&& final(self).nodes == old(self).nodes
                    &&& final(self).left_nodes == old(self).left_nodes
                    &&& final(self).event_queue == old(self).event_queue
                    &&& final(self).pending_merges == old(self).pending_merges
                },
                SectionEvent::NeedRelocate(n) => spec_relocate_post(*old(self), *final(self), n),
                SectionEvent::RequestMerge => spec_merge_post(*old(self), *final(self), prefix),
                SectionEvent::RequestSplit => spec_split_post(*old(self), *final(self), prefix),
            },
    {
        match event {
            SectionEvent::NodeDropped(node) => {
                self.left_nodes.push(node);
            },
            SectionEvent::NeedRelocate(node) => {
                self.relocate(node);
            },
            SectionEvent::NodeRejected(_) => {
                self.output.rejections = bump64_exec(self.output.rejections);
            },
            SectionEvent::RequestMerge => {
                self.merge(prefix);
            },
            SectionEvent::RequestSplit => {
                self.handle_split(prefix);
            },
        }
    }

    /// Sends all queued events to the corresponding sections and processes
    /// the events passed back; the responses generate new events and the
    /// cycle continues until the queues are empty. Then every pending merge
    /// whose constituents are all ready is finalised.
    pub fn process_events(&mut self) -> (drained: bool)
        requires
            old(self).inv(),
        ensures
            final(self).inv(),
            old(self).output.le(final(self).output),
            final(self).params == old(self).params,
            drained ==> forall|i: int|
                0 <= i < final(self).event_queue.entries@.len()
                    ==> (#[trigger] final(self).event_queue.entries@[i]).1@.len() == 0,
            forall|j: int|
                0 <= j < final(self).pending_merges.entries@.len()
                    ==> !(#[trigger] final(self).pending_merges.entries@[j]).1.spec_is_done(),
    {
        // the fixed point is reached when the queues drain; the fuel only
        // bounds the loop so that it provably ends
        let mut fuel: u64 = u64::MAX;
        while fuel > 0 && self.has_events()
            invariant
                self.inv(),
                old(self).output.le(self.output),
                self.params == old(self).params,
            decreases fuel,
        {
            fuel = fuel - 1;
            let mut queue: PrefixMap<Vec<NetworkEvent>> = PrefixMap::new();
            core::mem::swap(&mut queue, &mut self.event_queue);
            let qn = queue.entries.len();
            let mut qi: usize = 0;
            while qi < qn
                invariant
                    0 <= qi <= qn,
                    qn == queue.entries@.len(),
                    self.inv(),
                    old(self).output.le(self.output),
                    self.params == old(self).params,
                decreases qn - qi,
            {
                let prefix = queue.entries[qi].0;
                let en = queue.entries[qi].1.len();
                let mut section_events: Vec<SectionEvent> = Vec::new();
                let mut ei: usize = 0;
                while ei < en
                    invariant
                        0 <= ei <= en,
                        0 <= qi < qn,
                        qn == queue.entries@.len(),
                        en == queue.entries@[qi as int].1@.len(),
                        self.inv(),
                        old(self).output.le(self.output),
                        self.params == old(self).params,
                    decreases en - ei,
                {
                    let event = queue.entries[qi].1[ei];
                    // deliver to the section, if it still exists
                    let ghost before = *self;
                    match self.nodes.index_of(&prefix) {
                        Some(si) => {
                            proof {
                                self.nodes.lemma_get_at(si as int);
                            }
                            let placeholder = Section::new(Prefix::empty());
                            let mut sec = self.nodes.replace_at(si, placeholder);
                            let mut evs = sec.handle_event(event, &self.params);
                            let _ = self.nodes.replace_at(si, sec);
                            section_events.append(&mut evs);
                            proof {
                                self.lemma_same_keys_inv(before);
                            }
                        },
                        None => {},
                    }
                    // a prefix change acknowledges a pending merge
                    match event {
                        NetworkEvent::PrefixChange(pfx) => {
                            match self.pending_merges.index_of(&pfx) {
                                Some(pj) => {
                                    let ghost pmpre = self.pending_merges;
                                    let dummy = PendingMerge { complete: PrefixMap::new() };
                                    let mut pm = self.pending_merges.replace_at(pj, dummy);
                                    pm.completed(prefix);
                                    let _ = self.pending_merges.replace_at(pj, pm);
                                    proof {
                                        assert forall|j: int|
                                            0 <= j < self.pending_merges.entries@.len() implies (
                                        #[trigger] self.pending_merges.entries@[j]).0.wf() && (
                                        self.pending_merges.entries@[j]).1.wf() by {
                                            if j != pj as int {
                                                assert(self.pending_merges.entries@[j]
                                                    == pmpre.entries@[j]);
                                            } else {
                                                assert(self.pending_merges.entries@[j].0
                                                    == pmpre.entries@[j].0);
                                            }
                                        }
                                    }
                                },
                                None => {},
                            }
                        },
                        _ => {},
                    }
                    ei = ei + 1;
                }
                // process what the section reported back
                let sn = section_events.len();
                let mut si2: usize = 0;
                while si2 < sn
                    invariant
                        0 <= si2 <= sn,
                        sn == section_events@.len(),
                        self.inv(),
                        old(self).output.le(self.output),
                        self.params == old(self).params,
                    decreases sn - si2,
                {
                    let sev = section_events[si2];
                    self.process_single_event(prefix, sev);
                    si2 = si2 + 1;
                }
                qi = qi + 1;
            }
        }
        let drained = !self.has_events();
        let ghost fin0 = *self;
        proof {
            if drained {
                assert forall|i: int|
                    0 <= i < fin0.event_queue.entries@.len() implies (
                #[trigger] fin0.event_queue.entries@[i]).1@.len() == 0 by {}
            }
        }
        // finalise the merges whose constituents are all ready
        let mut ready: Vec<Prefix> = Vec::new();
        let pn = self.pending_merges.entries.len();
        let mut pj: usize = 0;
        #[verifier::loop_isolation(false)]
        while pj < pn
            invariant
                0 <= pj <= pn,
                *self == fin0,
                forall|u: int| 0 <= u < ready@.len() ==> (#[trigger] ready@[u]).wf(),
                forall|u: int|
                    0 <= u < ready@.len() ==> exists|j2: int|
                        0 <= j2 < pj && #[trigger] ready@[u] == self.pending_merges.entries@[j2].0,
                forall|j2: int|
                    0 <= j2 < pj && (#[trigger] self.pending_merges.entries@[j2]).1.spec_is_done()
                        ==> ready@.contains(self.pending_merges.entries@[j2].0),
            decreases pn - pj,
        {
            let ghost rdpre = ready@;
            if self.pending_merges.entries[pj].1.is_done() {
                let t = self.pending_merges.entries[pj].0;
                ready.push(t);
            }
            proof {
                assert forall|j2: int|
                    0 <= j2 < pj + 1 && (
                #[trigger] self.pending_merges.entries@[j2]).1.spec_is_done()
                    implies ready@.contains(self.pending_merges.entries@[j2].0) by {
                    if j2 < pj as int {
                        assert(rdpre.contains(self.pending_merges.entries@[j2].0));
                        let w = choose|w: int|
                            0 <= w < rdpre.len() && #[trigger] rdpre[w]
                                == self.pending_merges.entries@[j2].0;
                        assert(ready@[w] == self.pending_merges.entries@[j2].0);
                    } else {
                        assert(ready@.last() == self.pending_merges.entries@[j2].0);
                    }
                }
            }
            pj = pj + 1;
        }
        proof {
            // every fully acknowledged pending merge is on the ready list
            assert forall|x: Prefix|
                self.pending_merges.spec_contains_key(x) && (
            #[trigger] self.pending_merges.spec_get(x)).spec_is_done() implies ready@.contains(
                x,
            ) by {
                let j2 = self.pending_merges.spec_index_of(x);
                self.pending_merges.lemma_get_at(j2);
                assert((#[trigger] self.pending_merges.entries@[j2]).1.spec_is_done());
            }
        }
        let rn = ready.len();
        let mut r: usize = 0;
        #[verifier::loop_isolation(false)]
        while r < rn
            invariant
                0 <= r <= rn,
                self.inv(),
                old(self).output.le(self.output),
                self.params == old(self).params,
                forall|x: Prefix|
                    #[trigger] self.event_queue.spec_contains_key(x)
                        ==> fin0.event_queue.spec_contains_key(x) && self.event_queue.spec_get(x)
                        == fin0.event_queue.spec_get(x),
                forall|x: Prefix|
                    self.pending_merges.spec_contains_key(x) && (
                    #[trigger] self.pending_merges.spec_get(x)).spec_is_done() ==> exists|u: int|
                        r <= u < rn && ready@[u] == x,
            decreases rn - r,
        {
            let t = ready[r];
            let ghost fpre = *self;
            self.finalise_merge(t);
            proof {
                assert forall|x: Prefix|
                    self.pending_merges.spec_contains_key(x) && (
                #[trigger] self.pending_merges.spec_get(x)).spec_is_done() implies exists|u: int|
                    r + 1 <= u < rn && ready@[u] == x by {
                    assert(x != t);
                    assert(fpre.pending_merges.spec_contains_key(x));
                    assert(fpre.pending_merges.spec_get(x) == self.pending_merges.spec_get(x));
                    let u = choose|u: int| r <= u < rn && #[trigger] ready@[u] == x;
                    assert(u != r);
                    assert(r + 1 <= u < rn && ready@[u] == x);
                }
            }
            r = r + 1;
        }
        proof {
            // no fully acknowledged pending merge survives
            assert forall|j: int|
                0 <= j < self.pending_merges.entries@.len() implies !(
            #[trigger] self.pending_merges.entries@[j]).1.spec_is_done() by {
                self.pending_merges.lemma_get_at(j);
                if self.pending_merges.entries@[j].1.spec_is_done() {
                    let k = self.pending_merges.entries@[j].0;
                    assert(self.pending_merges.spec_contains_key(k)
                        && self.pending_merges.spec_get(k).spec_is_done());
                }
            }
            // on a drained exit the queues stay empty through finalisation
            if drained {
                assert forall|i: int|
                    0 <= i < self.event_queue.entries@.len() implies (
                #[trigger] self.event_queue.entries@[i]).1@.len() == 0 by {
                    self.event_queue.lemma_get_at(i);
                    let k = self.event_queue.entries@[i].0;
                    assert(self.event_queue.spec_contains_key(k));
                    assert(fin0.event_queue.spec_contains_key(k));
                    let fi = fin0.event_queue.spec_index_of(k);
                    fin0.event_queue.lemma_get_at(fi);
                    assert((#[trigger] fin0.event_queue.entries@[fi]).1@.len() == 0);
                }
            }
        }
        drained
    }

    /// Replacing section values in place (keys untouched) preserves the
    /// cover; with well-formed values it preserves the whole invariant.
    proof fn lemma_same_keys_inv(self, pre: Network)
        requires
            pre.inv(),
            self.nodes.wf(),
            self.nodes.entries@.len() == pre.nodes.entries@.len(),
            forall|i: int|
                0 <= i < self.nodes.entries@.len() ==> (#[trigger] self.nodes.entries@[i]).0
                    == pre.nodes.entries@[i].0,
            forall|i: int|
                0 <= i < self.nodes.entries@.len() ==> (#[trigger] self.nodes.entries@[i]).1.wf()
                    && self.nodes.entries@[i].1.weight_ok(self.params.drop_dist),
            self.event_queue == pre.event_queue,
            self.pending_merges == pre.pending_merges,
            self.output.wf(),
        ensures
            self.inv(),
    {
        assert forall|i: int|
            0 <= i < self.event_queue.entries@.len() implies has_key(
            self.nodes.entries@,
            (#[trigger] self.event_queue.entries@[i]).0,
        ) by {
            assert(has_key(pre.nodes.entries@, (#[trigger] pre.event_queue.entries@[i]).0));
            let j = choose|j: int|
                0 <= j < pre.nodes.entries@.len() && (#[trigger] pre.nodes.entries@[j]).0
                    == pre.event_queue.entries@[i].0;
            assert(self.nodes.entries@[j].0 == self.event_queue.entries@[i].0);
        }
        assert forall|name: u64| #[trigger] covers(self.nodes.entries@, name) by {
            assert(covers(pre.nodes.entries@, name));
            let i = choose|i: int|
                0 <= i < pre.nodes.entries@.len() && pre.nodes.entries@[i].0.spec_matches(name);
            assert(self.nodes.entries@[i].0.spec_matches(name));
        }
        assert forall|i: int, j: int|
            #![trigger self.nodes.entries@[i], self.nodes.entries@[j]]
            0 <= i < j < self.nodes.entries@.len() implies !self.nodes.entries@[
            i
        ].0.spec_is_compatible_with(self.nodes.entries@[j].0) by {
            assert(!pre.nodes.entries@[i].0.spec_is_compatible_with(pre.nodes.entries@[j].0));
        }
    }

    /// Record the current shape of the network in the outputs.
    pub fn capture_network_structure(&mut self)
        requires
            old(self).inv(),
        ensures
            final(self).inv(),
            final(self).nodes == old(self).nodes,
            final(self).left_nodes == old(self).left_nodes,
            final(self).event_queue == old(self).event_queue,
            final(self).pending_merges == old(self).pending_merges,
            final(self).params == old(self).params,
            old(self).output.le(final(self).output),
            final(self).output.adds == old(self).output.adds,
            final(self).output.drops == old(self).output.drops,
            final(self).output.rejoins == old(self).output.rejoins,
            final(self).output.relocations == old(self).output.relocations,
            final(self).output.rejections == old(self).output.rejections,
            final(self).output.churn == old(self).output.churn,
            final(self).output.drops_dist == old(self).output.drops_dist,
            final(self).output.network_structure@ == old(self).output.network_structure@.push(
                NetworkStructure {
                    size: sat_count(spec_size_prefix(old(self).nodes.entries@, old(self).nodes.entries@.len() as int)),
                    sections: old(self).nodes.entries@.len() as usize,
                    complete: old(self).nodes.entries@.filter(
                        |e: (Prefix, Section)| e.1.spec_is_complete(),
                    ).len() as usize,
                },
            ),
    {
        let n = self.nodes.entries.len();
        let mut size: usize = 0;
        let mut i: usize = 0;
        while i < n
            invariant
                0 <= i <= n,
                n == self.nodes.entries@.len(),
                size == sat_count(spec_size_prefix(self.nodes.entries@, i as int)),
            decreases n - i,
        {
            proof {
                lemma_size_prefix_nonneg(self.nodes.entries@, i as int);
            }
            let l = self.nodes.entries[i].1.members.len();
            if size <= usize::MAX - l {
                size = size + l;
            } else {
                size = usize::MAX;
            }
            i = i + 1;
        }
        let complete = self.complete_sections();
        let sections = self.nodes.entries.len();
        let structure = NetworkStructure { size, sections, complete };
        self.output.network_structure.push(structure);
    }

    /// The histogram of member ages across all live sections, one bucket
    /// per age, each count saturating at the top of the range.
    pub fn age_distribution(&self) -> (r: Vec<usize>)
        requires
            self.inv(),
        ensures
            r@.len() == crate::output::AGE_BUCKETS,
            forall|a: u8|
                r@[a as int] == sat_count(
                    spec_age_prefix(self.nodes.entries@, self.nodes.entries@.len() as int, a),
                ),
    {
        let mut dist: Vec<usize> = Vec::new();
        let mut b: usize = 0;
        while b < crate::output::AGE_BUCKETS
            invariant
                0 <= b <= crate::output::AGE_BUCKETS,
                dist@.len() == b,
                forall|a: int| 0 <= a < b ==> dist@[a] == 0,
            decreases crate::output::AGE_BUCKETS - b,
        {
            dist.push(0);
            b = b + 1;
        }
        let n = self.nodes.entries.len();
        let mut i: usize = 0;
        while i < n
            invariant
                0 <= i <= n,
                n == self.nodes.entries@.len(),
                dist@.len() == crate::output::AGE_BUCKETS,
                forall|a: u8|
                    dist@[a as int] == sat_count(spec_age_prefix(self.nodes.entries@, i as int, a)),
            decreases n - i,
        {
            let m = self.nodes.entries[i].1.members.len();
            let mut j: usize = 0;
            while j < m
                invariant
                    0 <= j <= m,
                    0 <= i < n,
                    n == self.nodes.entries@.len(),
                    m == self.nodes.entries@[i as int].1.members@.len(),
                    dist@.len() == crate::output::AGE_BUCKETS,
                    forall|a: u8|
                        dist@[a as int] == sat_count(
                            spec_age_prefix(self.nodes.entries@, i as int, a) + spec_count_age(
                                self.nodes.entries@[i as int].1.members@,
                                j as int,
                                a,
                            ),
                        ),
                decreases m - j,
            {
                let node = self.nodes.entries[i].1.members[j];
                let cur = dist[node.age as usize];
                proof {
                    lemma_age_prefix_nonneg(self.nodes.entries@, i as int, node.age);
                    lemma_count_age_nonneg(
                        self.nodes.entries@[i as int].1.members@,
                        j as int,
                        node.age,
                    );
                    assert forall|a: u8|
                        spec_age_prefix(self.nodes.entries@, i as int, a) + spec_count_age(
                            self.nodes.entries@[i as int].1.members@,
                            j as int + 1,
                            a,
                        ) >= 0 by {
                        lemma_age_prefix_nonneg(self.nodes.entries@, i as int, a);
                        lemma_count_age_nonneg(
                            self.nodes.entries@[i as int].1.members@,
                            j as int + 1,
                            a,
                        );
                    }
                }
                dist[node.age as usize] = bump_usize_exec(cur);
                j = j + 1;
            }
            i = i + 1;
        }
        dist
    }

    /// The number of members of the section at `k`; zero when `k` is not
    /// live.
    fn section_size(&self, k: &Prefix) -> (r: usize)
        requires
            self.nodes.wf(),
        ensures
            self.nodes.spec_contains_key(*k) ==> r == self.nodes.spec_get(*k).members@.len(),
    {
        match self.nodes.get(k) {
            Some(sec) => sec.len(),
            None => 0,
        }
    }

    /// Adds a random node to the network by pushing an appropriate event
    /// to the queue of the section owning its random name.
    pub fn add_random_node(&mut self)
        requires
            old(self).inv(),
        ensures
            final(self).inv(),
            final(self).output.adds == bump64(old(self).output.adds),
            final(self).output.churn == bump64(old(self).output.churn),
            final(self).output.drops == old(self).output.drops,
            final(self).output.rejoins == old(self).output.rejoins,
            final(self).output.relocations == old(self).output.relocations,
            final(self).output.rejections == old(self).output.rejections,
            final(self).output.drops_dist == old(self).output.drops_dist,
            old(self).output.le(final(self).output),
            final(self).nodes == old(self).nodes,
            final(self).left_nodes == old(self).left_nodes,
            final(self).pending_merges == old(self).pending_merges,
            final(self).params == old(self).params,
            exists|k: Prefix, nd: Node|
                {
                    &&& final(self).nodes.spec_contains_key(k)
                    &&& k.spec_matches(nd.name.0)
                    &&& nd.age == old(self).params.init_age
                    &&& spec_enqueued(
                        old(self).event_queue,
                        final(self).event_queue,
                        k,
                        NetworkEvent::Live(nd, true),
                    )
                },
    {
        self.output.adds = bump64_exec(self.output.adds);
        self.output.churn = bump64_exec(self.output.churn);
        let name = next_u64(&mut self.rng);
        let node = Node::new(name, self.params.init_age);
        let prefix = self.prefix_for_node(node);
        let ghost pre = self.event_queue;
        enqueue(&mut self.event_queue, prefix, NetworkEvent::Live(node, true));
        proof {
            assert(spec_enqueued(pre, self.event_queue, prefix, NetworkEvent::Live(node, true)));
            lemma_queues_ok_enqueued(
                pre,
                self.event_queue,
                self.nodes.entries@,
                prefix,
                NetworkEvent::Live(node, true),
            );
        }
    }
}

} // verus!
