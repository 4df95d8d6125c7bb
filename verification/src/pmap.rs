//! An ordered association list keyed by prefixes: the map the network
//! keeps its sections, event queues and pending merges in. Entries are
//! sorted by the (bits, len) key order, which fixes the iteration order
//! the simulation's determinism depends on.

use vstd::prelude::*;
use crate::prefix::Prefix;
use crate::prefix::key_lt;
use crate::prefix::spec_key_lt;

verus! {

/// A map from prefixes to values, kept as a vector of pairs strictly
/// sorted by key.
pub struct PrefixMap<V> {
    pub entries: Vec<(Prefix, V)>,
}

impl<V> PrefixMap<V> {
    /// Entries are strictly sorted by key, so keys are unique and
    /// iteration order is deterministic.
    pub open spec fn wf(self) -> bool {
        forall|i: int, j: int|
            0 <= i < j < self.entries@.len() ==> spec_key_lt(
                self.entries@[i].0,
                self.entries@[j].0,
            )
    }

    pub open spec fn spec_len(self) -> nat {
        self.entries@.len()
    }

    pub open spec fn spec_contains_key(self, k: Prefix) -> bool {
        exists|i: int| 0 <= i < self.entries@.len() && self.entries@[i].0 == k
    }

    pub open spec fn spec_index_of(self, k: Prefix) -> int {
        choose|i: int| 0 <= i < self.entries@.len() && self.entries@[i].0 == k
    }

    pub open spec fn spec_get(self, k: Prefix) -> V
        recommends
            self.spec_contains_key(k),
    {
        self.entries@[self.spec_index_of(k)].1
    }

    /// In a well-formed map each key occurs at most once.
    pub proof fn lemma_key_unique(self, i: int, j: int)
        requires
            self.wf(),
            0 <= i < self.entries@.len(),
            0 <= j < self.entries@.len(),
            self.entries@[i].0 == self.entries@[j].0,
        ensures
            i == j,
    {
        if i < j {
            assert(spec_key_lt(self.entries@[i].0, self.entries@[j].0));
        } else if j < i {
            assert(spec_key_lt(self.entries@[j].0, self.entries@[i].0));
        }
    }

    /// The entry at `i` is the one `spec_get` speaks of.
    pub proof fn lemma_get_at(self, i: int)
        requires
            self.wf(),
            0 <= i < self.entries@.len(),
        ensures
            self.spec_contains_key(self.entries@[i].0),
            self.spec_index_of(self.entries@[i].0) == i,
            self.spec_get(self.entries@[i].0) == self.entries@[i].1,
    {
        let k = self.entries@[i].0;
        assert(self.spec_contains_key(k));
        self.lemma_key_unique(i, self.spec_index_of(k));
    }

    pub fn new() -> (r: PrefixMap<V>)
        ensures
            r.entries@.len() == 0,
            r.wf(),
    {
        PrefixMap { entries: Vec::new() }
    }

    pub fn len(&self) -> (r: usize)
        ensures
            r == self.entries@.len(),
    {
        self.entries.len()
    }

    /// The position of `k`, if it is a key.
    pub fn index_of(&self, k: &Prefix) -> (r: Option<usize>)
        requires
            self.wf(),
        ensures
            match r {
                Some(i) => i < self.entries@.len() && self.entries@[i as int].0 == *k
                    && self.spec_contains_key(*k) && self.spec_index_of(*k) == i,
                None => !self.spec_contains_key(*k),
            },
    {
        let n = self.entries.len();
        let mut i: usize = 0;
        while i < n
            invariant
                0 <= i <= n,
                n == self.entries@.len(),
                self.wf(),
                forall|j: int| 0 <= j < i ==> self.entries@[j].0 != *k,
            decreases n - i,
        {
            if self.entries[i].0.bits == k.bits && self.entries[i].0.len == k.len {
                proof {
                    self.lemma_get_at(i as int);
                }
                return Some(i);
            }
            i = i + 1;
        }
        None
    }

    pub fn contains_key(&self, k: &Prefix) -> (r: bool)
        requires
            self.wf(),
        ensures
            r == self.spec_contains_key(*k),
    {
        self.index_of(k).is_some()
    }

    pub fn get(&self, k: &Prefix) -> (r: Option<&V>)
        requires
            self.wf(),
        ensures
            match r {
                Some(v) => self.spec_contains_key(*k) && *v == self.spec_get(*k),
                None => !self.spec_contains_key(*k),
            },
    {
        match self.index_of(k) {
            Some(i) => Some(&self.entries[i].1),
            None => None,
        }
    }

    /// The first position whose key is not below `k`.
    fn lower_bound(&self, k: &Prefix) -> (i: usize)
        requires
            self.wf(),
        ensures
            i <= self.entries@.len(),
            forall|j: int| 0 <= j < i ==> spec_key_lt(self.entries@[j].0, *k),
            i < self.entries@.len() ==> !spec_key_lt(self.entries@[i as int].0, *k),
    {
        let n = self.entries.len();
        let mut i: usize = 0;
        while i < n
            invariant
                0 <= i <= n,
                n == self.entries@.len(),
                self.wf(),
                forall|j: int| 0 <= j < i ==> spec_key_lt(self.entries@[j].0, *k),
            decreases n - i,
        {
            if !key_lt(&self.entries[i].0, k) {
                return i;
            }
            i = i + 1;
        }
        i
    }

    /// Insert `v` at `k`, replacing any previous value; the position is
    /// returned.
    pub fn insert(&mut self, k: Prefix, v: V) -> (pos: usize)
        requires
            old(self).wf(),
        ensures
            final(self).wf(),
            pos <= old(self).entries@.len(),
            pos < final(self).entries@.len(),
            old(self).spec_contains_key(k) ==> pos < old(self).entries@.len() && old(
                self,
            ).entries@[pos as int].0 == k,
            final(self).entries@[pos as int] == (k, v),
            old(self).spec_contains_key(k) ==> final(self).entries@ == old(self).entries@.update(
                pos as int,
                (k, v),
            ),
            !old(self).spec_contains_key(k) ==> final(self).entries@ == old(self).entries@.insert(
                pos as int,
                (k, v),
            ),
            final(self).spec_contains_key(k),
            final(self).spec_get(k) == v,
            forall|x: Prefix|
                x != k ==> final(self).spec_contains_key(x) == old(self).spec_contains_key(x),
            forall|x: Prefix|
                x != k && old(self).spec_contains_key(x) ==> final(self).spec_get(x) == old(
                    self,
                ).spec_get(x),
    {
        let ghost old_seq = self.entries@;
        let n = self.entries.len();
        let i = self.lower_bound(&k);
        if i < n && self.entries[i].0.bits == k.bits && self.entries[i].0.len == k.len {
            proof {
                assert(old_seq[i as int].0 == k);
                self.lemma_get_at(i as int);
            }
            self.entries[i] = (k, v);
            proof {
                let m = *self;
                assert(forall|j: int|
                    0 <= j < old_seq.len() && j != i ==> m.entries@[j] == old_seq[j]);
                m.lemma_get_at(i as int);
                assert forall|x: Prefix| x != k implies m.spec_contains_key(x) == old(
                    self,
                ).spec_contains_key(x) by {
                    if m.spec_contains_key(x) {
                        let j = choose|j: int|
                            0 <= j < m.entries@.len() && m.entries@[j].0 == x;
                        assert(j != i);
                        assert(old_seq[j].0 == x);
                    }
                    if old(self).spec_contains_key(x) {
                        let j = choose|j: int| 0 <= j < old_seq.len() && old_seq[j].0 == x;
                        assert(j != i);
                        assert(m.entries@[j].0 == x);
                    }
                }
                assert forall|x: Prefix|
                    x != k && old(self).spec_contains_key(x) implies m.spec_get(x) == old(
                    self,
                ).spec_get(x) by {
                    let j = old(self).spec_index_of(x);
                    assert(old_seq[j].0 == x);
                    assert(j != i);
                    assert(m.entries@[j] == old_seq[j]);
                    m.lemma_get_at(j);
                }
            }
            return i;
        }
        proof {
            assert forall|j: int| 0 <= j < old_seq.len() implies old_seq[j].0 != k by {
                if j < i as int {
                    assert(spec_key_lt(old_seq[j].0, k));
                } else if j == i as int {
                } else {
                    assert(spec_key_lt(old_seq[i as int].0, old_seq[j].0));
                    assert(!spec_key_lt(old_seq[i as int].0, k));
                }
            }
        }
        self.entries.insert(i, (k, v));
        proof {
            let m = *self;
            assert(forall|j: int| 0 <= j < i ==> m.entries@[j] == old_seq[j]);
            assert(forall|j: int|
                i < j < m.entries@.len() ==> m.entries@[j] == old_seq[j - 1]);
            assert forall|a: int, b: int|
                0 <= a < b < m.entries@.len() implies spec_key_lt(
                m.entries@[a].0,
                m.entries@[b].0,
            ) by {
                if b == i as int {
                    assert(spec_key_lt(m.entries@[a].0, k));
                } else if a == i as int {
                    assert(m.entries@[b] == old_seq[b - 1]);
                    assert(!spec_key_lt(old_seq[i as int].0, k));
                    assert(old_seq[i as int].0 != k);
                    if b - 1 > i as int {
                        assert(spec_key_lt(old_seq[i as int].0, old_seq[b - 1].0));
                    }
                } else if a < i as int && b > i as int {
                    assert(spec_key_lt(old_seq[a].0, old_seq[b - 1].0));
                }
            }
            m.lemma_get_at(i as int);
            assert forall|x: Prefix| x != k implies m.spec_contains_key(x) == old(
                self,
            ).spec_contains_key(x) by {
                if m.spec_contains_key(x) {
                    let j = choose|j: int| 0 <= j < m.entries@.len() && m.entries@[j].0 == x;
                    if j < i as int {
                        assert(old_seq[j].0 == x);
                    } else {
                        assert(j != i as int);
                        assert(old_seq[j - 1].0 == x);
                    }
                }
                if old(self).spec_contains_key(x) {
                    let j = choose|j: int| 0 <= j < old_seq.len() && old_seq[j].0 == x;
                    if j < i as int {
                        assert(m.entries@[j].0 == x);
                    } else {
                        assert(m.entries@[j + 1].0 == x);
                    }
                }
            }
            assert forall|x: Prefix|
                x != k && old(self).spec_contains_key(x) implies m.spec_get(x) == old(
                self,
            ).spec_get(x) by {
                let j = old(self).spec_index_of(x);
                assert(old_seq[j].0 == x);
                if j < i as int {
                    assert(m.entries@[j].0 == x);
                    m.lemma_get_at(j);
                } else {
                    assert(m.entries@[j + 1].0 == x);
                    m.lemma_get_at(j + 1);
                }
            }
        }
        i
    }

    /// Swap the value at position `i` for `v`, returning the old value;
    /// the key stays.
    pub fn replace_at(&mut self, i: usize, v: V) -> (r: V)
        requires
            old(self).wf(),
            i < old(self).entries@.len(),
        ensures
            final(self).wf(),
            r == old(self).entries@[i as int].1,
            final(self).entries@ == old(self).entries@.update(
                i as int,
                (old(self).entries@[i as int].0, v),
            ),
            final(self).spec_contains_key(old(self).entries@[i as int].0),
            final(self).spec_get(old(self).entries@[i as int].0) == v,
            forall|x: Prefix|
                final(self).spec_contains_key(x) == old(self).spec_contains_key(x),
            forall|x: Prefix|
                x != old(self).entries@[i as int].0 && old(self).spec_contains_key(x)
                    ==> final(self).spec_get(x) == old(self).spec_get(x),
    {
        let ghost old_seq = self.entries@;
        let (k, oldv) = self.entries.remove(i);
        self.entries.insert(i, (k, v));
        proof {
            let m = *self;
            assert(m.entries@ =~= old_seq.update(i as int, (k, v)));
            assert(forall|j: int|
                0 <= j < old_seq.len() ==> (#[trigger] m.entries@[j]).0 == old_seq[j].0);
            m.lemma_get_at(i as int);
            assert forall|x: Prefix| m.spec_contains_key(x) == old(self).spec_contains_key(
                x,
            ) by {
                if m.spec_contains_key(x) {
                    let j = choose|j: int| 0 <= j < m.entries@.len() && m.entries@[j].0 == x;
                    assert(old_seq[j].0 == x);
                }
                if old(self).spec_contains_key(x) {
                    let j = choose|j: int| 0 <= j < old_seq.len() && old_seq[j].0 == x;
                    assert(m.entries@[j].0 == x);
                }
            }
            assert forall|x: Prefix|
                x != k && old(self).spec_contains_key(x) implies m.spec_get(x) == old(
                self,
            ).spec_get(x) by {
                let j = old(self).spec_index_of(x);
                assert(old_seq[j].0 == x);
                assert(j != i as int);
                m.lemma_get_at(j);
            }
        }
        oldv
    }

    /// Remove the entry at `k`, if any, and return its value.
    pub fn remove(&mut self, k: &Prefix) -> (r: Option<V>)
        requires
            old(self).wf(),
        ensures
            final(self).wf(),
            !final(self).spec_contains_key(*k),
            old(self).spec_contains_key(*k) ==> r is Some && r->0 == old(self).spec_get(*k)
                && final(self).entries@ == old(self).entries@.remove(old(self).spec_index_of(*k)),
            !old(self).spec_contains_key(*k) ==> r is None && final(self).entries@ == old(
                self,
            ).entries@,
            forall|x: Prefix|
                x != *k ==> final(self).spec_contains_key(x) == old(self).spec_contains_key(x),
            forall|x: Prefix|
                x != *k && old(self).spec_contains_key(x) ==> final(self).spec_get(x) == old(
                    self,
                ).spec_get(x),
    {
        let idx = self.index_of(k);
        match idx {
            None => None,
            Some(i) => {
                let ghost old_seq = self.entries@;
                let (_, v) = self.entries.remove(i);
                proof {
                    let m = *self;
                    assert(forall|j: int| 0 <= j < i ==> m.entries@[j] == old_seq[j]);
                    assert(forall|j: int|
                        i <= j < m.entries@.len() ==> m.entries@[j] == old_seq[j + 1]);
                    assert forall|x: Prefix| m.spec_contains_key(x) implies x != *k && old(
                        self,
                    ).spec_contains_key(x) by {
                        let j = choose|j: int|
                            0 <= j < m.entries@.len() && m.entries@[j].0 == x;
                        if j < i as int {
                            assert(old_seq[j].0 == x);
                            if x == *k {
                                old(self).lemma_key_unique(j, i as int);
                            }
                        } else {
                            assert(old_seq[j + 1].0 == x);
                            if x == *k {
                                old(self).lemma_key_unique(j + 1, i as int);
                            }
                        }
                    }
                    assert forall|x: Prefix|
                        x != *k && old(self).spec_contains_key(x) implies m.spec_contains_key(
                        x,
                    ) && m.spec_get(x) == old(self).spec_get(x) by {
                        let j = old(self).spec_index_of(x);
                        assert(old_seq[j].0 == x);
                        assert(j != i as int);
                        if j < i as int {
                            assert(m.entries@[j].0 == x);
                            m.lemma_get_at(j);
                        } else {
                            assert(m.entries@[j - 1].0 == x);
                            m.lemma_get_at(j - 1);
                        }
                    }
                }
                Some(v)
            },
        }
    }
}

} // verus!
