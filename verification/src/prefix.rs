//! Binary prefixes over 64-bit names, with the bitwise algebra the
//! section trie is built on: extend, shorten, bit flips, match,
//! ancestor/sibling/neighbour tests and bit substitution.

use vstd::prelude::*;
use vstd::std_specs::bits::u64_leading_zeros;

verus! {

/// A 64-bit name, read as a bitstring with the most significant bit first.
#[derive(Clone, Copy, Debug, PartialEq, Eq, Structural)]
pub struct Name(pub u64);

/// A binary prefix: the top `len` bits of `bits` are significant.
///
/// `bits` stands before `len` so that the derived field order matches the
/// lexicographic key order the trie is kept in: `bits` first, then `len`.
#[derive(Clone, Copy, Debug, PartialEq, Eq, Structural)]
pub struct Prefix {
    pub bits: u64,
    pub len: u8,
}

/// The mask whose top `len` bits are one.
pub open spec fn mask_of(len: u64) -> u64
    recommends
        len <= 64,
{
    if len == 0 {
        0u64
    } else {
        0xffff_ffff_ffff_ffffu64 << ((64 - len) as u64)
    }
}

/// Whether bit `i` (counting from the most significant, 0-based) is set.
pub open spec fn spec_bit_is_set(bits: u64, i: u64) -> bool
    recommends
        i < 64,
{
    bits & (1u64 << ((63 - i) as u64)) != 0
}

/// The strict lexicographic order on (bits, len) the trie is sorted by.
pub open spec fn spec_key_lt(a: Prefix, b: Prefix) -> bool {
    a.bits < b.bits || (a.bits == b.bits && a.len < b.len)
}

/// Exec counterpart of [`mask_of`].
pub fn mask_for(len: u8) -> (r: u64)
    requires
        len <= 64,
    ensures
        r == mask_of(len as u64),
{
    if len == 0 {
        0u64
    } else {
        0xffff_ffff_ffff_ffffu64 << ((64 - len) as u64)
    }
}

/// Exec counterpart of [`spec_key_lt`].
pub fn key_lt(a: &Prefix, b: &Prefix) -> (r: bool)
    ensures
        r == spec_key_lt(*a, *b),
{
    a.bits < b.bits || (a.bits == b.bits && a.len < b.len)
}

impl Prefix {
    /// A prefix is well formed when its length is at most 64 and the
    /// insignificant low bits of `bits` are all zero.
    pub open spec fn wf(self) -> bool {
        self.len <= 64 && self.bits & mask_of(self.len as u64) == self.bits
    }

    pub open spec fn spec_empty() -> Prefix {
        Prefix { bits: 0, len: 0 }
    }

    pub open spec fn spec_extend(self, bit: u8) -> Prefix {
        if self.len > 63 {
            self
        } else {
            Prefix {
                bits: self.bits | (((bit & 1) as u64) << ((63 - self.len) as u64)),
                len: (self.len + 1) as u8,
            }
        }
    }

    pub open spec fn spec_shorten(self) -> Prefix {
        if self.len == 0 {
            self
        } else {
            Prefix {
                bits: self.bits & mask_of(((self.len - 1) as u64)),
                len: (self.len - 1) as u8,
            }
        }
    }

    pub open spec fn spec_with_flipped_bit(self, bit: u8) -> Prefix
        recommends
            bit < 64,
    {
        Prefix { bits: self.bits ^ (1u64 << ((63 - bit) as u64)), len: self.len }
    }

    pub open spec fn spec_matches(self, name: u64) -> bool
        recommends
            self.len <= 64,
    {
        name & mask_of(self.len as u64) == self.bits
    }

    pub open spec fn spec_is_ancestor(self, other: Prefix) -> bool {
        self.len <= other.len && self.spec_matches(other.bits)
    }

    pub open spec fn spec_is_sibling(self, other: Prefix) -> bool {
        self.len > 0 && self.spec_with_flipped_bit((self.len - 1) as u8) == other
    }

    pub open spec fn spec_is_compatible_with(self, other: Prefix) -> bool {
        self.spec_is_ancestor(other) || other.spec_is_ancestor(self)
    }

    /// Two prefixes are neighbours when they differ in exactly one
    /// significant bit position within the shorter length.
    pub open spec fn spec_is_neighbour(self, other: Prefix) -> bool {
        let b = u64_leading_zeros(self.bits ^ other.bits);
        if b < self.len && b < other.len {
            let b2 = u64_leading_zeros(self.spec_with_flipped_bit(b as u8).bits ^ other.bits);
            b2 >= self.len || b2 >= other.len
        } else {
            false
        }
    }

    pub open spec fn spec_substituted_in(self, name: u64) -> u64
        recommends
            self.len <= 64,
    {
        (name & !mask_of(self.len as u64)) | self.bits
    }

    /// Build a prefix from a name, with `len` set to 255: a sentinel that
    /// sorts after every real prefix with the same `bits`, used only as a
    /// key-order bound, never as a live prefix.
    pub fn from_name(name: &Name) -> (r: Prefix)
        ensures
            r == (Prefix { bits: name.0, len: 255u8 }),
    {
        Prefix { bits: name.0, len: 255 }
    }

    /// The empty prefix, which every name matches.
    pub fn empty() -> (r: Prefix)
        ensures
            r == Prefix::spec_empty(),
            r.wf(),
    {
        proof {
            lemma_empty_wf();
        }
        Prefix { bits: 0, len: 0 }
    }

    /// Append one bit; at length 64 (or past it) the prefix is unchanged.
    pub fn extend(self, bit: u8) -> (r: Prefix)
        ensures
            r == self.spec_extend(bit),
            self.wf() ==> r.wf(),
    {
        proof {
            if self.wf() {
                lemma_extend_wf(self, bit);
            }
        }
        if self.len > 63 {
            return self;
        }
        let b: u64 = ((bit & 1) as u64) << ((63 - self.len) as u64);
        Prefix { bits: self.bits | b, len: self.len + 1 }
    }

    /// The number of significant bits.
    pub fn len(&self) -> (r: u8)
        ensures
            r == self.len,
    {
        self.len
    }

    /// The mask whose top `len` bits are one.
    pub fn len_mask(&self) -> (r: u64)
        requires
            self.len <= 64,
        ensures
            r == mask_of(self.len as u64),
    {
        mask_for(self.len)
    }

    /// Drop the last significant bit; the empty prefix is unchanged.
    pub fn shorten(self) -> (r: Prefix)
        requires
            self.len <= 64,
        ensures
            r == self.spec_shorten(),
            self.wf() ==> r.wf(),
    {
        proof {
            if self.wf() {
                lemma_shorten_wf(self);
            }
        }
        if self.len < 1 {
            return self;
        }
        Prefix { bits: self.bits & mask_for(self.len - 1), len: self.len - 1 }
    }

    /// Flip bit `bit` (counted from the most significant); `len` unchanged.
    pub fn with_flipped_bit(self, bit: u8) -> (r: Prefix)
        requires
            bit < 64,
        ensures
            r == self.spec_with_flipped_bit(bit),
            self.wf() && bit < self.len ==> r.wf(),
    {
        proof {
            if self.wf() && bit < self.len {
                lemma_flip_wf(self, bit);
            }
        }
        let mask: u64 = 1u64 << ((63 - bit) as u64);
        Prefix { bits: self.bits ^ mask, len: self.len }
    }

    /// Decide well-formedness at run time.
    pub fn is_wf(&self) -> (r: bool)
        ensures
            r == self.wf(),
    {
        self.len <= 64 && (self.bits & mask_for(self.len)) == self.bits
    }

    /// Whether the top `len` bits of `name` equal this prefix.
    pub fn matches(&self, name: Name) -> (r: bool)
        requires
            self.len <= 64,
        ensures
            r == self.spec_matches(name.0),
    {
        (name.0 & self.len_mask()) == self.bits
    }

    /// Whether every name this prefix matches is matched by `self` too:
    /// `self` is no longer than `other` and matches `other`'s bits.
    pub fn is_ancestor(&self, other: &Prefix) -> (r: bool)
        requires
            self.len <= 64,
        ensures
            r == self.spec_is_ancestor(*other),
    {
        self.len <= other.len && self.matches(Name(other.bits))
    }

    pub fn is_child(&self, other: &Prefix) -> (r: bool)
        requires
            other.len <= 64,
        ensures
            r == other.spec_is_ancestor(*self),
    {
        other.is_ancestor(self)
    }

    /// Whether one of the two prefixes is an ancestor of the other.
    pub fn is_compatible_with(&self, other: &Prefix) -> (r: bool)
        requires
            self.len <= 64,
            other.len <= 64,
        ensures
            r == self.spec_is_compatible_with(*other),
    {
        self.is_ancestor(other) || self.is_child(other)
    }

    /// Whether `other` is `self` with its last significant bit flipped.
    pub fn is_sibling(&self, other: &Prefix) -> (r: bool)
        requires
            self.len <= 64,
        ensures
            r == self.spec_is_sibling(*other),
    {
        if self.len > 0 {
            let flipped = self.with_flipped_bit(self.len - 1);
            flipped.bits == other.bits && flipped.len == other.len
        } else {
            false
        }
    }

    /// Whether the two prefixes differ in exactly one significant bit
    /// position within the shorter length.
    pub fn is_neighbour(&self, other: &Prefix) -> (r: bool)
        requires
            self.len <= 64,
            other.len <= 64,
        ensures
            r == self.spec_is_neighbour(*other),
    {
        let diff = self.bits ^ other.bits;
        let bit = diff.leading_zeros();
        if bit < self.len as u32 && bit < other.len as u32 {
            let diff2 = self.with_flipped_bit(bit as u8).bits ^ other.bits;
            let bit2 = diff2.leading_zeros();
            bit2 >= self.len as u32 || bit2 >= other.len as u32
        } else {
            false
        }
    }

    /// Replace the top `len` bits of `name` with this prefix's bits.
    pub fn substituted_in(&self, name: Name) -> (r: Name)
        requires
            self.len <= 64,
        ensures
            r.0 == self.spec_substituted_in(name.0),
    {
        let mask = self.len_mask();
        Name((name.0 & !mask) | self.bits)
    }

    /// Parse a string of '0' and '1' characters; any other character
    /// yields `None`.
    pub fn from_str(s: &str) -> (r: Option<Prefix>)
        ensures
            r == spec_from_str(s@),
            r is Some ==> r->0.wf() && r->0.len <= s@.len(),
    {
        let ghost sq: Seq<char> = s@;
        let n: usize = s.unicode_len();
        let mut prefix = Self::empty();
        let mut i: usize = 0;
        while i < n
            invariant
                0 <= i <= n,
                n == sq.len(),
                sq == s@,
                prefix.wf(),
                prefix.len <= i,
                spec_from_str(sq) == spec_from_str_from(sq, i as int, prefix),
            decreases n - i,
        {
            let c = s.get_char(i);
            if c == '0' {
                prefix = prefix.extend(0);
            } else if c == '1' {
                prefix = prefix.extend(1);
            } else {
                return None;
            }
            i = i + 1;
        }
        Some(prefix)
    }

    /// Render the significant bits as a string of '0' and '1' characters.
    pub fn to_string(&self) -> (r: String)
        requires
            self.len <= 64,
        ensures
            r@.len() == self.len,
            forall|i: int|
                0 <= i < self.len ==> r@[i] == (if spec_bit_is_set(self.bits, i as u64) {
                    '1'
                } else {
                    '0'
                }),
    {
        let mut result = String::new();
        let mut i: u8 = 0;
        proof {
            reveal_strlit("0");
            reveal_strlit("1");
        }
        while i < self.len
            invariant
                0 <= i <= self.len <= 64,
                result@.len() == i,
                forall|j: int|
                    0 <= j < i ==> result@[j] == (if spec_bit_is_set(self.bits, j as u64) {
                        '1'
                    } else {
                        '0'
                    }),
                "0"@ =~= seq!['0'],
                "1"@ =~= seq!['1'],
            decreases self.len - i,
        {
            let mask: u64 = 1u64 << ((63 - i) as u64);
            if self.bits & mask == 0 {
                result.append("0");
            } else {
                result.append("1");
            }
            i = i + 1;
        }
        result
    }
}

/// Parse `s` from position `i` on, extending `acc` one bit per character.
pub open spec fn spec_from_str_from(s: Seq<char>, i: int, acc: Prefix) -> Option<Prefix>
    decreases s.len() - i,
{
    if i >= s.len() {
        Some(acc)
    } else if s[i] == '0' {
        spec_from_str_from(s, i + 1, acc.spec_extend(0))
    } else if s[i] == '1' {
        spec_from_str_from(s, i + 1, acc.spec_extend(1))
    } else {
        None
    }
}

pub open spec fn spec_from_str(s: Seq<char>) -> Option<Prefix> {
    spec_from_str_from(s, 0, Prefix::spec_empty())
}

proof fn lemma_empty_wf()
    by (bit_vector)
    ensures
        0u64 & mask_of(0u64) == 0u64,
{
}

/// Law: extending a prefix by one bit and shortening again gives the
/// prefix back, for any prefix shorter than 64 bits.
pub proof fn lemma_extend_shorten(p: Prefix, bit: u8)
    requires
        p.wf(),
        p.len < 64,
    ensures
        p.spec_extend(bit).spec_shorten() == p,
{
    let bits = p.bits;
    let len = p.len;
    let eb = p.spec_extend(bit).bits;
    assert((bits | (((bit & 1) as u64) << ((63 - len) as u64))) & mask_of(len as u64)
        == bits) by (bit_vector)
        requires
            len < 64,
            bits & mask_of(len as u64) == bits,
    ;
}

/// Law: every well-formed prefix is an ancestor of itself.
pub proof fn lemma_ancestor_reflexive(p: Prefix)
    requires
        p.wf(),
    ensures
        p.spec_is_ancestor(p),
{
}

/// Law: two well-formed prefixes that are ancestors of each other are equal.
pub proof fn lemma_ancestor_antisymmetric(p: Prefix, q: Prefix)
    requires
        p.wf(),
        q.wf(),
        p.spec_is_ancestor(q),
        q.spec_is_ancestor(p),
    ensures
        p == q,
{
}

/// Law: the ancestor relation is transitive.
pub proof fn lemma_ancestor_transitive(a: Prefix, b: Prefix, c: Prefix)
    requires
        a.wf(),
        b.wf(),
        c.wf(),
        a.spec_is_ancestor(b),
        b.spec_is_ancestor(c),
    ensures
        a.spec_is_ancestor(c),
{
    lemma_mask_containment(c.bits, a.len as u64, b.len as u64);
}

/// For `l1 <= l2`, masking by the shorter mask after the longer one is the
/// same as masking by the shorter one alone.
pub proof fn lemma_mask_containment(x: u64, l1: u64, l2: u64)
    requires
        l1 <= l2 <= 64,
    ensures
        (x & mask_of(l2)) & mask_of(l1) == x & mask_of(l1),
{
    assert((x & mask_of(l2)) & mask_of(l1) == x & mask_of(l1)) by (bit_vector)
        requires
            l1 <= l2 <= 64,
    ;
}

/// Law: `p` is a sibling of `q` exactly when `q` is a sibling of `p`, the
/// two shorten to the same parent, they have one equal, positive length,
/// and they are distinct.
pub proof fn lemma_sibling_characterisation(p: Prefix, q: Prefix)
    requires
        p.len <= 64,
        q.len <= 64,
    ensures
        p.spec_is_sibling(q) <==> (q.spec_is_sibling(p) && p.spec_shorten() == q.spec_shorten()
            && p.len == q.len && p.len > 0 && p != q),
{
    let pb = p.bits;
    let qb = q.bits;
    if p.spec_is_sibling(q) {
        let l = p.len;
        assert(((pb ^ (1u64 << ((63 - (l - 1)) as u64))) ^ (1u64 << ((63 - (l - 1)) as u64)) == pb
            && (pb ^ (1u64 << ((63 - (l - 1)) as u64))) != pb && pb & mask_of(((l - 1) as u64)) == (
        pb ^ (1u64 << ((63 - (l - 1)) as u64))) & mask_of(((l - 1) as u64)))) by (bit_vector)
            requires
                0 < l <= 64,
        ;
    }
    if q.spec_is_sibling(p) && p.len == q.len && p.len > 0 {
        let l = q.len;
        assert((qb ^ (1u64 << ((63 - (l - 1)) as u64))) ^ (1u64 << ((63 - (l - 1)) as u64))
            == qb) by (bit_vector)
            requires
                0 < l <= 64,
        ;
    }
}

/// Law: substituting a prefix into any name yields a name the prefix
/// matches.
pub proof fn lemma_substituted_matches(p: Prefix, name: u64)
    requires
        p.wf(),
    ensures
        p.spec_matches(p.spec_substituted_in(name)),
{
    let bits = p.bits;
    let len = p.len;
    assert(((name & !mask_of(len as u64)) | bits) & mask_of(len as u64) == bits) by (bit_vector)
        requires
            len <= 64,
            bits & mask_of(len as u64) == bits,
    ;
}

/// Law: the empty prefix matches every name.
pub proof fn lemma_empty_matches(name: u64)
    ensures
        Prefix::spec_empty().spec_matches(name),
{
    assert(name & mask_of(0u64) == 0u64) by (bit_vector);
}

/// A prefix shorter than 64 bits matches exactly the names matched by its
/// two one-bit extensions, and no name is matched by both extensions.
pub proof fn lemma_extend_partition(p: Prefix, name: u64)
    requires
        p.wf(),
        p.len < 64,
    ensures
        p.spec_matches(name) <==> (p.spec_extend(0).spec_matches(name) || p.spec_extend(
            1,
        ).spec_matches(name)),
        !(p.spec_extend(0).spec_matches(name) && p.spec_extend(1).spec_matches(name)),
        p.spec_extend(0) != p.spec_extend(1),
{
    let bits = p.bits;
    let len = p.len;
    assert(((0u64 & 1) as u64) << ((63 - len) as u64) == 0u64 && bits | 0u64 == bits && ((1u64
        & 1) as u64) << ((63 - len) as u64) == 1u64 << ((63 - len) as u64)) by (bit_vector)
        requires
            len < 64,
    ;
    assert((name & mask_of(len as u64) == bits <==> (name & mask_of(((len + 1) as u64)) == bits
        || name & mask_of(((len + 1) as u64)) == (bits | (1u64 << ((63 - len) as u64))))) && !(
    name & mask_of(((len + 1) as u64)) == bits && name & mask_of(((len + 1) as u64)) == (bits | (
    1u64 << ((63 - len) as u64)))) && bits != (bits | (1u64 << ((63 - len) as u64))))
        by (bit_vector)
        requires
            len < 64,
            bits & mask_of(len as u64) == bits,
    ;
}

/// A well-formed prefix is an ancestor of each of its one-bit extensions.
pub proof fn lemma_extend_ancestor(p: Prefix, bit: u8)
    requires
        p.wf(),
    ensures
        p.spec_is_ancestor(p.spec_extend(bit)),
{
    let bits = p.bits;
    let len = p.len;
    if len <= 63 {
        assert((bits | (((bit & 1) as u64) << ((63 - len) as u64))) & mask_of(len as u64)
            == bits) by (bit_vector)
            requires
                len < 64,
                bits & mask_of(len as u64) == bits,
        ;
    }
}

/// Two well-formed prefixes that match a common name are comparable: the
/// shorter is an ancestor of the longer.
pub proof fn lemma_matching_comparable(p: Prefix, q: Prefix, name: u64)
    requires
        p.wf(),
        q.wf(),
        p.len <= q.len,
        p.spec_matches(name),
        q.spec_matches(name),
    ensures
        p.spec_is_ancestor(q),
{
    lemma_mask_containment(name, p.len as u64, q.len as u64);
}

/// An ancestor matches every name its descendant matches.
pub proof fn lemma_ancestor_matches(p: Prefix, q: Prefix, name: u64)
    requires
        p.wf(),
        q.wf(),
        p.spec_is_ancestor(q),
        q.spec_matches(name),
    ensures
        p.spec_matches(name),
{
    lemma_mask_containment(name, p.len as u64, q.len as u64);
}

pub proof fn lemma_extend_wf(p: Prefix, bit: u8)
    requires
        p.wf(),
    ensures
        p.spec_extend(bit).wf(),
{
    let bits = p.bits;
    let len = p.len;
    if len <= 63 {
        assert((bits | (((bit & 1) as u64) << ((63 - len) as u64))) & mask_of(
            ((len + 1) as u64),
        ) == (bits | (((bit & 1) as u64) << ((63 - len) as u64)))) by (bit_vector)
            requires
                len <= 63,
                bits & mask_of(len as u64) == bits,
        ;
    }
}

pub proof fn lemma_shorten_wf(p: Prefix)
    requires
        p.wf(),
    ensures
        p.spec_shorten().wf(),
{
    let bits = p.bits;
    let len = p.len;
    if len >= 1 {
        assert((bits & mask_of(((len - 1) as u64))) & mask_of(((len - 1) as u64)) == (bits
            & mask_of(((len - 1) as u64)))) by (bit_vector)
            requires
                1 <= len <= 64,
        ;
    }
}

proof fn lemma_flip_wf(p: Prefix, bit: u8)
    requires
        p.wf(),
        bit < p.len,
    ensures
        p.spec_with_flipped_bit(bit).wf(),
{
    let bits = p.bits;
    let len = p.len;
    assert((bits ^ (1u64 << ((63 - bit) as u64))) & mask_of(len as u64) == (bits ^ (1u64 << ((63 - bit) as u64)))) by (bit_vector)
        requires
            bit < len <= 64,
            bits & mask_of(len as u64) == bits,
    ;
}

} // verus!
