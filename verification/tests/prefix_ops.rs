use ageing_sim::prefix::{Name, Prefix};

fn p(s: &str) -> Prefix {
    Prefix::from_str(s).unwrap()
}

#[test]
fn extend_then_shorten_gives_back_the_prefix() {
    let cases = ["", "0", "1", "101", "0011010"];
    for s in cases.iter() {
        let pf = p(s);
        assert_eq!(pf.extend(0).shorten(), pf);
        assert_eq!(pf.extend(1).shorten(), pf);
    }
}

#[test]
fn extend_at_full_length_is_identity() {
    let mut pf = Prefix::empty();
    for _ in 0..64 {
        pf = pf.extend(1);
    }
    assert_eq!(pf.len(), 64);
    assert_eq!(pf.extend(0), pf);
    assert_eq!(pf.extend(1), pf);
    assert_eq!(Prefix::empty().shorten(), Prefix::empty());
}

#[test]
fn ancestor_is_reflexive_and_antisymmetric() {
    let a = p("01");
    let b = p("0110");
    assert!(a.is_ancestor(&a));
    assert!(b.is_ancestor(&b));
    assert!(a.is_ancestor(&b));
    assert!(!b.is_ancestor(&a));
    // mutual ancestors are equal
    let c = p("01");
    assert!(a.is_ancestor(&c) && c.is_ancestor(&a));
    assert_eq!(a, c);
}

#[test]
fn sibling_characterisation() {
    let a = p("10");
    let b = p("11");
    assert!(a.is_sibling(&b));
    assert!(b.is_sibling(&a));
    assert_eq!(a.shorten(), b.shorten());
    assert_eq!(a.len(), b.len());
    assert_ne!(a, b);
    // not siblings: different lengths, or the same prefix
    assert!(!a.is_sibling(&a));
    assert!(!p("1").is_sibling(&a));
    assert!(!Prefix::empty().is_sibling(&Prefix::empty()));
}

#[test]
fn substituted_name_matches_the_prefix() {
    let cases = ["", "1", "01", "110101"];
    let names = [0u64, u64::MAX, 0x0123_4567_89ab_cdef];
    for s in cases.iter() {
        let pf = p(s);
        for n in names.iter() {
            assert!(pf.matches(pf.substituted_in(Name(*n))));
        }
    }
}

#[test]
fn empty_prefix_matches_every_name() {
    for n in [0u64, 1, u64::MAX, 0x8000_0000_0000_0000].iter() {
        assert!(Prefix::empty().matches(Name(*n)));
    }
}

#[test]
fn matches_checks_the_top_bits() {
    let pf = p("1");
    assert!(pf.matches(Name(0x8000_0000_0000_0000)));
    assert!(pf.matches(Name(u64::MAX)));
    assert!(!pf.matches(Name(0x7fff_ffff_ffff_ffff)));
    let pf2 = p("00");
    assert!(pf2.matches(Name(0x3fff_ffff_ffff_ffff)));
    assert!(!pf2.matches(Name(0x4000_0000_0000_0000)));
}

#[test]
fn len_mask_sets_the_top_bits() {
    assert_eq!(Prefix::empty().len_mask(), 0);
    assert_eq!(p("1111").len_mask(), 0xf000_0000_0000_0000);
    assert_eq!(p("0").len_mask(), 0x8000_0000_0000_0000);
}

#[test]
fn from_name_is_a_sentinel() {
    let f = Prefix::from_name(&Name(42));
    assert_eq!(f.len(), 255);
}

#[test]
fn with_flipped_bit_flips_one_bit() {
    let a = p("10");
    assert_eq!(a.with_flipped_bit(1), p("11"));
    assert_eq!(a.with_flipped_bit(0), p("00"));
    assert_eq!(a.with_flipped_bit(1).with_flipped_bit(1), a);
}

#[test]
fn neighbours_differ_in_one_significant_bit() {
    assert!(p("0").is_neighbour(&p("1")));
    assert!(p("01").is_neighbour(&p("00")));
    assert!(p("01").is_neighbour(&p("1")));
    // the empty prefix is a neighbour of nothing
    assert!(!Prefix::empty().is_neighbour(&p("1")));
    assert!(!p("1").is_neighbour(&Prefix::empty()));
    // two bits apart is not a neighbour
    assert!(!p("00").is_neighbour(&p("11")));
    // a prefix is not its own neighbour
    assert!(!p("01").is_neighbour(&p("01")));
}

#[test]
fn compatibility_means_one_contains_the_other() {
    assert!(p("0").is_compatible_with(&p("01")));
    assert!(p("01").is_compatible_with(&p("0")));
    assert!(!p("01").is_compatible_with(&p("1")));
    assert!(p("1").is_child(&Prefix::empty()));
}

#[test]
fn string_round_trip() {
    for s in ["", "0", "1", "0110", "11111", "000000001"].iter() {
        assert_eq!(Prefix::from_str(s).unwrap().to_string(), *s);
    }
    assert_eq!(Prefix::from_str("01x"), None);
    assert_eq!(Prefix::from_str("2"), None);
}
