use ageing_sim::churn::{NetworkEvent, SectionEvent};
use ageing_sim::node::{EXP_SCALE, Node, WEIGHT_SCALE};
use ageing_sim::params::{DropDist, Params};
use ageing_sim::prefix::{Name, Prefix};
use ageing_sim::section::Section;

fn sparams() -> Params {
    Params {
        init_age: 4,
        drop_dist: DropDist::RevProp,
        distant_relocation_ppm: 0,
        max_section_size: 1000,
        min_section_size: 0,
        relocation_interval: 0,
    }
}

#[test]
fn node_accessors_and_adulthood() {
    let n = Node::new(7, 5);
    assert_eq!(n.name(), Name(7));
    assert_eq!(n.age(), 5);
    assert!(n.is_adult());
    assert!(!Node::new(7, 4).is_adult());
}

#[test]
fn drop_probability_follows_the_age_law() {
    // 10 / age, in units of 1 / WEIGHT_SCALE
    assert_eq!(Node::new(0, 5).drop_probability(DropDist::RevProp), 2 * WEIGHT_SCALE);
    assert_eq!(Node::new(0, 0).drop_probability(DropDist::RevProp), 10 * WEIGHT_SCALE);
    // 2^(-age), in units of 1 / EXP_SCALE
    assert_eq!(Node::new(0, 3).drop_probability(DropDist::Exponential), EXP_SCALE >> 3);
    assert_eq!(Node::new(0, 40).drop_probability(DropDist::Exponential), EXP_SCALE >> 40);
    assert_eq!(Node::new(0, 100).drop_probability(DropDist::Exponential), 0);
}

#[test]
fn rejoined_age_is_max_of_decrement_and_floor() {
    let mut n = Node::new(1, 6);
    n.rejoined(4);
    assert_eq!(n.age(), 5);
    let mut n2 = Node::new(1, 4);
    n2.rejoined(4);
    assert_eq!(n2.age(), 4);
    let mut n3 = Node::new(1, 2);
    n3.rejoined(4);
    assert_eq!(n3.age(), 4);
}

#[test]
fn relocate_puts_the_node_under_the_half_and_ages_it() {
    let p1 = Prefix::from_str("1").unwrap();
    let mut n = Node::new(0, 4);
    n.relocate(&p1, Some(0), Name(0));
    assert_eq!(n.age(), 5);
    assert!(p1.extend(0).matches(n.name()));
    let mut n2 = Node::new(0, 4);
    n2.relocate(&p1, None, Name(u64::MAX));
    assert_eq!(n2.name(), Name(u64::MAX));
}

#[test]
fn should_count_excludes_structural_events() {
    let nd = Node::new(1, 4);
    assert!(NetworkEvent::Live(nd, true).should_count());
    assert!(!NetworkEvent::Live(nd, false).should_count());
    assert!(NetworkEvent::Lost(Name(1)).should_count());
    assert!(!NetworkEvent::Gone(nd).should_count());
    assert!(NetworkEvent::Relocated(nd).should_count());
    assert!(NetworkEvent::PrefixChange(Prefix::empty()).should_count());
    assert!(!NetworkEvent::StartMerge(Prefix::empty()).should_count());
}

#[test]
fn live_adds_a_member_and_duplicates_are_rejected() {
    let params = sparams();
    let mut sec = Section::new(Prefix::empty());
    let n = Node::new(10, 4);
    let evs = sec.handle_event(NetworkEvent::Live(n, true), &params);
    assert_eq!(evs.len(), 0);
    assert_eq!(sec.len(), 1);
    let evs2 = sec.handle_event(NetworkEvent::Live(Node::new(10, 7), true), &params);
    assert_eq!(evs2, vec![SectionEvent::NodeRejected(Node::new(10, 7))]);
    assert_eq!(sec.len(), 1);
}

#[test]
fn growing_to_the_split_size_requests_a_split() {
    let mut params = sparams();
    params.max_section_size = 3;
    let mut sec = Section::new(Prefix::empty());
    assert_eq!(sec.handle_event(NetworkEvent::Live(Node::new(1, 4), true), &params).len(), 0);
    assert_eq!(sec.handle_event(NetworkEvent::Live(Node::new(2, 4), true), &params).len(), 0);
    let evs = sec.handle_event(NetworkEvent::Live(Node::new(3, 4), true), &params);
    assert_eq!(evs, vec![SectionEvent::RequestSplit]);
}

#[test]
fn losing_a_member_reports_the_drop_and_may_request_a_merge() {
    let mut params = sparams();
    params.min_section_size = 2;
    let p0 = Prefix::from_str("0").unwrap();
    let mut sec = Section::new(p0);
    let a = Node::new(1, 4);
    let b = Node::new(2, 4);
    sec.handle_event(NetworkEvent::Live(a, true), &params);
    sec.handle_event(NetworkEvent::Live(b, true), &params);
    let evs = sec.handle_event(NetworkEvent::Lost(Name(1)), &params);
    assert_eq!(evs, vec![SectionEvent::NodeDropped(a), SectionEvent::RequestMerge]);
    assert_eq!(sec.len(), 1);
    // losing an unknown name does nothing
    let evs2 = sec.handle_event(NetworkEvent::Lost(Name(99)), &params);
    assert_eq!(evs2.len(), 0);
}

#[test]
fn gone_removes_silently_and_prefix_change_retargets() {
    let params = sparams();
    let mut sec = Section::new(Prefix::from_str("0").unwrap());
    let a = Node::new(1, 4);
    sec.handle_event(NetworkEvent::Live(a, true), &params);
    let evs = sec.handle_event(NetworkEvent::Gone(a), &params);
    assert_eq!(evs.len(), 0);
    assert_eq!(sec.len(), 0);
    let evs2 = sec.handle_event(NetworkEvent::PrefixChange(Prefix::empty()), &params);
    assert_eq!(evs2.len(), 0);
    assert_eq!(sec.prefix(), Prefix::empty());
    let evs3 = sec.handle_event(NetworkEvent::StartMerge(Prefix::empty()), &params);
    assert_eq!(evs3.len(), 0);
}

#[test]
fn split_partitions_the_members_by_the_next_bit() {
    let params = sparams();
    let mut sec = Section::new(Prefix::empty());
    let low = Node::new(0x0123_0000_0000_0000, 4);
    let high = Node::new(0x8123_0000_0000_0000, 4);
    let high2 = Node::new(0xf000_0000_0000_0000, 6);
    sec.handle_event(NetworkEvent::Live(low, true), &params);
    sec.handle_event(NetworkEvent::Live(high, true), &params);
    sec.handle_event(NetworkEvent::Live(high2, true), &params);
    let ((s0, ev0), (s1, ev1)) = sec.split();
    assert_eq!(s0.prefix(), Prefix::from_str("0").unwrap());
    assert_eq!(s1.prefix(), Prefix::from_str("1").unwrap());
    assert_eq!(s0.nodes().clone(), vec![low]);
    assert_eq!(s1.nodes().clone(), vec![high, high2]);
    assert!(ev0.is_empty() && ev1.is_empty());
}

#[test]
fn merging_siblings_unions_the_memberships() {
    let params = sparams();
    let mut s0 = Section::new(Prefix::from_str("0").unwrap());
    let mut s1 = Section::new(Prefix::from_str("1").unwrap());
    let a = Node::new(0x1000, 4);
    let b = Node::new(0x8000_0000_0000_0000, 4);
    s0.handle_event(NetworkEvent::Live(a, true), &params);
    s1.handle_event(NetworkEvent::Live(b, true), &params);
    let merged = s0.merge(s1, &params);
    assert_eq!(merged.prefix(), Prefix::empty());
    assert_eq!(merged.len(), 2);
    assert_eq!(merged.nodes().clone(), vec![a, b]);
}

#[test]
fn elders_are_the_adult_members() {
    let params = sparams();
    let mut sec = Section::new(Prefix::empty());
    let young = Node::new(1, 4);
    let adult = Node::new(2, 6);
    sec.handle_event(NetworkEvent::Live(young, true), &params);
    sec.handle_event(NetworkEvent::Live(adult, true), &params);
    assert_eq!(sec.elders(), vec![adult]);
}

#[test]
fn count_halves_splits_by_the_bit_at_the_prefix_length() {
    let params = sparams();
    let mut sec = Section::new(Prefix::from_str("1").unwrap());
    sec.handle_event(NetworkEvent::Live(Node::new(0x8000_0000_0000_0000, 4), true), &params);
    sec.handle_event(NetworkEvent::Live(Node::new(0x9000_0000_0000_0000, 4), true), &params);
    sec.handle_event(NetworkEvent::Live(Node::new(0xc000_0000_0000_0000, 4), true), &params);
    let (c0, c1) = sec.count_halves(&params);
    assert_eq!((c0, c1), (2, 1));
}

#[test]
fn drop_weight_tracks_the_membership() {
    let mut params = sparams();
    params.drop_dist = DropDist::Exponential;
    let mut sec = Section::new(Prefix::empty());
    sec.handle_event(NetworkEvent::Live(Node::new(1, 2), true), &params);
    sec.handle_event(NetworkEvent::Live(Node::new(2, 3), true), &params);
    let expected = (EXP_SCALE >> 2) as u128 + (EXP_SCALE >> 3) as u128;
    assert_eq!(sec.drop_weight(), expected);
    let mut sec2 = sec;
    sec2.recompute_drop_weight(&params);
    assert_eq!(sec2.drop_weight(), expected);
}

#[test]
fn completeness_follows_the_group_size() {
    let params = sparams();
    let mut sec = Section::new(Prefix::empty());
    for i in 0..8u64 {
        sec.handle_event(NetworkEvent::Live(Node::new(i, 4), true), &params);
        if i < 7 {
            assert!(!sec.is_complete());
        }
    }
    assert!(sec.is_complete());
    assert!(!sec.reject_young_node(&params));
}
