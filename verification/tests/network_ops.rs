use ageing_sim::churn::NetworkEvent;
use ageing_sim::network::Network;
use ageing_sim::node::Node;
use ageing_sim::params::{DropDist, Params};
use ageing_sim::pmap::PrefixMap;
use ageing_sim::prefix::{Name, Prefix};
use ageing_sim::section::Section;

fn nparams() -> Params {
    Params {
        init_age: 4,
        drop_dist: DropDist::RevProp,
        distant_relocation_ppm: 0,
        max_section_size: 1000,
        min_section_size: 0,
        relocation_interval: 0,
    }
}

fn section_with(prefix: &str, names: &[u64]) -> (Prefix, Section) {
    let params = nparams();
    let p = Prefix::from_str(prefix).unwrap();
    let mut sec = Section::new(p);
    for n in names.iter() {
        let evs = sec.handle_event(NetworkEvent::Live(Node::new(*n, 4), true), &params);
        assert!(evs.is_empty());
    }
    (p, sec)
}

#[test]
fn one_add_lands_in_the_single_section() {
    let mut net = Network::new(nparams());
    net.add_random_node();
    assert_eq!(net.output().adds, 1);
    assert_eq!(net.output().churn, 1);
    // exactly one Live(_, true) event is queued at a live prefix
    assert_eq!(net.event_queue.entries.len(), 1);
    let (k, evs) = &net.event_queue.entries[0];
    assert_eq!(*k, Prefix::empty());
    assert_eq!(evs.len(), 1);
    assert!(matches!(evs[0], NetworkEvent::Live(_, true)));
    assert!(net.process_events());
    assert_eq!(net.num_sections(), 1);
    assert_eq!(net.nodes.entries[0].1.len(), 1);
}

#[test]
fn enough_adds_split_the_empty_prefix() {
    let mut params = nparams();
    params.max_section_size = 8;
    let mut net = Network::new(params);
    for _ in 0..8 {
        net.add_random_node();
    }
    assert!(net.process_events());
    assert_eq!(net.num_sections(), 2);
    let p0 = Prefix::from_str("0").unwrap();
    let p1 = Prefix::from_str("1").unwrap();
    assert_eq!(net.prefix_for_node(Node::new(0, 4)), p0);
    assert_eq!(net.prefix_for_node(Node::new(u64::MAX, 4)), p1);
    // eight adds plus one split
    assert_eq!(net.output().churn, 9);
    assert_eq!(net.nodes.entries[0].1.len() + net.nodes.entries[1].1.len(), 8);
}

#[test]
fn a_drop_below_the_minimum_merges_the_siblings_back() {
    let mut params = nparams();
    params.min_section_size = 2;
    let mut net = Network::new(params);
    let (p0, s0) = section_with("0", &[0x1000, 0x2000]);
    let (p1, s1) = section_with("1", &[0x8000_0000_0000_0000, 0x9000_0000_0000_0000]);
    net.nodes = PrefixMap { entries: vec![(p0, s0), (p1, s1)] };
    let churn_before = net.output().churn;
    net.drop_random_node();
    assert!(net.process_events());
    assert_eq!(net.num_sections(), 1);
    assert_eq!(net.nodes.entries[0].0, Prefix::empty());
    assert_eq!(net.pending_merges.len(), 0);
    // the drop and the merge finalisation each count once
    assert_eq!(net.output().churn, churn_before + 2);
    assert_eq!(net.output().drops, 1);
    // three nodes remain, one left the network
    assert_eq!(net.nodes.entries[0].1.len(), 3);
    assert_eq!(net.left_nodes.len(), 1);
}

#[test]
fn prefix_for_node_finds_the_owning_section() {
    let mut net = Network::new(nparams());
    let (p00, s00) = section_with("00", &[]);
    let (p01, s01) = section_with("01", &[]);
    let (p1, s1) = section_with("1", &[]);
    net.nodes = PrefixMap { entries: vec![(p00, s00), (p01, s01), (p1, s1)] };
    assert_eq!(net.prefix_for_node(Node::new(0x0000_0000_0000_0001, 4)), p00);
    assert_eq!(net.prefix_for_node(Node::new(0x4fff_0000_0000_0000, 4)), p01);
    assert_eq!(net.prefix_for_node(Node::new(0x8000_0000_0000_0000, 4)), p1);
    assert_eq!(net.prefix_for_node(Node::new(0xcfff_0000_0000_0000, 4)), p1);
}

#[test]
fn relocation_picks_the_weakest_neighbour() {
    let mut net = Network::new(nparams());
    let (p0, s0) = section_with("0", &[0x1000, 0x2000, 0x3000]);
    let (p1, s1) = section_with("1", &[0x8000_0000_0000_0000]);
    net.nodes = PrefixMap { entries: vec![(p0, s0), (p1, s1)] };
    let node = Node::new(0x1000, 4);
    net.relocate(node);
    assert_eq!(net.output().relocations, 1);
    assert_eq!(net.output().churn, 2);
    // the target is the neighbour with the fewest members: the 1-prefix
    let evs = net.event_queue.get(&p1).expect("an event for the 1-prefix");
    assert_eq!(evs.len(), 1);
    match evs[0] {
        NetworkEvent::Live(nd, counted) => {
            assert!(counted);
            assert_eq!(nd.age(), 5);
            assert!(p1.matches(nd.name()));
        },
        _ => panic!("expected a Live event"),
    }
    assert!(net.event_queue.get(&p0).is_none());
}

#[test]
fn the_section_policy_relocates_on_counted_churn() {
    let mut params = nparams();
    params.relocation_interval = 2;
    let mut net = Network::new(params);
    net.add_random_node();
    net.add_random_node();
    net.process_events();
    assert_eq!(net.output().relocations, 1);
    // two adds plus one relocation counted twice
    assert_eq!(net.output().churn, 4);
    // both nodes are in the network, one of them aged by the move
    let dist = net.age_distribution();
    assert_eq!(dist[4], 1);
    assert_eq!(dist[5], 1);
}

#[test]
fn a_rejoining_node_comes_back_one_year_younger() {
    let mut net = Network::new(nparams());
    net.left_nodes.push(Node::new(42, 6));
    net.rejoin_random_node();
    assert_eq!(net.output().rejoins, 1);
    assert_eq!(net.output().churn, 1);
    assert_eq!(net.left_nodes.len(), 0);
    let evs = net.event_queue.get(&Prefix::empty()).expect("a rejoin event");
    assert_eq!(evs.len(), 1);
    match evs[0] {
        NetworkEvent::Live(nd, true) => {
            assert_eq!(nd.name(), Name(42));
            assert_eq!(nd.age(), 5);
        },
        _ => panic!("expected a counted Live event"),
    }
}

#[test]
fn rejoining_from_an_empty_pool_only_counts() {
    let mut net = Network::new(nparams());
    net.rejoin_random_node();
    assert_eq!(net.output().rejoins, 1);
    assert_eq!(net.output().churn, 1);
    assert_eq!(net.event_queue.entries.len(), 0);
}

#[test]
fn dropping_picks_a_weighted_member() {
    let mut net = Network::new(nparams());
    let (pe, se) = section_with("", &[0x1234]);
    net.nodes = PrefixMap { entries: vec![(pe, se)] };
    net.drop_random_node();
    assert_eq!(net.output().drops, 1);
    assert_eq!(net.output().churn, 1);
    let evs = net.event_queue.get(&Prefix::empty()).expect("a drop event");
    assert_eq!(evs.len(), 1);
    assert!(matches!(evs[0], NetworkEvent::Lost(Name(0x1234))));
    // the age histogram records the dropped node's age
    assert_eq!(net.output().drops_dist[4], 1);
}

#[test]
fn dropping_from_an_empty_network_only_counts() {
    let mut net = Network::new(nparams());
    net.drop_random_node();
    assert_eq!(net.output().drops, 1);
    assert_eq!(net.output().churn, 1);
    assert_eq!(net.event_queue.entries.len(), 0);
}

#[test]
fn a_merge_inside_a_broader_pending_merge_is_a_no_op() {
    let mut net = Network::new(nparams());
    let (p0, s0) = section_with("0", &[0x1000]);
    let (p1, s1) = section_with("1", &[0x8000_0000_0000_0000]);
    net.nodes = PrefixMap { entries: vec![(p0, s0), (p1, s1)] };
    net.merge(p0);
    assert_eq!(net.pending_merges.len(), 1);
    assert_eq!(net.pending_merges.entries[0].0, Prefix::empty());
    let queues_before: Vec<usize> = net.event_queue.entries.iter().map(|e| e.1.len()).collect();
    // initiating again from the sibling is subsumed by the broader merge
    net.merge(p1);
    assert_eq!(net.pending_merges.len(), 1);
    let queues_after: Vec<usize> = net.event_queue.entries.iter().map(|e| e.1.len()).collect();
    assert_eq!(queues_before, queues_after);
}

#[test]
fn counters_never_decrease_over_a_run() {
    let mut params = nparams();
    params.max_section_size = 4;
    params.min_section_size = 2;
    let mut net = Network::new(params);
    let mut last_churn = 0u64;
    for step in 0..30 {
        if step % 3 == 2 {
            net.drop_random_node();
        } else {
            net.add_random_node();
        }
        net.process_events();
        let out = net.output();
        assert!(out.churn >= last_churn);
        last_churn = out.churn;
    }
    assert_eq!(net.output().adds, 20);
    assert_eq!(net.output().drops, 10);
}

#[test]
fn structure_snapshots_record_size_and_sections() {
    let mut net = Network::new(nparams());
    let (p0, s0) = section_with("0", &[1, 2, 3]);
    let (p1, s1) = section_with("1", &[0x8000_0000_0000_0000]);
    net.nodes = PrefixMap { entries: vec![(p0, s0), (p1, s1)] };
    net.capture_network_structure();
    assert_eq!(net.output().network_structure.len(), 1);
    let snap = &net.output().network_structure[0];
    assert_eq!(snap.size, 4);
    assert_eq!(snap.sections, 2);
    assert_eq!(snap.complete, 0);
    assert_eq!(net.complete_sections(), 0);
}

#[test]
fn age_distribution_counts_members_by_age() {
    let mut net = Network::new(nparams());
    let params = nparams();
    let pe = Prefix::empty();
    let mut sec = Section::new(pe);
    sec.handle_event(NetworkEvent::Live(Node::new(1, 4), true), &params);
    sec.handle_event(NetworkEvent::Live(Node::new(2, 4), true), &params);
    sec.handle_event(NetworkEvent::Live(Node::new(3, 9), true), &params);
    net.nodes = PrefixMap { entries: vec![(pe, sec)] };
    let dist = net.age_distribution();
    assert_eq!(dist.len(), 256);
    assert_eq!(dist[4], 2);
    assert_eq!(dist[9], 1);
    assert_eq!(dist[5], 0);
}

#[test]
fn nodes_are_conserved_across_a_run() {
    let mut params = nparams();
    params.max_section_size = 4;
    params.min_section_size = 2;
    params.relocation_interval = 7;
    let mut net = Network::new(params);
    for step in 0..60 {
        match step % 6 {
            4 => net.drop_random_node(),
            5 => net.rejoin_random_node(),
            _ => net.add_random_node(),
        }
        net.process_events();
        // every node that ever joined is live, waiting to rejoin, or was
        // rejected; nothing appears or vanishes any other way
        let live: usize = net.nodes.entries.iter().map(|e| e.1.len()).sum();
        let accounted = live as u64 + net.left_nodes.len() as u64 + net.output().rejections;
        assert_eq!(accounted, net.output().adds);
    }
}
