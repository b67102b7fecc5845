use std::collections::HashMap;

use cloud_p2p::balancer::{LeastLoad, RoundRobin};
use cloud_p2p::message::NodeId;

fn three_peers() -> HashMap<NodeId, String> {
    let mut peers: HashMap<NodeId, String> = HashMap::new();
    peers.insert(1, "127.0.0.1:7001".to_string());
    peers.insert(2, "127.0.0.1:7002".to_string());
    peers.insert(3, "127.0.0.1:7003".to_string());
    peers
}

#[test]
fn rr_cycles() {
    let peers = three_peers();
    let mut rr = RoundRobin::new();
    // me = 1 -> candidates [2,3]
    assert_eq!(rr.pick(&peers, 1), Some(2));
    assert_eq!(rr.pick(&peers, 1), Some(3));
    assert_eq!(rr.pick(&peers, 1), Some(2));
}

#[test]
fn least_load_picks_least_loaded() {
    let peers = three_peers();
    let mut lb = LeastLoad::new();

    // Initially all nodes have 0 load, should pick lowest ID (2, since me=1)
    assert_eq!(lb.pick(&peers, 1), Some(2));

    lb.record_request(2);
    lb.record_request(2);
    lb.record_request(3);

    // Node 2 has 2 requests, Node 3 has 1 request
    assert_eq!(lb.pick(&peers, 1), Some(3));

    lb.record_request(3);
    lb.record_request(3);

    // Now Node 2 has 2 requests, Node 3 has 3 requests
    assert_eq!(lb.pick(&peers, 1), Some(2));
}

#[test]
fn least_load_tie_breaking() {
    let peers = three_peers();
    let mut lb = LeastLoad::new();

    assert_eq!(lb.pick(&peers, 1), Some(2));

    lb.record_request(2);
    lb.record_request(3);

    assert_eq!(lb.pick(&peers, 1), Some(2));
}

#[test]
fn least_load_get_loads() {
    let _peers = three_peers();
    let mut lb = LeastLoad::new();

    lb.record_request(2);
    lb.record_request(2);
    lb.record_request(3);

    let loads = lb.get_loads();
    assert_eq!(loads.get(&2), Some(&2));
    assert_eq!(loads.get(&3), Some(&1));
    assert_eq!(loads.get(&1), None);
}

#[test]
fn least_load_reset() {
    let mut peers: HashMap<NodeId, String> = HashMap::new();
    peers.insert(1, "127.0.0.1:7001".to_string());
    peers.insert(2, "127.0.0.1:7002".to_string());

    let mut lb = LeastLoad::new();

    lb.record_request(2);
    lb.record_request(2);
    assert_eq!(lb.get_loads().get(&2), Some(&2));

    lb.reset_node_load(2);
    assert_eq!(lb.get_loads().get(&2), Some(&0));

    lb.record_request(2);
    lb.reset_all_loads();
    assert!(lb.get_loads().is_empty());
}

#[test]
fn rr_no_other_peer_takes_no_ticket() {
    let mut peers: HashMap<NodeId, String> = HashMap::new();
    peers.insert(5, "127.0.0.1:7005".to_string());
    let mut rr = RoundRobin::new();
    assert_eq!(rr.pick(&peers, 5), None);
    peers.insert(9, "127.0.0.1:7009".to_string());
    peers.insert(7, "127.0.0.1:7007".to_string());
    // The failed pick took no ticket: the first real pick starts at the smallest.
    assert_eq!(rr.pick(&peers, 5), Some(7));
    assert_eq!(rr.pick(&peers, 5), Some(9));
}

#[test]
fn rr_round_visits_each_candidate_once() {
    let mut peers: HashMap<NodeId, String> = HashMap::new();
    for id in [4u32, 10, 1, 7, 3] {
        peers.insert(id, format!("10.0.0.{}:7000", id));
    }
    let mut rr = RoundRobin::new();
    let mut seen: Vec<NodeId> = Vec::new();
    for _ in 0..4 {
        seen.push(rr.pick(&peers, 7).unwrap());
    }
    assert_eq!(seen, vec![1, 3, 4, 10]);
    assert_eq!(rr.pick(&peers, 7), Some(1));
}

#[test]
fn rr_me_not_in_peers() {
    let peers = three_peers();
    let mut rr = RoundRobin::new();
    assert_eq!(rr.pick(&peers, 42), Some(1));
    assert_eq!(rr.pick(&peers, 42), Some(2));
    assert_eq!(rr.pick(&peers, 42), Some(3));
    assert_eq!(rr.pick(&peers, 42), Some(1));
}

#[test]
fn least_load_no_candidates() {
    let mut peers: HashMap<NodeId, String> = HashMap::new();
    peers.insert(1, "127.0.0.1:7001".to_string());
    let lb = LeastLoad::new();
    assert_eq!(lb.pick(&peers, 1), None);
    let empty: HashMap<NodeId, String> = HashMap::new();
    assert_eq!(lb.pick(&empty, 1), None);
}

#[test]
fn least_load_ignores_me_even_if_idle() {
    let peers = three_peers();
    let mut lb = LeastLoad::new();
    lb.record_request(2);
    lb.record_request(3);
    lb.record_request(3);
    // Node 1 has no load but is the caller.
    assert_eq!(lb.pick(&peers, 1), Some(2));
    lb.reset_node_load(3);
    assert_eq!(lb.pick(&peers, 1), Some(3));
}

#[test]
fn least_load_with_recording_goes_round() {
    let mut peers: HashMap<NodeId, String> = HashMap::new();
    for id in [9u32, 4, 6, 1] {
        peers.insert(id, format!("10.0.0.{}:7000", id));
    }
    let mut lb = LeastLoad::new();
    let mut picks = Vec::new();
    for _ in 0..7 {
        let r = lb.pick(&peers, 6).unwrap();
        lb.record_request(r);
        picks.push(r);
    }
    assert_eq!(picks, vec![1, 4, 9, 1, 4, 9, 1]);
}

#[test]
fn recording_elsewhere_keeps_choice() {
    let peers = three_peers();
    let mut lb = LeastLoad::new();
    lb.record_request(3);
    assert_eq!(lb.pick(&peers, 1), Some(2));
    lb.record_request(3);
    lb.record_request(1);
    assert_eq!(lb.pick(&peers, 1), Some(2));
}
