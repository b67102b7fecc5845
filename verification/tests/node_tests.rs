use std::collections::HashMap;

use cloud_p2p::message::{Message, NodeId};
use cloud_p2p::net::Net;
use cloud_p2p::node::{image_filename, startup_delay_ms, Action, NodeState, HEARTBEAT_INTERVAL_MS};
use cloud_p2p::routes::RouteTable;

fn cluster(ids: &[NodeId]) -> HashMap<NodeId, String> {
    let mut peers = HashMap::new();
    for id in ids {
        peers.insert(*id, format!("127.0.0.1:{}", 7000 + id));
    }
    peers
}

fn net() -> Net {
    Net::new(0, vec![0u8; 32])
}

fn png_image() -> Vec<u8> {
    vec![0x89, b'P', b'N', b'G', 0x0D, 0x0A, 0x1A, 0x0A, 1, 2, 3]
}

fn sent_to(act: &Action) -> Option<NodeId> {
    match act {
        Action::Send { to, .. } => Some(*to),
        _ => None,
    }
}

#[test]
fn highest_node_becomes_leader_at_once() {
    let mut n = NodeState::new(3, &cluster(&[1, 2, 3]));
    let acts = n.start_election();
    assert_eq!(n.leader, Some(3));
    assert!(!n.participating);
    assert!(n.heartbeat_running);
    assert_eq!(acts.len(), 3);
    for (i, to) in [1u32, 2].iter().enumerate() {
        match &acts[i] {
            Action::Send { to: t, msg: Message::Coordinator { leader, term } } => {
                assert_eq!(t, to);
                assert_eq!(*leader, 3);
                assert_eq!(*term, 1);
            }
            _ => panic!("coordinator announcement expected"),
        }
    }
    match &acts[2] {
        Action::StartHeartbeats { targets, period_ms } => {
            assert_eq!(targets, &vec![1, 2]);
            assert_eq!(*period_ms, 1000);
            assert_eq!(HEARTBEAT_INTERVAL_MS, 1000);
        }
        _ => panic!("heartbeats expected"),
    }
}

#[test]
fn lower_node_calls_higher_nodes_and_yields_on_ok() {
    let mut n = NodeState::new(1, &cluster(&[1, 2, 3]));
    let acts = n.start_election();
    assert!(n.participating);
    assert_eq!(acts.len(), 3);
    for (i, to) in [2u32, 3].iter().enumerate() {
        match &acts[i] {
            Action::Send { to: t, msg: Message::Election { from } } => {
                assert_eq!(t, to);
                assert_eq!(*from, 1);
            }
            _ => panic!("election message expected"),
        }
    }
    assert!(matches!(acts[2], Action::AwaitOk));
    // A second call during the election does nothing.
    assert!(n.start_election().is_empty());
    assert!(n.on_ok().is_empty());
    let acts = n.election_timeout();
    assert!(matches!(acts[..], [Action::AwaitCoordinator]));
    assert!(n.participating);
    assert_eq!(n.leader, None);
    n.election_finished();
    assert!(!n.participating);
}

#[test]
fn lower_node_without_answer_takes_the_lead() {
    let mut n = NodeState::new(1, &cluster(&[1, 2, 3]));
    n.start_election();
    let acts = n.election_timeout();
    assert_eq!(n.leader, Some(1));
    assert!(!n.participating);
    assert_eq!(acts.len(), 3);
    assert_eq!(sent_to(&acts[0]), Some(2));
    assert_eq!(sent_to(&acts[1]), Some(3));
}

#[test]
fn election_from_lower_node_is_answered() {
    let mut n = NodeState::new(2, &cluster(&[1, 2, 3]));
    let acts = n.handle_message(&net(), Message::Election { from: 1 }, 10);
    match &acts[0] {
        Action::Send { to, msg: Message::ElectionOk { from } } => {
            assert_eq!(*to, 1);
            assert_eq!(*from, 2);
        }
        _ => panic!("Ok expected"),
    }
    assert_eq!(sent_to(&acts[1]), Some(3));
    assert!(matches!(acts[2], Action::AwaitOk));
    // An election call from a higher node is ignored.
    let mut m = NodeState::new(2, &cluster(&[1, 2, 3]));
    assert!(m.handle_message(&net(), Message::Election { from: 3 }, 10).is_empty());
    assert!(!m.participating);
}

#[test]
fn coordinator_ends_election_and_stops_own_heartbeats() {
    let mut n = NodeState::new(2, &cluster(&[1, 2, 3]));
    n.start_election();
    n.election_timeout();
    assert!(n.heartbeat_running);
    let acts = n.handle_message(&net(), Message::Coordinator { leader: 3, term: 1 }, 500);
    assert!(matches!(acts[..], [Action::StopHeartbeats]));
    assert_eq!(n.leader, Some(3));
    assert_eq!(n.last_heartbeat, Some(500));
    assert!(!n.heartbeat_running);
    assert!(!n.participating);
}

#[test]
fn heartbeat_records_leader() {
    let mut n = NodeState::new(1, &cluster(&[1, 2, 3]));
    assert!(n.handle_message(&net(), Message::Heartbeat { from: 3, term: 1 }, 42).is_empty());
    assert_eq!(n.leader, Some(3));
    assert_eq!(n.last_heartbeat, Some(42));
}

#[test]
fn monitor_calls_election_on_silence() {
    let mut n = NodeState::new(1, &cluster(&[1, 2, 3]));
    // No leader known.
    assert_eq!(n.tick(0).len(), 3);
    let mut n = NodeState::new(1, &cluster(&[1, 2, 3]));
    n.on_heartbeat(3, 1000);
    assert!(n.tick(4000).is_empty());
    assert_eq!(n.tick(4001).len(), 3);
    assert!(n.participating);
    // A leader never challenges itself.
    let mut l = NodeState::new(3, &cluster(&[1, 2, 3]));
    l.start_election();
    assert!(l.tick(1_000_000).is_empty());
}

#[test]
fn leader_hands_client_requests_round_robin() {
    let mut n = NodeState::new(3, &cluster(&[1, 2, 3]));
    n.start_election();
    let mut workers = Vec::new();
    for k in 0..3 {
        let acts = n.on_encrypt_request(&net(), 0, format!("r{}", k), png_image(), Some("127.0.0.1:7100".to_string()));
        assert_eq!(acts.len(), 1);
        match &acts[0] {
            Action::Send { to, msg: Message::EncryptRequest { from, req_id, user, image_bytes, client_addr } } => {
                workers.push(*to);
                assert_eq!(*from, 3);
                assert_eq!(req_id, &format!("r{}", k));
                assert_eq!(user, "");
                assert_eq!(image_bytes, &png_image());
                assert_eq!(client_addr.as_deref(), Some("127.0.0.1:7100"));
            }
            _ => panic!("forwarded request expected"),
        }
    }
    assert_eq!(workers, vec![1, 2, 1]);
    assert_eq!(n.routes.get(&"r1".to_string()), Some("127.0.0.1:7100".to_string()));
}

#[test]
fn worker_encrypts_and_answers_sender() {
    let mut n = NodeState::new(1, &cluster(&[1, 2, 3]));
    let acts = n.handle_message(
        &net(),
        Message::EncryptRequest {
            from: 3,
            req_id: "abc".to_string(),
            user: String::new(),
            image_bytes: png_image(),
            client_addr: None,
        },
        0,
    );
    match &acts[..] {
        [Action::Send { to, msg: Message::EncryptReply { req_id, ok, encrypted_image, original_filename, error } }] => {
            assert_eq!(*to, 3);
            assert_eq!(req_id, "abc");
            assert!(*ok);
            assert_eq!(original_filename.as_deref(), Some("image.png"));
            assert!(error.is_none());
            let sealed = encrypted_image.as_ref().unwrap();
            assert_eq!(net().decrypt(sealed).unwrap(), png_image());
        }
        _ => panic!("one reply expected"),
    }
}

#[test]
fn lone_leader_encrypts_for_the_client() {
    let mut n = NodeState::new(1, &cluster(&[1]));
    n.start_election();
    assert_eq!(n.leader, Some(1));
    let acts = n.on_encrypt_request(&net(), 0, "q".to_string(), b"GIF89a..".to_vec(), Some("10.0.0.9:7100".to_string()));
    match &acts[..] {
        [Action::ReplyToClient { addr, msg: Message::EncryptReply { ok, original_filename, encrypted_image, .. } }] => {
            assert_eq!(addr, "10.0.0.9:7100");
            assert!(*ok);
            assert_eq!(original_filename.as_deref(), Some("image.gif"));
            assert_eq!(net().decrypt(encrypted_image.as_ref().unwrap()).unwrap(), b"GIF89a..".to_vec());
        }
        _ => panic!("a reply to the client expected"),
    }
    // Without a client address there is no one to answer.
    assert!(n.on_encrypt_request(&net(), 0, "q2".to_string(), b"GIF89a..".to_vec(), None).is_empty());
}

#[test]
fn reply_goes_to_client_once() {
    let mut n = NodeState::new(3, &cluster(&[1, 2, 3]));
    n.start_election();
    n.on_encrypt_request(&net(), 0, "id1".to_string(), png_image(), Some("1.2.3.4:5".to_string()));
    let acts = n.on_encrypt_reply("id1".to_string(), true, Some(vec![9, 9]), Some("image.png".to_string()));
    match &acts[..] {
        [Action::ReplyToClient { addr, msg: Message::EncryptReply { req_id, ok, encrypted_image, original_filename, error } }] => {
            assert_eq!(addr, "1.2.3.4:5");
            assert_eq!(req_id, "id1");
            assert!(*ok);
            assert_eq!(encrypted_image, &Some(vec![9, 9]));
            assert_eq!(original_filename.as_deref(), Some("image.png"));
            assert!(error.is_none());
        }
        _ => panic!("forwarded reply expected"),
    }
    assert!(n.on_encrypt_reply("id1".to_string(), true, Some(vec![9, 9]), None).is_empty());
}

#[test]
fn failed_reply_drops_route() {
    let mut n = NodeState::new(3, &cluster(&[1, 2, 3]));
    n.start_election();
    n.on_encrypt_request(&net(), 0, "bad".to_string(), png_image(), Some("1.2.3.4:5".to_string()));
    assert!(n.on_encrypt_reply("bad".to_string(), false, None, None).is_empty());
    assert_eq!(n.routes.get(&"bad".to_string()), None);
}

#[test]
fn route_table_insert_get_remove() {
    let mut t = RouteTable::new();
    t.insert("a".to_string(), "x".to_string());
    t.insert("b".to_string(), "y".to_string());
    t.insert("a".to_string(), "z".to_string());
    assert_eq!(t.get(&"a".to_string()), Some("z".to_string()));
    assert_eq!(t.get(&"b".to_string()), Some("y".to_string()));
    t.remove(&"a".to_string());
    assert_eq!(t.get(&"a".to_string()), None);
    assert_eq!(t.get(&"b".to_string()), Some("y".to_string()));
}

#[test]
fn filename_and_delay() {
    assert_eq!(image_filename("jpg"), "image.jpg");
    assert_eq!(startup_delay_ms(3), 350);
}

#[test]
fn announced_leader_is_not_challenged_within_timeout() {
    let mut n = NodeState::new(1, &cluster(&[1, 2, 3]));
    n.handle_message(&net(), Message::Coordinator { leader: 3, term: 1 }, 2000);
    assert!(n.tick(2000).is_empty());
    assert!(n.tick(5000).is_empty());
    assert_eq!(n.tick(5001).len(), 3);
}

#[test]
fn messages_without_effect() {
    let mut n = NodeState::new(2, &cluster(&[1, 2, 3]));
    assert!(n.handle_message(&net(), Message::Hello { from: 0 }, 1).is_empty());
    assert!(n.handle_message(&net(), Message::QueryLeader, 1).is_empty());
    assert_eq!(n.leader, None);
    // A short image that is no known format is encrypted as binary data.
    let short = Message::EncryptRequest {
        from: 3,
        req_id: "s".to_string(),
        user: String::new(),
        image_bytes: vec![1, 2, 3],
        client_addr: None,
    };
    match &n.handle_message(&net(), short, 1)[..] {
        [Action::Send { to, msg: Message::EncryptReply { ok, original_filename, .. } }] => {
            assert_eq!(*to, 3);
            assert!(*ok);
            assert_eq!(original_filename.as_deref(), Some("image.bin"));
        }
        _ => panic!("one reply expected"),
    }
}

#[test]
fn unanswered_election_takes_lead_despite_coordinator() {
    let mut n = NodeState::new(1, &cluster(&[1, 2, 3]));
    n.start_election();
    // Another node announces itself while this node still waits for an Ok.
    let acts = n.handle_message(&net(), Message::Coordinator { leader: 2, term: 1 }, 100);
    assert!(acts.is_empty());
    assert!(!n.participating);
    let acts = n.election_timeout();
    assert_eq!(n.leader, Some(1));
    assert!(!n.participating);
    assert_eq!(acts.len(), 3);
    assert_eq!(sent_to(&acts[0]), Some(2));
    assert_eq!(sent_to(&acts[1]), Some(3));
}
