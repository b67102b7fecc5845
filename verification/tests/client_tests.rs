use cloud_p2p::client::{choose_leader, new_request_id, request_id, Command};

#[test]
fn parses_commands() {
    match Command::parse("  send-image   /tmp/cat.png ") {
        Command::SendImage { path } => assert_eq!(path, "/tmp/cat.png"),
        _ => panic!("send-image with a path"),
    }
    assert!(matches!(Command::parse("send-image"), Command::SendImageWithoutPath));
    assert!(matches!(Command::parse("discover"), Command::Discover));
    assert!(matches!(Command::parse(" status "), Command::Status));
    assert!(matches!(Command::parse("help extra"), Command::Help));
    assert!(matches!(Command::parse("   "), Command::Empty));
    match Command::parse("frobnicate now") {
        Command::Unknown { name } => assert_eq!(name, "frobnicate"),
        _ => panic!("unknown command"),
    }
}

#[test]
fn leader_is_highest_responder() {
    assert_eq!(choose_leader(&vec![2, 3, 1]), Some(3));
    assert_eq!(choose_leader(&vec![5]), Some(5));
    assert_eq!(choose_leader(&vec![]), None);
}

#[test]
fn request_id_is_lowercase_hex() {
    assert_eq!(request_id(&[1, 2, 3, 15, 16]), "0102030f10");
    assert_eq!(request_id(b"Hello world!"), "48656c6c6f20776f726c6421");
    assert_eq!(request_id(&[]), "");
}

#[test]
fn fresh_request_ids() {
    let a = new_request_id();
    let b = new_request_id();
    assert_eq!(a.len(), 32);
    assert!(a.chars().all(|c| c.is_ascii_hexdigit() && !c.is_ascii_uppercase()));
    assert_ne!(a, b);
}
