use cloud_p2p::config::{Config, ConfigError, ConfigSource, PeerConfig, PeersError};

#[test]
fn test_env_parsing() {
    let config = match Config::parse_peers("1=192.168.1.10:7001,2=192.168.1.11:7002,3=192.168.1.12:7003") {
        Ok(c) => c,
        Err(_) => panic!("the PEERS text should read"),
    };
    assert_eq!(config.peers.len(), 3);
    assert_eq!(config.peers[0].id, 1);
    assert_eq!(config.peers[0].address, "192.168.1.10:7001");
}

#[test]
fn peers_text_entries_are_trimmed() {
    let config = match Config::parse_peers(" 4 = 10.0.0.4:7004 ,5=10.0.0.5:7005") {
        Ok(c) => c,
        Err(_) => panic!("the PEERS text should read"),
    };
    assert_eq!(config.peers.len(), 2);
    assert_eq!(config.peers[0].id, 4);
    assert_eq!(config.peers[0].address, "10.0.0.4:7004");
    assert_eq!(config.peers[1].id, 5);
    assert_eq!(config.peers[1].address, "10.0.0.5:7005");
}

#[test]
fn peers_text_bad_format() {
    match Config::parse_peers("1=a:1,2") {
        Err(PeersError { read, error: ConfigError::InvalidPeerFormat { entry } }) => {
            assert_eq!(entry, "2");
            assert_eq!(read.len(), 1);
            assert_eq!(read[0].id, 1);
            assert_eq!(read[0].address, "a:1");
        }
        _ => panic!("an entry without '=' is refused"),
    }
    match Config::parse_peers("1=a=b") {
        Err(PeersError { read, error: ConfigError::InvalidPeerFormat { entry } }) => {
            assert_eq!(entry, "1=a=b");
            assert!(read.is_empty());
        }
        _ => panic!("an entry with two '=' is refused"),
    }
    match Config::parse_peers("") {
        Err(PeersError { error: ConfigError::InvalidPeerFormat { entry }, .. }) => assert_eq!(entry, ""),
        _ => panic!("an empty text is refused"),
    }
}

#[test]
fn peers_text_bad_id() {
    match Config::parse_peers("1=a:1,x =b:2,3=c") {
        Err(PeersError { read, error: ConfigError::InvalidNodeId { text } }) => {
            assert_eq!(text, "x ");
            assert_eq!(read.len(), 1);
        }
        _ => panic!("a non-numeric identifier is refused"),
    }
    match Config::parse_peers("4294967296=a:1") {
        Err(PeersError { error: ConfigError::InvalidNodeId { text }, .. }) => assert_eq!(text, "4294967296"),
        _ => panic!("an identifier beyond u32 is refused"),
    }
}

#[test]
fn parse_single_entry() {
    match PeerConfig::parse_entry("7=h:1") {
        Ok(p) => {
            assert_eq!(p.id, 7);
            assert_eq!(p.address, "h:1");
        }
        Err(_) => panic!("entry should read"),
    }
}

#[test]
fn localhost_default() {
    let c = Config::localhost();
    assert_eq!(c.peers.len(), 3);
    assert_eq!(c.peers[0].id, 1);
    assert_eq!(c.peers[0].address, "127.0.0.1:7001");
    assert_eq!(c.peers[1].id, 2);
    assert_eq!(c.peers[1].address, "127.0.0.1:7002");
    assert_eq!(c.peers[2].id, 3);
    assert_eq!(c.peers[2].address, "127.0.0.1:7003");
}

#[test]
fn source_priority() {
    assert_eq!(Config::choose_source(true, true, true), ConfigSource::File);
    assert_eq!(Config::choose_source(true, false, true), ConfigSource::Environment);
    assert_eq!(Config::choose_source(false, false, true), ConfigSource::Environment);
    assert_eq!(Config::choose_source(true, false, false), ConfigSource::Localhost);
    assert_eq!(Config::choose_source(false, true, false), ConfigSource::Localhost);
}
