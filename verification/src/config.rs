use vstd::prelude::*;

use crate::message::NodeId;
use crate::text::{parse_u32, parse_u32_spec, split_char, split_on, string_views, trim, trim_str};

verus! {

/// One configured node: its identifier and its socket address as text.
pub struct PeerConfig {
    pub id: NodeId,
    pub address: String,
}

/// The cluster configuration: every node of the cluster.
pub struct Config {
    pub peers: Vec<PeerConfig>,
}

/// Why a `PEERS` text could not be read.
pub enum ConfigError {
    /// An entry is not of the form `id=address`.
    InvalidPeerFormat { entry: String },
    /// The text before `=` is not a node identifier.
    InvalidNodeId { text: String },
}

/// A `PEERS` text that does not read: the peers of the entries before the first
/// entry that does not read, and that entry's error.
pub struct PeersError {
    pub read: Vec<PeerConfig>,
    pub error: ConfigError,
}

/// Where the configuration comes from.
#[derive(Debug, Clone, Copy, PartialEq, Eq, Structural)]
pub enum ConfigSource {
    /// The JSON file that was named.
    File,
    /// The `PEERS` environment variable.
    Environment,
    /// The built-in three-node localhost cluster.
    Localhost,
}

/// The parts of a `PEERS` entry around `=`.
pub open spec fn entry_parts(entry: Seq<char>) -> Seq<Seq<char>> {
    split_on(entry, '=')
}

/// The entry reads as a node: exactly one `=`, and a node identifier before it.
pub open spec fn entry_ok(entry: Seq<char>) -> bool {
    &&& entry_parts(entry).len() == 2
    &&& parse_u32_spec(trim(entry_parts(entry)[0])) is Some
}

/// `peer` is what the entry reads as.
pub open spec fn entry_read_as(entry: Seq<char>, peer: PeerConfig) -> bool {
    &&& entry_ok(entry)
    &&& parse_u32_spec(trim(entry_parts(entry)[0])) == Some(peer.id)
    &&& peer.address@ == trim(entry_parts(entry)[1])
}

/// `err` is the error that the entry gives.
pub open spec fn entry_refused_with(entry: Seq<char>, err: ConfigError) -> bool {
    match err {
        ConfigError::InvalidPeerFormat { entry: e } => entry_parts(entry).len() != 2 && e@ == entry,
        ConfigError::InvalidNodeId { text } => {
            &&& entry_parts(entry).len() == 2
            &&& parse_u32_spec(trim(entry_parts(entry)[0])) is None
            &&& text@ == entry_parts(entry)[0]
        },
    }
}

/// The entries of a `PEERS` text, separated by `,`.
pub open spec fn peer_entries(text: Seq<char>) -> Seq<Seq<char>> {
    split_on(text, ',')
}

/// Copies a string slice into a `String`.
fn owned(s: &str) -> (res: String)
    ensures
        res@ == s@,
{
    s.to_owned()
}

impl PeerConfig {
    /// Reads one `id=address` entry of a `PEERS` text; the identifier and the
    /// address are trimmed of surrounding whitespace.
    pub fn parse_entry(entry: &str) -> (res: Result<PeerConfig, ConfigError>)
        ensures
            match res {
                Ok(peer) => entry_read_as(entry@, peer),
                Err(err) => entry_refused_with(entry@, err),
            },
    {
        let parts = split_char(entry, '=');
        proof {
            assert(string_views(parts@).len() == parts@.len());
        }
        if parts.len() != 2 {
            return Err(ConfigError::InvalidPeerFormat { entry: owned(entry) });
        }
        proof {
            assert(string_views(parts@)[0] == parts@[0]@);
            assert(string_views(parts@)[1] == parts@[1]@);
        }
        let id_text = trim_str(parts[0].as_str());
        match parse_u32(id_text.as_str()) {
            Some(id) => {
                let address = trim_str(parts[1].as_str());
                Ok(PeerConfig { id, address })
            },
            None => Err(ConfigError::InvalidNodeId { text: parts[0].clone() }),
        }
    }
}

impl Config {
    /// Reads a `PEERS` text such as `1=192.168.1.10:7001,2=192.168.1.11:7002`:
    /// entries separated by `,`, each `id=address`. The first entry that does not
    /// read gives the error, together with the peers of the entries before it.
    ///
    /// Addresses are kept as text; whether they are socket addresses is checked by
    /// the caller, in order, on the peers returned (on success or failure alike).
    pub fn parse_peers(text: &str) -> (res: Result<Config, PeersError>)
        ensures
            ({
                let entries = peer_entries(text@);
                &&& res is Ok <==> forall|i: int| 0 <= i < entries.len() ==> entry_ok(#[trigger] entries[i])
                &&& res matches Ok(cfg) ==> {
                    &&& cfg.peers@.len() == entries.len()
                    &&& forall|i: int| 0 <= i < entries.len() ==> entry_read_as(#[trigger] entries[i], cfg.peers@[i])
                }
                &&& res matches Err(e) ==> {
                    let i = e.read@.len() as int;
                    &&& 0 <= i < entries.len()
                    &&& forall|j: int| 0 <= j < i ==> entry_read_as(#[trigger] entries[j], e.read@[j])
                    &&& entry_refused_with(entries[i], e.error)
                }
            }),
    {
        let entries = split_char(text, ',');
        let ghost views = string_views(entries@);
        let mut peers: Vec<PeerConfig> = Vec::new();
        let mut i: usize = 0;
        while i < entries.len()
            invariant
                views == peer_entries(text@),
                views.len() == entries@.len(),
                forall|k: int| 0 <= k < entries@.len() ==> views[k] == #[trigger] entries@[k]@,
                i <= entries@.len(),
                peers@.len() == i,
                forall|k: int| 0 <= k < i ==> entry_read_as(#[trigger] views[k], peers@[k]),
            decreases entries.len() - i,
        {
            match PeerConfig::parse_entry(entries[i].as_str()) {
                Ok(peer) => {
                    peers.push(peer);
                },
                Err(err) => {
                    return Err(PeersError { read: peers, error: err });
                },
            }
            i = i + 1;
        }
        proof {
            assert forall|k: int| 0 <= k < views.len() implies entry_ok(#[trigger] views[k]) by {
                assert(entry_read_as(views[k], peers@[k]));
            }
        }
        Ok(Config { peers })
    }

    /// The built-in configuration: nodes 1, 2 and 3 on `127.0.0.1`, ports 7001 to 7003.
    pub fn localhost() -> (cfg: Config)
        ensures
            cfg.peers@.len() == 3,
            cfg.peers@[0].id == 1 && cfg.peers@[0].address@ == "127.0.0.1:7001"@,
            cfg.peers@[1].id == 2 && cfg.peers@[1].address@ == "127.0.0.1:7002"@,
            cfg.peers@[2].id == 3 && cfg.peers@[2].address@ == "127.0.0.1:7003"@,
    {
        let mut peers: Vec<PeerConfig> = Vec::new();
        peers.push(PeerConfig { id: 1, address: owned("127.0.0.1:7001") });
        peers.push(PeerConfig { id: 2, address: owned("127.0.0.1:7002") });
        peers.push(PeerConfig { id: 3, address: owned("127.0.0.1:7003") });
        Config { peers }
    }

    /// Where `load` takes the configuration from: the named file if it exists,
    /// else the `PEERS` environment variable if it is set, else the localhost cluster.
    pub fn choose_source(file_named: bool, file_exists: bool, env_set: bool) -> (src: ConfigSource)
        ensures
            src == (if file_named && file_exists {
                ConfigSource::File
            } else if env_set {
                ConfigSource::Environment
            } else {
                ConfigSource::Localhost
            }),
    {
        if file_named && file_exists {
            ConfigSource::File
        } else if env_set {
            ConfigSource::Environment
        } else {
            ConfigSource::Localhost
        }
    }
}

} // verus!
