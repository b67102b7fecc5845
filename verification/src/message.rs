use vstd::prelude::*;

verus! {

/// Identifier of a node in the cluster; the client uses the identifier 0.
pub type NodeId = u32;

/// Messages exchanged between nodes and between a client and the leader.
pub enum Message {
    Hello { from: NodeId },
    Heartbeat { from: NodeId, term: u64 },
    Election { from: NodeId },
    /// Answer to an `Election` message from a lower node (named `Ok` on the wire).
    ElectionOk { from: NodeId },
    Coordinator { leader: NodeId, term: u64 },
    /// Leader discovery for clients.
    QueryLeader,
    LeaderInfo { leader_id: Option<NodeId>, term: u64 },
    /// A request to encrypt an image.
    EncryptRequest {
        from: NodeId,
        req_id: String,
        user: String,
        image_bytes: Vec<u8>,
        client_addr: Option<String>,
    },
    /// The answer to an `EncryptRequest`.
    EncryptReply {
        req_id: String,
        ok: bool,
        encrypted_image: Option<Vec<u8>>,
        original_filename: Option<String>,
        error: Option<String>,
    },
}

} // verus!
