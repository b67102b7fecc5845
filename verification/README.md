# cloud_p2p

A small cluster of nodes that elect a leader with the Bully algorithm and
encrypt images (AES-256-GCM) that clients send to the leader.

- `src/` is the verified library (Verus):
  - `balancer.rs`: round-robin and least-load peer selection, with the fairness
    and tie-breaking laws;
  - `net.rs`: sealing and opening of frames (nonce followed by AES-GCM
    ciphertext);
  - `node.rs`: the node's decisions: elections, heartbeats, leader checks, and the
    leader's hand-out of client requests to workers;
  - `routes.rs`: the leader's table of where each client answer goes;
  - `config.rs`, `text.rs`: the `PEERS` text format and the string helpers it needs;
  - `image.rs`: image format detection from magic bytes;
  - `client.rs`: the client's commands, leader choice and request identifiers.
- `app/` runs it: TCP transport, JSON encoding, configuration files and the
  environment, timers, and the interactive client (`cloud_p2p client`).
