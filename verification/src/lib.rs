//! Cluster node library: peer selection, message sealing, leader election
//! decisions and the small text formats that the nodes and the client share.

pub mod message;
pub mod balancer;
pub mod net;
pub mod image;
pub mod text;
pub mod config;
pub mod routes;
pub mod node;
pub mod client;
