//! A group chat client over a directory-less peer network.
//!
//! Peers that share a group name find each other through a matching
//! service (publish/subscribe of an offer and a demand tagged with the
//! group), then exchange text over a transport that only succeeds while
//! the receiver is reachable.  This crate holds the verified core: the
//! discovery engine's state machine, the peer registry, the per-peer
//! delivery queue, and the message router.  The asynchronous plumbing
//! around it (HTTP calls to the matching service, the service bus
//! transport, the console) lives outside and feeds plain values in.

pub mod protocol;
pub mod node_id;
pub mod registry;
pub mod delivery;
pub mod timefmt;
pub mod chat;
pub mod discover;
