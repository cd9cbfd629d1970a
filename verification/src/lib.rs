//! Peer discovery and gossip overlay of a relay node.
//!
//! The crate holds the overlay's state and rules: the peer directory, the
//! distance-based routing table, the topic overlay with its duplicate
//! suppression, the connection table, and the dispatch of network events to
//! them. Transport, timers and files are the embedding program's business: it
//! feeds events in and carries the returned actions out.

pub mod bootstrap;
pub mod connection;
pub mod directory;
pub mod gossip;
pub mod identity;
pub mod index;
pub mod keyspace;
pub mod message;
pub mod relay;
pub mod routing;
pub mod swarm;
