//! Iterative node lookup for a Kademlia-style distributed hash table.

pub mod common;
pub mod routing_table;
pub mod messages;
pub mod transport;
pub mod query;
