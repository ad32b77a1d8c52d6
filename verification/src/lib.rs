//! Topology-aware monitoring core for Redis-style deployments.
//!
//! The crate discovers the live topology of a deployment (standalone node,
//! primary/replica pair, or native cluster), polls every node for its
//! diagnostic attributes, and assembles the results into ordered snapshots.
//! All decision logic is verified; the network itself is driven by an
//! unverified shell that performs the commands this library issues and feeds
//! the replies back in as events.

pub mod text;
pub mod num;
pub mod types;
pub mod info;
pub mod replicas;
pub mod cluster;
pub mod resolver;
pub mod walker;
pub mod poller;
pub mod gauges;
pub mod config;
