//! A discrete-event simulator of a prefix-partitioned, age-weighted
//! peer-to-peer overlay network.
//!
//! Nodes are partitioned across sections identified by binary prefixes.
//! Sections split and merge as their population changes, and nodes age,
//! relocate, drop, and rejoin over the course of the simulation.

pub mod churn;
pub mod network;
pub mod output;
pub mod rng;
pub mod node;
pub mod params;
pub mod pmap;
pub mod section;
pub mod prefix;

pub use network::Network;
pub use prefix::Name;
pub use prefix::Prefix;
