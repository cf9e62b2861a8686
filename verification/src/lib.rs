//! IPv6 neighbor discovery for a small network stack.
//!
//! * [`wire`] reads and writes Neighbor Discovery messages and their options.
//! * [`iface`] holds the state that those messages maintain: the neighbor
//!   cache, the routing table and stateless address autoconfiguration.
//! * [`time`] and [`config`] hold the clock types and the capacities that both
//!   share.

pub mod collections;
pub mod config;
pub mod iface;
pub mod sequences;
pub mod time;
pub mod wire;
