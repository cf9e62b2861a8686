//! Capacities fixed at build time.

use vstd::prelude::*;

verus! {

/// Number of routes that the routing table, and the set of learned route
/// candidates, can hold.
pub const IFACE_MAX_ROUTE_COUNT: usize = 4;

/// Number of neighbors, and of pending resolutions, that the neighbor cache
/// can hold.
pub const IFACE_NEIGHBOR_CACHE_COUNT: usize = 3;

/// Number of address prefixes that autoconfiguration can hold.
pub const IFACE_MAX_PREFIX_COUNT: usize = 1;

} // verus!
