//! The state that a host keeps of its neighbors and routers.

pub mod cache_laws;
pub mod neighbor;
pub mod ownership;
pub mod properties;
pub mod route;
pub mod slaac;
pub mod route_laws;
pub mod selection;
pub mod slaac_laws;
