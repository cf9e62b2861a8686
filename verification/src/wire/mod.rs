//! The Neighbor Discovery messages and what they are made of.

use vstd::prelude::*;

pub mod address_laws;
pub mod bytes;
pub mod format_laws;
pub mod hwaddr;
pub mod icmpv6;
pub mod ip;
pub mod ipv6;
pub mod message;
pub mod ndisc;
pub mod ndiscoption;
pub mod option_laws;

verus! {

/// A buffer does not hold what it should.
#[derive(Debug, Clone, Copy, PartialEq, Eq, Structural)]
pub struct Error;

} // verus!
