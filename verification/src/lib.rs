//! A relay that gives a sandboxed workload a private Ethernet-layer network
//! shared with remote peers.
//!
//! The workload's traffic arrives as an arbitrarily chunked byte stream in a
//! length-prefixed wire format; [`codec`] turns it back into discrete frames.
//! [`topology`] keeps the registry of virtual networks and their peer
//! memberships and resolves destination addresses to remote routing
//! endpoints.  [`frame`] classifies a decoded link-layer frame and decides
//! where it must be forwarded.  [`relay`] ties the three together into a
//! controller with an explicit lifecycle; the surrounding process performs
//! the actual socket reads and remote calls that the controller requests.

pub mod addr;
pub mod codec;
pub mod config;
pub mod frame;
pub mod relay;
pub mod topology;
