//! Core of a routing controller for a multi-channel audio interface.
//!
//! The crate models the declared routing state of the device (capture
//! assignments, mixer entries with their destinations, global and output
//! controls), allocates destination slots for new routes, normalizes both
//! the declared state and the live hardware state into one canonical keyed
//! form, and computes the minimal set of hardware writes that reconciles
//! the two.  Persistence of the declared state is handled by a verified
//! byte codec.  All hardware access (control discovery, reads, writes) is
//! left to a thin unverified shell that exchanges plain values with this
//! crate.

pub mod codec;
pub mod device;
pub mod normal;
pub mod recover;
pub mod state;
