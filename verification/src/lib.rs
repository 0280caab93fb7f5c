//! Split-horizon DNS configuration library.
//!
//! The crate models a host's active network connections, derives the
//! forward and reverse DNS zones that should be answered by internal
//! nameservers, drives a debounce state machine over change
//! notifications from the system bus, and renders the control commands
//! understood by the resolver backend.  All logic is verified; the
//! surrounding process (sockets, the bus session, argument handling)
//! lives outside the library and exchanges plain values with it.

pub mod addr;
pub mod backend;
pub mod connection;
pub mod monitor;
pub mod pipeline;
pub mod probe;
pub mod text;
pub mod zones;
