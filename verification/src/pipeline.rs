//! The three pipeline stages as interfaces: a monitor that blocks
//! until the network configuration changed, a calculator that turns
//! the connections into a split view of the DNS namespace, and a
//! backend that installs that view in a resolver.  The process around
//! the library supplies the implementations that talk to the bus and
//! the resolver.

use vstd::prelude::*;
use crate::connection::Connections;

verus! {

/// How the backend resolver should split the DNS namespace.
pub struct SplitView {}

/// First stage: blocks until the set of active connections changed
/// and returns the new connections.
pub trait NetworkMonitor {
    fn wait_for_connections(&mut self) -> Connections;
}

/// Second stage: derives the split view from the connections.
pub trait SplitViewCalculator {
    fn calc(connections: Connections) -> SplitView;
}

/// Third stage: installs a split view in the backend resolver.
pub trait Backend {
    fn set(view: SplitView) -> Result<(), ()>;
}

} // verus!
