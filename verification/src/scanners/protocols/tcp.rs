//! TCP connect probe: one bounded attempt to complete a handshake.
//!
//! The caller attempts the connection, closes it at once if it was
//! established, and reports how the attempt ended.

use crate::results::PortState;
use crate::scanners::worker::Worker;
use crate::scanners::{PortRange, ScanProtocol};
use vstd::prelude::*;

verus! {

/// How an attempt to connect to a port ended.
#[derive(Debug, Clone, Copy, PartialEq, Eq, Structural)]
pub enum ConnectOutcome {
    /// The handshake completed.
    Established,
    /// The remote host refused the connection.
    Refused,
    /// Anything else: the timeout ran out, the host could not be reached,
    /// or the network gave another error.
    Failed,
}

/// The state a TCP connect probe assigns to a port: open when the handshake
/// completed, closed when the connection was refused, filtered otherwise.
pub open spec fn connect_state(outcome: ConnectOutcome) -> PortState {
    match outcome {
        ConnectOutcome::Established => PortState::Open,
        ConnectOutcome::Refused => PortState::Closed,
        ConnectOutcome::Failed => PortState::Filtered,
    }
}

/// Scans with TCP connect probes.
#[derive(Debug, Clone, Copy, PartialEq, Eq, Structural)]
pub struct TcpScanner;

impl TcpScanner {
    /// The protocol under which the scanner's results are filed.
    pub fn protocol(&self) -> (protocol: ScanProtocol)
        ensures
            protocol == ScanProtocol::Tcp,
    {
        ScanProtocol::Tcp
    }

    /// The state of a port whose connection attempt ended in `outcome`.
    pub fn classify(&self, outcome: ConnectOutcome) -> (state: PortState)
        ensures
            state == connect_state(outcome),
    {
        match outcome {
            ConnectOutcome::Established => PortState::Open,
            ConnectOutcome::Refused => PortState::Closed,
            ConnectOutcome::Failed => PortState::Filtered,
        }
    }

    /// A worker that files TCP results for the ports of `chunk`.
    pub fn worker(&self, chunk: PortRange) -> (worker: Worker)
        ensures
            worker.wf(),
            worker.protocol_spec() == ScanProtocol::Tcp,
            worker.chunk_spec() == chunk,
            worker.outcomes() == Seq::<Option<PortState>>::empty(),
            worker.results_spec() == Seq::<crate::results::ScanResult>::empty(),
    {
        Worker::new(ScanProtocol::Tcp, chunk)
    }
}

} // verus!
