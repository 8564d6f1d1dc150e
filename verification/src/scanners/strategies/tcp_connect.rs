//! TCP connect scan in a single pass.

use crate::results::{PortState, ScanResult};
use crate::scanners::protocols::tcp::{connect_state, ConnectOutcome};
use crate::scanners::worker::Worker;
use crate::scanners::{PortRange, ScanProtocol};
use vstd::prelude::*;

verus! {

/// How long one connection attempt of a single-pass scan may take, in milliseconds.
pub const CONNECT_TIMEOUT_MS: u64 = 250;

/// Probes every port of a range with a TCP connection attempt, one after the other.
#[derive(Debug, Clone, Copy, PartialEq, Eq, Structural)]
pub struct TcpConnectScan;

impl TcpConnectScan {
    /// The one worker of the scan: it goes through the whole of `range`.
    pub fn worker(&self, range: &PortRange) -> (worker: Worker)
        ensures
            worker.wf(),
            worker.protocol_spec() == ScanProtocol::Tcp,
            worker.chunk_spec() == *range,
            worker.outcomes() == Seq::<Option<PortState>>::empty(),
            worker.results_spec() == Seq::<ScanResult>::empty(),
    {
        Worker::new(ScanProtocol::Tcp, *range)
    }

    /// The state of a port whose connection attempt ended in `outcome`.
    pub fn classify(&self, outcome: ConnectOutcome) -> (state: PortState)
        ensures
            state == connect_state(outcome),
    {
        match outcome {
            ConnectOutcome::Established => PortState::Open,
            ConnectOutcome::Refused => PortState::Closed,
            ConnectOutcome::Failed => PortState::Filtered,
        }
    }
}

} // verus!
