//! UDP scan in a single pass.

use crate::results::{PortState, ScanResult};
use crate::scanners::protocols::udp::{udp_step, UdpEvent, UdpScanner, UdpStep};
use crate::scanners::worker::Worker;
use crate::scanners::{Endpoint, PortRange, ScanProtocol};
use vstd::prelude::*;

verus! {

/// How long a single-pass scan waits for an answer from one port, in milliseconds.
pub const RECEIVE_TIMEOUT_MS: u64 = 25;

/// Probes every port of a range with a UDP datagram, one after the other.
#[derive(Debug, Clone, Copy, PartialEq, Eq, Structural)]
pub struct UdpScan;

impl UdpScan {
    /// The one worker of the scan: it goes through the whole of `range`.
    pub fn worker(&self, range: &PortRange) -> (worker: Worker)
        ensures
            worker.wf(),
            worker.protocol_spec() == ScanProtocol::Udp,
            worker.chunk_spec() == *range,
            worker.outcomes() == Seq::<Option<PortState>>::empty(),
            worker.results_spec() == Seq::<ScanResult>::empty(),
    {
        Worker::new(ScanProtocol::Udp, *range)
    }

    /// What to do after `event` while probing `target`. A single-pass scan
    /// reads the events as a scan with several workers does.
    pub fn react(&self, target: &Endpoint, event: &UdpEvent) -> (step: UdpStep)
        ensures
            step == udp_step(*target, *event),
    {
        UdpScanner.react(target, event)
    }
}

} // verus!
