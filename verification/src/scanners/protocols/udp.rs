//! UDP probe: one empty datagram, and a bounded wait for what comes back.
//!
//! Each worker binds one socket and probes all its ports through it. For
//! every port the caller sends the datagram and then receives until the
//! probe is decided, handing each event to `UdpScanner::react`.
//!
//! Silence is the common case: most services ignore an empty datagram, so a
//! port that stays silent is filtered, neither open nor closed.

use crate::results::PortState;
use crate::scanners::worker::Worker;
use crate::scanners::{Endpoint, HostAddr, PortRange, ScanProtocol};
use vstd::prelude::*;

verus! {

/// What happened while a port was probed.
#[derive(Debug, Clone, Copy, PartialEq, Eq, Structural)]
pub enum UdpEvent {
    /// The target gave no socket address to send to.
    Unresolved,
    /// The datagram could not be sent.
    SendFailed,
    /// A datagram arrived from `from`.
    Datagram { from: Endpoint },
    /// The wait ran out and nothing arrived.
    TimedOut,
    /// The socket reported a reset: the host answered that no one listens on
    /// the port.
    Unreachable,
    /// The socket gave any other error.
    Failed,
}

/// What to do after an event.
#[derive(Debug, Clone, Copy, PartialEq, Eq, Structural)]
pub enum UdpStep {
    /// The probe is not decided: receive again.
    Wait,
    /// The probe is decided: the port has this state.
    Report(PortState),
    /// The probe could not be carried out: the port gets no result.
    Skip,
}

/// What a UDP probe of `target` makes of `event`.
///
/// A datagram from the target means the port is open; one from anywhere else
/// says nothing of it. Silence until the timeout means filtered, a reset
/// means closed. A target without address, a failed send and any other error
/// leave the port without result.
pub open spec fn udp_step(target: Endpoint, event: UdpEvent) -> UdpStep {
    match event {
        UdpEvent::Datagram { from } => if from == target {
            UdpStep::Report(PortState::Open)
        } else {
            UdpStep::Wait
        },
        UdpEvent::TimedOut => UdpStep::Report(PortState::Filtered),
        UdpEvent::Unreachable => UdpStep::Report(PortState::Closed),
        UdpEvent::Unresolved => UdpStep::Skip,
        UdpEvent::SendFailed => UdpStep::Skip,
        UdpEvent::Failed => UdpStep::Skip,
    }
}

/// The local endpoint a worker binds its socket to: any address of the
/// target's family, and a port for the system to choose.
pub open spec fn local_endpoint(target: HostAddr) -> Endpoint {
    match target {
        HostAddr::V4(_) => Endpoint { host: HostAddr::V4(0), port: 0 },
        HostAddr::V6(_) => Endpoint { host: HostAddr::V6(0), port: 0 },
    }
}

/// Scans with UDP probes.
#[derive(Debug, Clone, Copy, PartialEq, Eq, Structural)]
pub struct UdpScanner;

impl UdpScanner {
    /// The protocol under which the scanner's results are filed.
    pub fn protocol(&self) -> (protocol: ScanProtocol)
        ensures
            protocol == ScanProtocol::Udp,
    {
        ScanProtocol::Udp
    }

    /// The local endpoint to bind a worker's socket to for probing `target`.
    pub fn bind_endpoint(&self, target: &HostAddr) -> (local: Endpoint)
        ensures
            local == local_endpoint(*target),
    {
        match target {
            HostAddr::V4(_) => Endpoint { host: HostAddr::V4(0), port: 0 },
            HostAddr::V6(_) => Endpoint { host: HostAddr::V6(0), port: 0 },
        }
    }

    /// What to do after `event` while probing `target`.
    pub fn react(&self, target: &Endpoint, event: &UdpEvent) -> (step: UdpStep)
        ensures
            step == udp_step(*target, *event),
    {
        match event {
            UdpEvent::Datagram { from } => {
                if *from == *target {
                    UdpStep::Report(PortState::Open)
                } else {
                    UdpStep::Wait
                }
            },
            UdpEvent::TimedOut => UdpStep::Report(PortState::Filtered),
            UdpEvent::Unreachable => UdpStep::Report(PortState::Closed),
            UdpEvent::Unresolved => UdpStep::Skip,
            UdpEvent::SendFailed => UdpStep::Skip,
            UdpEvent::Failed => UdpStep::Skip,
        }
    }

    /// A worker that files UDP results for the ports of `chunk`.
    pub fn worker(&self, chunk: PortRange) -> (worker: Worker)
        ensures
            worker.wf(),
            worker.protocol_spec() == ScanProtocol::Udp,
            worker.chunk_spec() == chunk,
            worker.outcomes() == Seq::<Option<PortState>>::empty(),
            worker.results_spec() == Seq::<crate::results::ScanResult>::empty(),
    {
        Worker::new(ScanProtocol::Udp, chunk)
    }
}

} // verus!
