//! The scans a caller can choose from.

use crate::scanners::ScanProtocol;
use vstd::prelude::*;

pub use crate::scanners::strategies::{TcpConnectScan, TcpHalfOpenScan, UdpScan};
pub use crate::scanners::PortRange;

verus! {

/// A way of scanning, chosen once when a scan is set up.
#[derive(Debug, Clone, Copy, PartialEq, Eq, Structural)]
pub enum ScanStrategy {
    /// Half-open TCP connections.
    TcpHalfOpen,
    /// Full TCP connections.
    TcpConnect,
    /// UDP datagrams.
    Udp,
}

impl ScanStrategy {
    /// The protocol under which the strategy's results are filed.
    pub open spec fn protocol_spec(self) -> ScanProtocol {
        match self {
            ScanStrategy::TcpHalfOpen => ScanProtocol::Tcp,
            ScanStrategy::TcpConnect => ScanProtocol::Tcp,
            ScanStrategy::Udp => ScanProtocol::Udp,
        }
    }

    /// The strategy that probes with full connections or datagrams of `protocol`.
    pub open spec fn for_protocol_spec(protocol: ScanProtocol) -> ScanStrategy {
        match protocol {
            ScanProtocol::Tcp => ScanStrategy::TcpConnect,
            ScanProtocol::Udp => ScanStrategy::Udp,
        }
    }

    /// The protocol under which the strategy's results are filed.
    pub fn protocol(&self) -> (protocol: ScanProtocol)
        ensures
            protocol == self.protocol_spec(),
    {
        match self {
            ScanStrategy::TcpHalfOpen => ScanProtocol::Tcp,
            ScanStrategy::TcpConnect => ScanProtocol::Tcp,
            ScanStrategy::Udp => ScanProtocol::Udp,
        }
    }

    /// The strategy a scan of `protocol` uses.
    pub fn for_protocol(protocol: ScanProtocol) -> (strategy: ScanStrategy)
        ensures
            strategy == Self::for_protocol_spec(protocol),
            strategy.protocol_spec() == protocol,
    {
        match protocol {
            ScanProtocol::Tcp => ScanStrategy::TcpConnect,
            ScanProtocol::Udp => ScanStrategy::Udp,
        }
    }
}

} // verus!
