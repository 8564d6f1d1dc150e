//! TCP half-open scan. It needs raw sockets, which this library does not
//! use: the scan probes nothing and reports nothing.

use crate::results::ScanResult;
use crate::scanners::PortRange;
use vstd::prelude::*;

verus! {

/// A scan that would probe with half-open connections.
#[derive(Debug, Clone, Copy, PartialEq, Eq, Structural)]
pub struct TcpHalfOpenScan;

impl TcpHalfOpenScan {
    /// The results of the scan over `range`: none, whatever the range.
    pub fn scan(&self, range: &PortRange) -> (results: Vec<ScanResult>)
        ensures
            results@ == Seq::<ScanResult>::empty(),
    {
        Vec::new()
    }
}

} // verus!
