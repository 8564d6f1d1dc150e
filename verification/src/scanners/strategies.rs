//! Scans that go through the whole range in one pass, port after port.

pub mod tcp_connect;
pub mod tcp_half_open;
pub mod udp;

pub use tcp_connect::TcpConnectScan;
pub use tcp_half_open::TcpHalfOpenScan;
pub use udp::UdpScan;
