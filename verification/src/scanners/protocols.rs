//! What each protocol's probe makes of the signals its socket gives.

pub mod tcp;
pub mod udp;

pub use tcp::TcpScanner;
pub use udp::UdpScanner;
