//! A small user-space network stack: Ethernet framing with a CRC-32 frame
//! check sequence, IPv4 and ICMP datagram layouts, TCP segment layout, and a
//! verified TCP receive path built around a stream reassembler that turns
//! reordered, overlapping segments back into one in-order byte stream.

pub mod link;
pub mod net;
pub mod transport;
pub mod utils;
