pub mod icmp_v4;
pub mod ipv4;
