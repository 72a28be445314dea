pub mod tcp;
pub mod tcp_connection;
pub mod tcp_receiver;
pub mod tcp_segment;
