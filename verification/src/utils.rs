pub mod checksum;
pub mod stream_reassemble;
pub mod trans_bytes;
