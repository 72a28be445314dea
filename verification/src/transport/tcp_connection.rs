//! The four-tuple that names one TCP connection.

use vstd::prelude::*;

verus! {

/// Source and destination endpoints of one connection.  Two values are
/// equal exactly when all four fields agree.
#[derive(PartialEq, Eq, Structural)]
pub struct TcpConnection {
    pub s_ip: u32,
    pub s_port: u16,
    pub d_ip: u32,
    pub d_port: u16,
}

impl TcpConnection {
    /// A connection between the given endpoints.
    pub fn new(s_ip: u32, s_port: u16, d_ip: u32, d_port: u16) -> (r: TcpConnection)
        ensures
            r == (TcpConnection { s_ip, s_port, d_ip, d_port }),
    {
        TcpConnection { s_ip, s_port, d_ip, d_port }
    }

    /// Connection establishment is lifecycle bookkeeping outside this
    /// library's receive path; the call does nothing.
    pub fn connect() {
    }

    /// Connection teardown is lifecycle bookkeeping outside this library's
    /// receive path; the call does nothing.
    pub fn disconnect() {
    }
}

} // verus!
