use netstack::net::icmp_v4::IcmpV4;
use netstack::transport::tcp_connection::TcpConnection;

#[test]
fn test_icmp_new_and_serialize() {
    let message = IcmpV4::new(8, 0, vec![1, 2]);
    // Words of the zero-checksum message: 0x0800, 0x0000, 0x0102.
    assert_eq!(message.check_sum, 0x0902);
    assert_eq!(message.serialized(), vec![8, 0, 0x09, 0x02, 1, 2]);
}

#[test]
fn test_icmp_deserialize() {
    let bytes: Vec<u8> = vec![0, 0, 0x12, 0x34, 7, 7, 7, 7];
    let message = IcmpV4::deserialize(&bytes);
    assert_eq!(message.icmp_type, 0);
    assert_eq!(message.code, 0);
    assert_eq!(message.check_sum, 0x1234);
    assert_eq!(message.data, vec![7, 7, 7, 7]);
    assert_eq!(message.serialized(), bytes);
}

#[test]
fn test_icmp_check() {
    assert!(IcmpV4::check(&vec![0, 0, 0, 0]));
    assert!(!IcmpV4::check(&vec![0, 1, 0, 0]));
}

#[test]
fn test_connection_equality() {
    let a = TcpConnection::new(0x0a000001, 80, 0x0a000002, 12345);
    let b = TcpConnection::new(0x0a000001, 80, 0x0a000002, 12345);
    let c = TcpConnection::new(0x0a000001, 81, 0x0a000002, 12345);
    assert!(a == b);
    assert!(a != c);
    TcpConnection::connect();
    TcpConnection::disconnect();
}
