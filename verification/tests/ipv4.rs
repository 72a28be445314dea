use netstack::net::ipv4::Ipv4Datagram;
use netstack::utils::checksum;

#[test]
fn test_deserialize_valid_ipv4() {
    let bytes: Vec<u8> = vec![
        0x45, // version, ihl
        0x00, // tos
        0x00, 0x3c, // toltal_len
        0x1c, 0x46, // id
        0b00000100, 0x00, // flag, frag_offset
        0x40, // ttl
        0x06, // protocol
        0x7a, 0x7a, // checksum
        0x0a, 0x00, 0x00, 0x01, // s_addr
        0x0a, 0x00, 0x00, 0x02, // d_addr
        0x00, 0x00, 0x00, 0x00, 0x00, 0x00, 0x00, 0x00, 0x00, 0x00,
    ];

    let datagram = Ipv4Datagram::deserialize(bytes);
    assert_eq!(datagram.version, 4);
    assert_eq!(datagram.ihl, 5);
    assert_eq!(datagram.tos, 0);
    assert_eq!(datagram.toltal_len, 60);
    assert_eq!(datagram.id, 0x1c46);
    assert_eq!(datagram.flag, 0);
    assert_eq!(datagram.frag_offset, 1024);
    assert_eq!(datagram.ttl, 64);
    assert_eq!(datagram.protocol, 6); // TCP
    assert_eq!(datagram.s_addr, 0x0a000001); // 10.0.0.1
    assert_eq!(datagram.d_addr, 0x0a000002); // 10.0.0.2
}

#[test]
fn test_generate_checksum_valid() {
    let bytes: Vec<u8> = vec![
        0x50, 0x00, 0xb0, 0x3c, 0x50, 0x00, 0xb0, 0x3c, 0x50, 0x00, 0xb0, 0x3c, 0x50, 0x00, 0xb0,
        0x3c, 0x50, 0x00, 0xb0, 0x3c,
    ];

    let checksum = checksum::generate_checksum(&bytes);
    assert_eq!(checksum, 0xFECE);
}

#[test]
fn test_checksum_check() {
    // A word string whose ones'-complement sum is 0xffff checks out.
    let bytes: Vec<u8> = vec![0x12, 0x34, 0xed, 0xcb];
    assert!(checksum::check(&bytes));
    let bytes2: Vec<u8> = vec![0x12, 0x34, 0xed, 0xca];
    assert!(!checksum::check(&bytes2));
}

#[test]
fn test_ipv4_new_header_bytes() {
    let datagram = Ipv4Datagram::new(4, 5, 0, 40, 1, 0, 0, 64, 6, 0x0a000001, 0x0a000002, vec![]);
    let hdr = datagram.serialized_hdr();
    assert_eq!(hdr.len(), 16);
    assert_eq!(hdr[0], 0x45);
    assert_eq!(hdr[2], 0x00);
    assert_eq!(hdr[3], 40);
    // The stored checksum makes the serialized prefix sum to 0xffff.
    assert!(checksum::check(&hdr));
}
