use netstack::transport::tcp::TcpSegment;

#[test]
fn tcp_test_serialize() {
    let segment = TcpSegment::new(
        12345,            // source port
        80,               // destination port
        1001,             // sequence number
        2002,             // acknowledgment number
        5,                // header length (HL)
        0,                // reserved field (RCVD)
        0x18,             // control bits
        4096,             // window size
        0,                // urgent pointer
        vec![],           // no options
        vec![1, 2, 3, 4], // payload
    );

    let serialized = segment.serialized();

    // source port (0x3039 => 12345)
    assert_eq!(serialized[0], 0x30);
    assert_eq!(serialized[1], 0x39);

    // destination port (0x0050 => 80)
    assert_eq!(serialized[2], 0x00);
    assert_eq!(serialized[3], 0x50);

    // sequence number (0x000003e9 => 1001)
    assert_eq!(serialized[4], 0x00);
    assert_eq!(serialized[5], 0x00);
    assert_eq!(serialized[6], 0x03);
    assert_eq!(serialized[7], 0xe9);

    // acknowledgment number (0x000007d2 => 2002)
    assert_eq!(serialized[8], 0x00);
    assert_eq!(serialized[9], 0x00);
    assert_eq!(serialized[10], 0x07);
    assert_eq!(serialized[11], 0xd2);

    // header length
    assert_eq!(serialized[12] >> 4, 5);
    assert_eq!(serialized[12] & 0x0f, 0);

    // window size (0x1000 => 4096)
    assert_eq!(serialized[14], 0x10);
    assert_eq!(serialized[15], 0x00);

    // urgent pointer (0)
    assert_eq!(serialized[18], 0x00);
    assert_eq!(serialized[19], 0x00);

    // payload
    assert_eq!(serialized[20..], vec![1, 2, 3, 4]);

    let deserialized = TcpSegment::deserialize(&serialized);

    assert_eq!(deserialized.s_port, segment.s_port);
    assert_eq!(deserialized.d_port, segment.d_port);
    assert_eq!(deserialized.seq, segment.seq);
    assert_eq!(deserialized.ack, segment.ack);
    assert_eq!(deserialized.hl, segment.hl);
    assert_eq!(deserialized.rcvd, segment.rcvd);
    assert_eq!(deserialized.ctrl, segment.ctrl);
    assert_eq!(deserialized.win_size, segment.win_size);
    assert_eq!(deserialized.checksum, segment.checksum);
    assert_eq!(deserialized.ur_ptr, segment.ur_ptr);
    assert_eq!(deserialized.options, segment.options);
    assert_eq!(deserialized.data, segment.data);
}
