use netstack::transport::tcp_segment::{TcpCtrlFlag, TcpSegment};

#[test]
fn tcp_segment_test_serialize() {
    let mut segment = TcpSegment::new(
        12345,            // source port
        80,               // destination port
        1001,             // sequence number
        2002,             // acknowledgment number
        5,                // header length (HL)
        0,                // reserved field (RCVD)
        0x12,             // control bits (SYN + ACK)
        4096,             // window size
        0,                // urgent pointer
        vec![],           // no options
        vec![1, 2, 3, 4], // payload
    );

    let serialized = segment.serialized();

    // source port (0x3039 => 12345)
    assert_eq!(serialized[0], 0x30);
    assert_eq!(serialized[1], 0x39);

    // destination port (0x0050 => 80)
    assert_eq!(serialized[2], 0x00);
    assert_eq!(serialized[3], 0x50);

    // sequence number (0x000003e9 => 1001)
    assert_eq!(serialized[4], 0x00);
    assert_eq!(serialized[5], 0x00);
    assert_eq!(serialized[6], 0x03);
    assert_eq!(serialized[7], 0xe9);

    // acknowledgment number (0x000007d2 => 2002)
    assert_eq!(serialized[8], 0x00);
    assert_eq!(serialized[9], 0x00);
    assert_eq!(serialized[10], 0x07);
    assert_eq!(serialized[11], 0xd2);

    // header length and reserved bits
    assert_eq!(serialized[12] >> 4, 5);
    assert_eq!((serialized[12] >> 1) & 0b0000_0111, 0);

    // control field
    assert_eq!((((serialized[12] & 1) as u16) << 8) + (serialized[13] as u16), 0x12);
    assert!(segment.SYN());
    segment.update_ctrl(&TcpCtrlFlag::SYN, false);
    assert!(!segment.SYN());
    segment.update_ctrl(&TcpCtrlFlag::SYN, true);

    // window size (0x1000 => 4096)
    assert_eq!(serialized[14], 0x10);
    assert_eq!(serialized[15], 0x00);

    // urgent pointer (0)
    assert_eq!(serialized[18], 0x00);
    assert_eq!(serialized[19], 0x00);

    // payload
    assert_eq!(serialized[20..], vec![1, 2, 3, 4]);

    let deserialized = TcpSegment::deserialize(&serialized);

    assert_eq!(deserialized.s_port, segment.s_port);
    assert_eq!(deserialized.d_port, segment.d_port);
    assert_eq!(deserialized.seq, segment.seq);
    assert_eq!(deserialized.ack, segment.ack);
    assert_eq!(deserialized.hl, segment.hl);
    assert_eq!(deserialized.rcvd, segment.rcvd);
    assert_eq!(deserialized.ctrl, segment.ctrl);
    assert_eq!(deserialized.win_size, segment.win_size);
    assert_eq!(deserialized.checksum, segment.checksum);
    assert_eq!(deserialized.ur_ptr, segment.ur_ptr);
    assert_eq!(deserialized.options, segment.options);
    assert_eq!(deserialized.data, segment.data);
}

#[test]
fn tcp_segment_flag_accessors() {
    let mut segment = TcpSegment::new(1, 2, 0, 0, 5, 0, 0, 0, 0, vec![], vec![]);
    assert!(!segment.URG());
    assert!(!segment.ACK());
    assert!(!segment.PSH());
    assert!(!segment.RST());
    assert!(!segment.SYN());
    assert!(!segment.FIN());
    assert!(!segment.ECE());
    assert!(!segment.CWR());
    assert!(!segment.NS());

    segment.update_ctrl(&TcpCtrlFlag::FIN, true);
    segment.update_ctrl(&TcpCtrlFlag::NS, true);
    assert!(segment.FIN());
    assert!(segment.NS());
    assert_eq!(segment.ctrl, 0x120);

    segment.update_ctrl(&TcpCtrlFlag::FIN, false);
    assert!(!segment.FIN());
    assert!(segment.NS());
}

#[test]
fn tcp_segment_options_serialize() {
    let segment = TcpSegment::new(
        1,
        2,
        3,
        4,
        6,
        0,
        0,
        512,
        0,
        vec![0x01020304],
        vec![9],
    );
    let hdr = segment.serialized_hdr();
    assert_eq!(hdr.len(), 24);
    assert_eq!(&hdr[20..24], &[1, 2, 3, 4]);

    let full = segment.serialized();
    let deserialized = TcpSegment::deserialize(&full);
    assert_eq!(deserialized.options, vec![0x01020304]);
    assert_eq!(deserialized.data, vec![9]);
}
