use netstack::link::ethernet::EthernetFrame;

#[test]
fn test_new_ethernet() {
    let d_mac: [u8; 6] = [0x12, 0x12, 0x12, 0x12, 0x12, 0x12];
    let s_mac: [u8; 6] = [0x12, 0x12, 0x12, 0x12, 0x12, 0x12];
    let ether_type: u16 = 0x1313;
    let payload = "Hello! I am a test message.Hello! I am a test message.Hello! I am a test message."
        .as_bytes();
    let new_ins = EthernetFrame::new(d_mac, s_mac, ether_type, payload.to_vec());
    println!("<New Instance>:\n {:?}", new_ins);
    println!("<Result Of CRC>: {}", new_ins.generate_fcs());
    println!("<Serialized>: \n {:?}", new_ins.serialized());

    let new_ins1 = EthernetFrame::deserialize(&new_ins.serialized());
    println!("<Deserialized>: \n{:?}", new_ins1);
    println!("<Result Of CRC>: {}", new_ins1.generate_fcs());
    println!("<Check FCS>: \n {:?}", new_ins1.check_fcs());
}

#[test]
fn test_ethernet_round_trip() {
    let d_mac: [u8; 6] = [1, 2, 3, 4, 5, 6];
    let s_mac: [u8; 6] = [7, 8, 9, 10, 11, 12];
    let payload: Vec<u8> = (0u8..60u8).collect();
    let frame = EthernetFrame::new(d_mac, s_mac, 0x0800, payload.clone());
    assert!(frame.check_fcs());

    let bytes = frame.serialized();
    assert_eq!(bytes.len(), 14 + payload.len() + 4);
    assert_eq!(&bytes[0..6], &d_mac);
    assert_eq!(&bytes[6..12], &s_mac);
    assert_eq!(bytes[12], 0x08);
    assert_eq!(bytes[13], 0x00);
    assert_eq!(&bytes[14..14 + payload.len()], payload.as_slice());

    let back = EthernetFrame::deserialize(&bytes);
    assert_eq!(back.d_mac, d_mac);
    assert_eq!(back.s_mac, s_mac);
    assert_eq!(back.ether_type, 0x0800);
    assert_eq!(back.payload, payload);
    assert_eq!(back.fcs, frame.fcs);
    assert!(back.check_fcs());
}

#[test]
fn test_corrupted_frame_fails_fcs() {
    let payload: Vec<u8> = vec![0xAA; 46];
    let frame = EthernetFrame::new([0; 6], [0xFF; 6], 0x0806, payload);
    let mut bytes = frame.serialized();
    bytes[20] ^= 0x01;
    let back = EthernetFrame::deserialize(&bytes);
    assert!(!back.check_fcs());
}
