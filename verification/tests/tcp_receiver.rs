use netstack::transport::tcp_receiver::TcpReceiver;
use netstack::transport::tcp_segment::{TcpCtrlFlag, TcpSegment};

fn segment(seq: u32, ctrl: u16, data: Vec<u8>) -> TcpSegment {
    TcpSegment::new(1000, 80, seq, 0, 5, 0, ctrl, 4096, 0, vec![], data)
}

#[test]
fn test_syn_gating() {
    // A non-SYN segment to a fresh receiver changes nothing.
    let mut receiver = TcpReceiver::new(0, 100);
    let ack_before = receiver.ack_num();
    let window_before = receiver.window_size();

    receiver.segment_received(&segment(42, 0, vec![1, 2, 3]));

    assert_eq!(receiver.ack_num(), ack_before);
    assert_eq!(receiver.window_size(), window_before);
    assert_eq!(window_before, 100);
}

#[test]
fn test_receive_in_order() {
    let mut receiver = TcpReceiver::new(0, 100);
    let initial_seq = 500u32;

    // The establishing SYN fixes the initial sequence number.
    let mut syn = segment(initial_seq, 0, vec![]);
    syn.update_ctrl(&TcpCtrlFlag::SYN, true);
    receiver.segment_received(&syn);
    assert_eq!(receiver.ack_num(), initial_seq);

    // Data at the initial sequence number advances the frontier.
    receiver.segment_received(&segment(initial_seq, 0, vec![1, 2, 3]));
    assert_eq!(receiver.ack_num(), initial_seq.wrapping_add(3));
    assert_eq!(receiver.window_size(), 97);

    receiver.segment_received(&segment(initial_seq.wrapping_add(3), 0, vec![4, 5, 6]));
    assert_eq!(receiver.ack_num(), initial_seq.wrapping_add(6));
    assert_eq!(receiver.window_size(), 94);
}

#[test]
fn test_receive_out_of_order() {
    let mut receiver = TcpReceiver::new(0, 100);
    let initial_seq = u32::MAX - 1; // the stream wraps the sequence space

    receiver.segment_received(&segment(initial_seq, 0x010, vec![]));
    assert_eq!(receiver.ack_num(), initial_seq);

    // A gap: the range is buffered, the frontier stays.
    receiver.segment_received(&segment(initial_seq.wrapping_add(3), 0, vec![4, 5, 6]));
    assert_eq!(receiver.ack_num(), initial_seq);
    assert_eq!(receiver.window_size(), 97);

    // Filling the gap advances past both ranges.
    receiver.segment_received(&segment(initial_seq, 0, vec![1, 2, 3]));
    assert_eq!(receiver.ack_num(), initial_seq.wrapping_add(6));
    assert_eq!(receiver.window_size(), 94);
}

#[test]
fn test_translator_round_trip_values() {
    for init in [0u32, 1, 0x8000_0000, u32::MAX] {
        for a in [0u64, 1, 0xffff_fffe, 0x1_0000_0000, 0x2_3456_789a] {
            let rel = TcpReceiver::abs_offset_to_rel(init, a);
            assert_eq!(TcpReceiver::rel_offset_to_abs(init, rel, a), a);
        }
    }
}

#[test]
fn test_translator_resolves_above_reference() {
    // The resolved offset is the unique congruent value within one wrap
    // above the reference point.
    let init = 7u32;
    let abs = TcpReceiver::rel_offset_to_abs(init, 5, 0x1_0000_0000);
    assert_eq!(abs, 0x1_0000_0000 + (5u64.wrapping_sub(7) & 0xffff_ffff));
}
