use netstack::utils::stream_reassemble::StreamReassembler;

#[test]
fn test_basic_assembly() {
    let mut reassembler = StreamReassembler::new(100);

    reassembler.recv(&[1, 2, 3], 0, false);
    reassembler.recv(&[4, 5, 6], 3, false);

    assert_eq!(reassembler.view_assembled(), &[1, 2, 3, 4, 5, 6]);
}

#[test]
fn test_buffer_window_full() {
    let mut reassembler = StreamReassembler::new(10);

    reassembler.recv(&[0, 1, 2, 3], 0, false);
    reassembler.recv(&[4, 5, 6], 4, false);
    reassembler.recv(&[7, 8, 9, 10], 7, false); // exceeds the window

    assert_eq!(reassembler.view_assembled(), &[0, 1, 2, 3, 4, 5, 6]);
}

#[test]
fn test_eof_handling() {
    let mut reassembler = StreamReassembler::new(100);

    reassembler.recv(&[1, 2, 3], 0, false);
    reassembler.recv(&[4, 5, 6], 3, true); // end-of-stream flag

    assert_eq!(reassembler.view_assembled(), &[1, 2, 3, 4, 5, 6]);

    assert_eq!(reassembler.eof_idx, 6);
}

#[test]
fn test_merge_unassembled_data() {
    let mut reassembler = StreamReassembler::new(100);

    reassembler.recv(&[0, 1, 2], 0, false);
    reassembler.recv(&[10, 11], 10, false);
    reassembler.recv(&[5, 6], 5, false);
    reassembler.recv(&[7, 8, 9], 7, false);
    reassembler.recv(&[7, 8, 9], 7, false);
    reassembler.recv(&[3, 4], 3, false);
    reassembler.recv(&[15, 16], 15, false);
    reassembler.recv(&[10, 11, 12, 13, 14], 10, false);

    assert_eq!(
        reassembler.view_assembled(),
        &[0, 1, 2, 3, 4, 5, 6, 7, 8, 9, 10, 11, 12, 13, 14, 15, 16]
    );
}

#[test]
fn test_out_of_window_data() {
    let mut reassembler = StreamReassembler::new(10);

    reassembler.recv(&[1, 2, 3], 0, false);
    reassembler.recv(&[4, 5, 6], 10, false); // beyond the window, dropped

    assert_eq!(reassembler.view_assembled(), &[1, 2, 3]);
}

#[test]
fn test_data_merge_with_overlap() {
    let mut reassembler = StreamReassembler::new(100);

    reassembler.recv(&[0, 1, 2, 3, 4], 0, false);
    reassembler.recv(&[5, 6], 5, false);

    assert_eq!(reassembler.view_assembled(), &[0, 1, 2, 3, 4, 5, 6]);
}

#[test]
fn test_duplicate_submission_idempotent() {
    let mut once = StreamReassembler::new(100);
    once.recv(&[9, 8, 7], 5, false);
    once.recv(&[0, 1, 2], 0, true);

    let mut twice = StreamReassembler::new(100);
    twice.recv(&[9, 8, 7], 5, false);
    twice.recv(&[9, 8, 7], 5, false);
    twice.recv(&[0, 1, 2], 0, true);
    twice.recv(&[0, 1, 2], 0, true);

    assert_eq!(once.view_assembled(), twice.view_assembled());
    assert_eq!(once.eof_idx, twice.eof_idx);
    assert_eq!(once.unassembled_window_size(), twice.unassembled_window_size());
}

#[test]
fn test_order_independence() {
    // Any order of the same gapless pieces gives the same stream.
    let pieces: [(&[u8], usize); 4] = [
        (&[0, 1, 2], 0),
        (&[3], 3),
        (&[4, 5], 4),
        (&[6, 7, 8, 9], 6),
    ];
    let orders: [[usize; 4]; 4] = [[0, 1, 2, 3], [3, 2, 1, 0], [1, 3, 0, 2], [2, 0, 3, 1]];
    for order in orders.iter() {
        let mut reassembler = StreamReassembler::new(100);
        for &i in order.iter() {
            let (data, offset) = pieces[i];
            reassembler.recv(data, offset, false);
        }
        assert_eq!(reassembler.get_and_remove_assembled(), vec![0, 1, 2, 3, 4, 5, 6, 7, 8, 9]);
    }
}

#[test]
fn test_capacity_ceiling_and_drain() {
    let mut reassembler = StreamReassembler::new(10);
    reassembler.recv(&[0, 1, 2, 3, 4, 5, 6, 7, 8, 9], 0, false);
    // The buffer is full: nothing more fits.
    assert_eq!(reassembler.unassembled_window_size(), 0);
    reassembler.recv(&[10, 11], 10, false);
    assert_eq!(reassembler.view_assembled().len(), 10);

    // Draining frees the capacity for the next ranges.
    let first = reassembler.get_and_remove_assembled();
    assert_eq!(first, vec![0, 1, 2, 3, 4, 5, 6, 7, 8, 9]);
    assert_eq!(reassembler.unassembled_window_size(), 10);
    reassembler.recv(&[10, 11], 10, false);
    assert_eq!(reassembler.view_assembled(), &[10, 11]);
}

#[test]
fn test_empty_submission_updates_eof_only() {
    let mut reassembler = StreamReassembler::new(100);
    reassembler.recv(&[1, 2], 0, false);
    reassembler.recv(&[], 50, true);
    assert_eq!(reassembler.view_assembled(), &[1, 2]);
    assert_eq!(reassembler.eof_idx, 2);
}

#[test]
fn test_touching_ranges_merge() {
    let mut reassembler = StreamReassembler::new(100);
    reassembler.recv(&[5, 6], 5, false);
    reassembler.recv(&[7, 8], 7, false); // touches the stored range
    reassembler.recv(&[3, 4], 3, false); // touches it from the left
    assert_eq!(reassembler.unassembled_window_size(), 94);
    reassembler.recv(&[0, 1, 2], 0, false);
    assert_eq!(reassembler.view_assembled(), &[0, 1, 2, 3, 4, 5, 6, 7, 8]);
}
