use netstack::utils::trans_bytes;

#[test]
fn test_trans_to_muilt() {
    assert_eq!(
        trans_bytes::multi_bytes_to_bytes_vec(1 as u64),
        vec![0, 0, 0, 0, 0, 0, 0, 1]
    );
    assert_eq!(
        trans_bytes::multi_bytes_vec_to_bytes_vec(&vec![1 as u64, 1 as u64]),
        vec![0, 0, 0, 0, 0, 0, 0, 1, 0, 0, 0, 0, 0, 0, 0, 1]
    )
}

#[test]
fn test_muilt_trans_to() {
    assert_eq!(trans_bytes::bytes_vec_to_muilt_bytes(&[1 as u8, 0 as u8]) as u16, 0x0100);
    assert_eq!(trans_bytes::bytes_vec_to_muilt_bytes_vec_u32(&[1, 0, 1, 0]), vec![0x01000100]);
}

#[test]
fn test_bytes_round_trip() {
    for value in [0u32, 1, 0xdead_beef, u32::MAX] {
        let bytes = trans_bytes::multi_bytes_to_bytes_vec(value);
        assert_eq!(bytes.len(), 4);
        assert_eq!(trans_bytes::bytes_vec_to_muilt_bytes(&bytes) as u32, value);
    }
    let bytes = trans_bytes::multi_bytes_to_bytes_vec(0x0102u16);
    assert_eq!(bytes, vec![1, 2]);
}

#[test]
fn test_word_vec_truncates_fragment() {
    // A trailing fragment shorter than a word is dropped.
    let words = trans_bytes::bytes_vec_to_muilt_bytes_vec_u32(&[0, 0, 0, 5, 9, 9]);
    assert_eq!(words, vec![5]);
}
