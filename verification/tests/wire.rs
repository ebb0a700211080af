use khameleon::wire::{
    block_bytes, decimal_bytes, decode_envelope, envelope, envelope_of_bytes, frame_dispatch,
    split_chunks, Envelope,
};

#[test]
fn envelope_is_laid_out_bit_exact() {
    let bytes = envelope(0x0102_0304, 7, "ab", &vec![9, 8]);
    assert_eq!(
        bytes,
        vec![4, 3, 2, 1, 7, 0, 0, 0, 2, 0, 0, 0, 0, 0, 0, 0, b'a', b'b', 9, 8]
    );
    assert_eq!(envelope_of_bytes(0x0102_0304, 7, &b"ab".to_vec(), &vec![9, 8]), bytes);
}

#[test]
fn envelope_round_trips() {
    let payload: Vec<u8> = (0..=255).collect();
    let key = "{\"x\":3,\"y\":14}";
    let bytes = envelope(41, 50, key, &payload);
    assert_eq!(
        decode_envelope(&bytes),
        Some(Envelope { block_id: 41, nblocks: 50, key: key.as_bytes().to_vec(), payload })
    );
    let empty = envelope(u32::MAX, 0, "", &vec![]);
    assert_eq!(
        decode_envelope(&empty),
        Some(Envelope { block_id: u32::MAX, nblocks: 0, key: vec![], payload: vec![] })
    );
}

#[test]
fn a_key_of_several_bytes_per_character_round_trips() {
    let key = "bl\u{00e5}b\u{00e6}r";
    let bytes = envelope(1, 2, key, &vec![7]);
    let read = decode_envelope(&bytes).unwrap();
    assert_eq!(read.key, key.as_bytes().to_vec());
    assert_eq!(read.key.len(), 8);
    assert_eq!(read.payload, vec![7]);
}

#[test]
fn short_or_cut_envelopes_are_refused() {
    assert_eq!(decode_envelope(&vec![]), None);
    assert_eq!(decode_envelope(&vec![0; 15]), None);
    let mut bytes = envelope(1, 2, "abc", &vec![]);
    bytes.pop();
    assert_eq!(decode_envelope(&bytes), None);
}

#[test]
fn block_payload_is_number_then_sized_content() {
    assert_eq!(block_bytes(3, &vec![5, 6]), vec![3, 0, 0, 0, 2, 0, 0, 0, 0, 0, 0, 0, 5, 6]);
}

#[test]
fn dispatch_number_goes_first() {
    assert_eq!(frame_dispatch(258, vec![1, 2, 3]), vec![2, 1, 0, 0, 1, 2, 3]);
}

#[test]
fn decimal_digits() {
    assert_eq!(decimal_bytes(0), b"0".to_vec());
    assert_eq!(decimal_bytes(7), b"7".to_vec());
    assert_eq!(decimal_bytes(10), b"10".to_vec());
    assert_eq!(decimal_bytes(9_876_543_210), b"9876543210".to_vec());
    assert_eq!(decimal_bytes(usize::MAX), usize::MAX.to_string().into_bytes());
}

#[test]
fn chunks_leave_out_what_does_not_fill_one() {
    let img: Vec<u8> = (0..10).collect();
    assert_eq!(split_chunks(&img, 4), vec![vec![0, 1, 2, 3], vec![4, 5, 6, 7]]);
    assert_eq!(split_chunks(&img, 5), vec![vec![0, 1, 2, 3, 4], vec![5, 6, 7, 8, 9]]);
    assert_eq!(split_chunks(&img, 10), vec![img.clone()]);
    assert_eq!(split_chunks(&img, 1000), vec![img.clone()]);
}
