use yaq_r::codec::DecodeError;
use yaq_r::frame::decode_frame;
use yaq_r::frame::encode_frame;
use yaq_r::frame::encode_frame_checked;
use yaq_r::frame::header_len;

#[test]
fn frame_round_trip_empty() {
    let payload: Vec<u8> = Vec::new();
    let framed = encode_frame(&payload);
    assert_eq!(framed, vec![0, 0, 0, 0]);
    let (back, used) = decode_frame(&framed).unwrap();
    assert_eq!(back, payload);
    assert_eq!(used, 4);
}

#[test]
fn frame_round_trip_single_byte() {
    let payload = vec![0xabu8];
    let framed = encode_frame(&payload);
    assert_eq!(framed, vec![0, 0, 0, 1, 0xab]);
    let (back, used) = decode_frame(&framed).unwrap();
    assert_eq!(back, payload);
    assert_eq!(used, 5);
}

#[test]
fn frame_round_trip_large_payload() {
    // larger than 64 KiB, so the length needs the upper header bytes
    let payload: Vec<u8> = (0..70000u32).map(|i| (i % 251) as u8).collect();
    let framed = encode_frame(&payload);
    assert_eq!(framed.len(), 4 + 70000);
    assert_eq!(header_len(&framed), 70000);
    let (back, used) = decode_frame(&framed).unwrap();
    assert_eq!(back, payload);
    assert_eq!(used, 4 + 70000);
}

#[test]
fn truncated_frame_is_an_error() {
    // a length prefix of 100 followed by only 50 payload bytes
    let mut bytes = vec![0u8, 0, 0, 100];
    bytes.extend_from_slice(&[7u8; 50]);
    assert_eq!(decode_frame(&bytes), Err(DecodeError::UnexpectedEnd));
}

#[test]
fn header_alone_is_an_error() {
    let bytes = vec![0u8, 0, 0];
    assert_eq!(decode_frame(&bytes), Err(DecodeError::UnexpectedEnd));
}

#[test]
fn checked_framing_accepts_ordinary_payloads() {
    let payload = vec![1u8, 2, 3];
    let framed = encode_frame_checked(&payload).unwrap();
    assert_eq!(framed, vec![0, 0, 0, 3, 1, 2, 3]);
}
