use yaq_r::codec::read_long;
use yaq_r::codec::write_long;
use yaq_r::codec::DecodeError;

fn long_bytes(n: i64) -> Vec<u8> {
    let mut buf = Vec::new();
    write_long(&mut buf, n);
    buf
}

#[test]
fn zigzag_long_known_bytes() {
    // the exact byte patterns independent Avro implementations produce
    assert_eq!(long_bytes(0), vec![0x00]);
    assert_eq!(long_bytes(-1), vec![0x01]);
    assert_eq!(long_bytes(1), vec![0x02]);
    assert_eq!(long_bytes(-64), vec![0x7f]);
    assert_eq!(long_bytes(64), vec![0x80, 0x01]);
    assert_eq!(long_bytes(-65), vec![0x81, 0x01]);
    assert_eq!(
        long_bytes(i64::MAX),
        vec![0xfe, 0xff, 0xff, 0xff, 0xff, 0xff, 0xff, 0xff, 0xff, 0x01]
    );
    assert_eq!(
        long_bytes(i64::MIN),
        vec![0xff, 0xff, 0xff, 0xff, 0xff, 0xff, 0xff, 0xff, 0xff, 0x01]
    );
}

#[test]
fn long_round_trips_extremes() {
    for n in [0i64, 1, -1, 63, 64, -64, -65, 1000000, -1000000, i64::MAX, i64::MIN] {
        let bytes = long_bytes(n);
        let (back, used) = read_long(&bytes, 0).unwrap();
        assert_eq!(back, n);
        assert_eq!(used, bytes.len());
    }
}

#[test]
fn varint_overflow_is_rejected() {
    // eleven continuation payloads put the value far past 64 bits
    let bytes = vec![0xffu8, 0xff, 0xff, 0xff, 0xff, 0xff, 0xff, 0xff, 0xff, 0xff, 0x01];
    assert_eq!(read_long(&bytes, 0), Err(DecodeError::Overflow));
}

#[test]
fn unterminated_varint_is_rejected() {
    let bytes = vec![0x80u8, 0x80];
    assert_eq!(read_long(&bytes, 0), Err(DecodeError::UnexpectedEnd));
}

#[test]
fn overlong_zero_padding_still_decodes() {
    // a value carried with redundant high-order zero groups is still that value
    let bytes = vec![0x82u8, 0x80, 0x80, 0x00];
    let (back, used) = read_long(&bytes, 0).unwrap();
    assert_eq!(back, 1);
    assert_eq!(used, 4);
}
