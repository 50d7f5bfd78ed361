use yaq_r::codec::DecodeError;
use yaq_r::handshake::decode_request;
use yaq_r::handshake::decode_response;
use yaq_r::handshake::encode_request;
use yaq_r::handshake::encode_response;
use yaq_r::handshake::HandshakeMatch;
use yaq_r::handshake::HandshakeRequest;
use yaq_r::handshake::HandshakeResponse;

#[test]
fn test_handshake_encode() {
    let record = HandshakeRequest {
        client_hash: b"                ".to_vec(),
        client_protocol: None,
        server_hash: b"                ".to_vec(),
        meta: Some(Vec::new()),
    };
    let new_record = decode_request(&encode_request(&record)).unwrap();
    assert_eq!(record, new_record);
    let record = HandshakeRequest {
        client_hash: b"       aaaaa    ".to_vec(),
        client_protocol: Some("asdqwerasdfasdf".into()),
        server_hash: b"   aaaaa        ".to_vec(),
        meta: Some(Vec::new()),
    };
    let new_record = decode_request(&encode_request(&record)).unwrap();
    assert_eq!(record, new_record);
}

#[test]
fn test_handshake_response() {
    let record = HandshakeResponse {
        match_: HandshakeMatch::BOTH,
        server_hash: Some(b"                ".to_vec()),
        meta: Some(Vec::new()),
        server_protocol: None,
    };
    let new_record = decode_response(&encode_response(&record)).unwrap();
    assert_eq!(record, new_record);
    let record = HandshakeResponse {
        match_: HandshakeMatch::BOTH,
        server_hash: None,
        meta: None,
        server_protocol: Some("HashMap::new()".into()),
    };
    let new_record = decode_response(&encode_response(&record)).unwrap();
    assert_eq!(record, new_record);
}

#[test]
fn request_round_trip_with_meta_entries() {
    let record = HandshakeRequest {
        client_hash: vec![7u8; 16],
        client_protocol: Some("{\"protocol\": \"demo\"}".into()),
        server_hash: vec![9u8; 16],
        meta: Some(vec![
            ("first".to_string(), vec![1u8, 2, 3]),
            ("second".to_string(), Vec::new()),
        ]),
    };
    let encoded = encode_request(&record);
    let new_record = decode_request(&encoded).unwrap();
    assert_eq!(record, new_record);
}

#[test]
fn response_round_trip_all_matches() {
    for (match_, protocol) in [
        (HandshakeMatch::BOTH, None),
        (HandshakeMatch::CLIENT, Some("proto".to_string())),
        (HandshakeMatch::NONE, Some("proto".to_string())),
    ] {
        let record = HandshakeResponse {
            match_,
            server_protocol: protocol,
            server_hash: Some(vec![3u8; 16]),
            meta: Some(vec![("k".to_string(), vec![0u8])]),
        };
        let new_record = decode_response(&encode_response(&record)).unwrap();
        assert_eq!(record, new_record);
    }
}

#[test]
fn multibyte_protocol_text_round_trips() {
    // exercises the UTF-8 decoding behind string fields: handing the raw
    // bytes through unchanged would not reproduce these characters
    let record = HandshakeRequest {
        client_hash: vec![0u8; 16],
        client_protocol: Some("pr\u{00e9}cis \u{2713} \u{1f600}".into()),
        server_hash: vec![0u8; 16],
        meta: None,
    };
    let new_record = decode_request(&encode_request(&record)).unwrap();
    assert_eq!(record, new_record);
}

#[test]
fn truncated_request_is_rejected() {
    let record = HandshakeRequest {
        client_hash: vec![1u8; 16],
        client_protocol: Some("abc".into()),
        server_hash: vec![2u8; 16],
        meta: None,
    };
    let mut encoded = encode_request(&record);
    encoded.truncate(20);
    assert_eq!(decode_request(&encoded), Err(DecodeError::UnexpectedEnd));
}

#[test]
fn bad_union_index_is_rejected() {
    let mut bytes = vec![0u8; 16];
    bytes.push(0x04); // union branch 2: no such branch
    assert_eq!(decode_request(&bytes), Err(DecodeError::BadUnionIndex));
}

#[test]
fn negative_string_length_is_rejected() {
    let mut bytes = vec![0u8; 16];
    bytes.push(0x02); // union branch 1: string follows
    bytes.push(0x01); // string length -1
    assert_eq!(decode_request(&bytes), Err(DecodeError::BadLength));
}

#[test]
fn invalid_utf8_is_rejected() {
    let mut bytes = vec![0u8; 16];
    bytes.push(0x02); // union branch 1: string follows
    bytes.push(0x02); // string length 1
    bytes.push(0xff); // not UTF-8
    assert_eq!(decode_request(&bytes), Err(DecodeError::BadUtf8));
}

#[test]
fn negative_map_count_is_rejected() {
    let mut bytes = vec![0u8; 16];
    bytes.push(0x00); // clientProtocol: null
    bytes.extend_from_slice(&[0u8; 16]);
    bytes.push(0x02); // meta union branch 1: map follows
    bytes.push(0x01); // block count -1
    assert_eq!(decode_request(&bytes), Err(DecodeError::BadMapCount));
}

#[test]
fn bad_enum_index_is_rejected() {
    let bytes = vec![0x06u8]; // enum index 3: only three symbols exist
    assert_eq!(decode_response(&bytes), Err(DecodeError::BadEnumIndex));
}

#[test]
fn missing_server_protocol_is_rejected() {
    // match = NONE but no serverProtocol: the declared match demands it
    let bytes = vec![0x04u8, 0x00, 0x00, 0x00];
    assert_eq!(decode_response(&bytes), Err(DecodeError::MissingField));
}

#[test]
fn empty_input_is_rejected() {
    assert_eq!(decode_request(&Vec::new()), Err(DecodeError::UnexpectedEnd));
}
