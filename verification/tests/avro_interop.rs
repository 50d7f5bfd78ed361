//! Bit-exactness against an independent Avro implementation: the bytes
//! this crate produces for a handshake record are the bytes apache-avro
//! produces for the same record, and each side decodes the other's.

use apache_avro::from_avro_datum;
use apache_avro::to_avro_datum;
use apache_avro::types::Value;
use apache_avro::Schema;
use yaq_r::handshake::decode_request;
use yaq_r::handshake::decode_response;
use yaq_r::handshake::encode_request;
use yaq_r::handshake::encode_response;
use yaq_r::handshake::HandshakeMatch;
use yaq_r::handshake::HandshakeRequest;
use yaq_r::handshake::HandshakeResponse;
use yaq_r::handshake::HANDSHAKE_REQUEST_SCHEMA;
use yaq_r::handshake::HANDSHAKE_RESPONSE_SCHEMA;

fn avro_request_value(
    client_hash: &[u8],
    client_protocol: Option<&str>,
    server_hash: &[u8],
) -> Value {
    Value::Record(vec![
        (
            "clientHash".to_string(),
            Value::Fixed(16, client_hash.to_vec()),
        ),
        (
            "clientProtocol".to_string(),
            match client_protocol {
                None => Value::Union(0, Box::new(Value::Null)),
                Some(p) => Value::Union(1, Box::new(Value::String(p.to_string()))),
            },
        ),
        (
            "serverHash".to_string(),
            Value::Fixed(16, server_hash.to_vec()),
        ),
        ("meta".to_string(), Value::Union(0, Box::new(Value::Null))),
    ])
}

#[test]
fn request_bytes_match_apache_avro() {
    let schema = Schema::parse_str(HANDSHAKE_REQUEST_SCHEMA).unwrap();
    let mine = encode_request(&HandshakeRequest {
        client_hash: vec![0x20; 16],
        client_protocol: Some("asdqwerasdfasdf".into()),
        server_hash: vec![0x07; 16],
        meta: None,
    });
    let theirs = to_avro_datum(
        &schema,
        avro_request_value(&[0x20; 16], Some("asdqwerasdfasdf"), &[0x07; 16]),
    )
    .unwrap();
    assert_eq!(mine, theirs);
}

#[test]
fn apache_avro_decodes_this_crates_request() {
    let schema = Schema::parse_str(HANDSHAKE_REQUEST_SCHEMA).unwrap();
    let mine = encode_request(&HandshakeRequest {
        client_hash: vec![0xaa; 16],
        client_protocol: None,
        server_hash: vec![0xbb; 16],
        meta: None,
    });
    let decoded = from_avro_datum(&schema, &mut &mine[..], None).unwrap();
    assert_eq!(decoded, avro_request_value(&[0xaa; 16], None, &[0xbb; 16]));
}

#[test]
fn this_crate_decodes_apache_avro_request() {
    let schema = Schema::parse_str(HANDSHAKE_REQUEST_SCHEMA).unwrap();
    let theirs = to_avro_datum(
        &schema,
        avro_request_value(&[0x01; 16], Some("{\"p\": 1}"), &[0x02; 16]),
    )
    .unwrap();
    let decoded = decode_request(&theirs).unwrap();
    assert_eq!(decoded.client_hash, vec![0x01; 16]);
    assert_eq!(decoded.client_protocol, Some("{\"p\": 1}".to_string()));
    assert_eq!(decoded.server_hash, vec![0x02; 16]);
    assert_eq!(decoded.meta, None);
}

#[test]
fn response_bytes_match_apache_avro() {
    let schema = Schema::parse_str(HANDSHAKE_RESPONSE_SCHEMA).unwrap();
    let mine = encode_response(&HandshakeResponse {
        match_: HandshakeMatch::NONE,
        server_protocol: Some("proto text".into()),
        server_hash: Some(vec![0x11; 16]),
        meta: None,
    });
    let theirs = to_avro_datum(
        &schema,
        Value::Record(vec![
            ("match".to_string(), Value::Enum(2, "NONE".to_string())),
            (
                "serverProtocol".to_string(),
                Value::Union(1, Box::new(Value::String("proto text".to_string()))),
            ),
            (
                "serverHash".to_string(),
                Value::Union(1, Box::new(Value::Fixed(16, vec![0x11; 16]))),
            ),
            ("meta".to_string(), Value::Union(0, Box::new(Value::Null))),
        ]),
    )
    .unwrap();
    assert_eq!(mine, theirs);
    let decoded = decode_response(&mine).unwrap();
    assert_eq!(decoded.match_, HandshakeMatch::NONE);
}
