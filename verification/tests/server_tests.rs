use yaq_r::handshake::decode_response;
use yaq_r::handshake::encode_request;
use yaq_r::handshake::HandshakeMatch;
use yaq_r::handshake::HandshakeRequest;
use yaq_r::server::Connection;
use yaq_r::server::HandshakeState;
use yaq_r::server::ProtocolCache;
use yaq_r::server::Server;
use yaq_r::server::ServerConfig;

fn test_server() -> Server {
    Server::new(ServerConfig {
        server_hash: vec![0x11u8; 16],
        server_protocol: "{\"protocol\": \"instrument\"}".to_string(),
    })
}

fn request(client_hash: Vec<u8>, protocol: Option<&str>, server_hash: Vec<u8>) -> Vec<u8> {
    encode_request(&HandshakeRequest {
        client_hash,
        client_protocol: protocol.map(|p| p.to_string()),
        server_hash,
        meta: None,
    })
}

#[test]
fn match_decision_table() {
    // first contact registers the client's digest
    let mut server = test_server();
    let seed = request(vec![0xaa; 16], Some("client proto"), vec![0u8; 16]);
    let (m, _) = server.process(&seed).unwrap();
    assert_eq!(m, HandshakeMatch::NONE);

    // client known, client's copy of the server digest current: BOTH
    let (m, out) = server.process(&request(vec![0xaa; 16], None, vec![0x11; 16])).unwrap();
    assert_eq!(m, HandshakeMatch::BOTH);
    let resp = decode_response(&out).unwrap();
    assert_eq!(resp.match_, HandshakeMatch::BOTH);
    assert_eq!(resp.server_protocol, None);
    assert_eq!(resp.server_hash, Some(vec![0x11; 16]));

    // client known, client's copy of the server digest stale: CLIENT
    let (m, out) = server.process(&request(vec![0xaa; 16], None, vec![0u8; 16])).unwrap();
    assert_eq!(m, HandshakeMatch::CLIENT);
    let resp = decode_response(&out).unwrap();
    assert_eq!(resp.match_, HandshakeMatch::CLIENT);
    assert!(resp.server_protocol.is_some());

    // client unknown: NONE, whatever the client holds of the server digest
    let (m, out) = server.process(&request(vec![0xbb; 16], None, vec![0x11; 16])).unwrap();
    assert_eq!(m, HandshakeMatch::NONE);
    let resp = decode_response(&out).unwrap();
    assert_eq!(resp.match_, HandshakeMatch::NONE);
    assert!(resp.server_protocol.is_some());
    let (m, _) = server.process(&request(vec![0xcc; 16], None, vec![0u8; 16])).unwrap();
    assert_eq!(m, HandshakeMatch::NONE);
}

#[test]
fn idempotent_registration() {
    // two connections race on the same unseen digest and protocol: each
    // decides against the cache as it stood before either registered
    let payload = request(vec![0x42; 16], Some("shared proto"), vec![0u8; 16]);
    let mut first = test_server();
    let (m1, out1) = first.process(&payload).unwrap();
    let mut second = test_server();
    let (m2, out2) = second.process(&payload).unwrap();
    assert_eq!(m1, HandshakeMatch::NONE);
    assert_eq!(m2, HandshakeMatch::NONE);
    let r1 = decode_response(&out1).unwrap();
    let r2 = decode_response(&out2).unwrap();
    assert_eq!(r1.server_protocol, r2.server_protocol);

    // however many of the racers write, the shared cache ends with
    // exactly one entry for that digest
    let mut cache = ProtocolCache::new();
    cache.register(&vec![0x42; 16], &"shared proto".to_string());
    cache.register(&vec![0x42; 16], &"shared proto".to_string());
    assert_eq!(cache.entries.len(), 1);
    assert_eq!(cache.entries[0].0, vec![0x42; 16]);
    assert_eq!(cache.entries[0].1, "shared proto");
}

#[test]
fn concrete_zero_hash_scenario() {
    // all-zero hashes, no protocol, no meta, against a non-zero server digest
    let mut server = test_server();
    let payload = request(vec![0u8; 16], None, vec![0u8; 16]);
    let (m, out) = server.process(&payload).unwrap();
    assert_eq!(m, HandshakeMatch::NONE);
    let resp = decode_response(&out).unwrap();
    assert_eq!(resp.match_, HandshakeMatch::NONE);
    assert_eq!(
        resp.server_protocol,
        Some("{\"protocol\": \"instrument\"}".to_string())
    );
    assert_eq!(resp.server_hash, Some(vec![0x11; 16]));
    assert_eq!(resp.meta, None);
}

#[test]
fn fifty_independent_handshakes() {
    // fifty clients, each with a distinct digest and a distinct meta tag;
    // every one gets its own correct answer with no cross-talk
    let mut server = test_server();
    for i in 0..50u8 {
        let payload = encode_request(&HandshakeRequest {
            client_hash: vec![i; 16],
            client_protocol: Some(format!("proto-{i}")),
            server_hash: vec![0u8; 16],
            meta: Some(vec![("client".to_string(), vec![i])]),
        });
        let (m, out) = server.process(&payload).unwrap();
        assert_eq!(m, HandshakeMatch::NONE);
        let resp = decode_response(&out).unwrap();
        assert_eq!(resp.match_, HandshakeMatch::NONE);
        assert_eq!(resp.server_hash, Some(vec![0x11; 16]));
    }
    assert_eq!(server.cache.entries.len(), 50);
    // a second round from the same fifty, now holding the current server
    // digest: every one is recognised
    for i in 0..50u8 {
        let payload = request(vec![i; 16], None, vec![0x11; 16]);
        let (m, _) = server.process(&payload).unwrap();
        assert_eq!(m, HandshakeMatch::BOTH);
    }
    assert_eq!(server.cache.entries.len(), 50);
}

#[test]
fn connection_state_machine() {
    let mut server = test_server();
    let mut conn = Connection::new();
    assert_eq!(conn.state, HandshakeState::AwaitingRequest);
    let payload = request(vec![0x5a; 16], Some("p"), vec![0u8; 16]);
    let out = conn.on_request_payload(&mut server, &payload);
    assert!(out.is_some());
    assert_eq!(conn.state, HandshakeState::Complete(HandshakeMatch::NONE));

    let mut failed = Connection::new();
    let out = failed.on_request_payload(&mut server, &vec![1u8, 2, 3]);
    assert!(out.is_none());
    assert!(matches!(failed.state, HandshakeState::Failed(_)));
}

#[test]
fn failed_decode_leaves_cache_untouched() {
    let mut server = test_server();
    assert!(server.process(&vec![0u8; 3]).is_err());
    assert_eq!(server.cache.entries.len(), 0);
}
