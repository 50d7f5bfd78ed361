//! The per-connection handshake state machine and the protocol cache
//! shared across connections.
//!
//! One connection reads one request frame, decides the match outcome
//! against the server's own digest and the cache of client digests seen
//! before, and answers with one response frame. Any decode failure ends
//! the connection in a failed terminal state without a response.

use crate::codec::copy_range;
use crate::codec::DecodeError;
use crate::handshake::decode_request;
use crate::handshake::encode_response;
use crate::handshake::spec_encode_response;
use crate::handshake::spec_read_request;
use crate::handshake::HandshakeMatch;
use crate::handshake::HandshakeRequestV;
use crate::handshake::HandshakeResponse;
use crate::handshake::HandshakeResponseV;
use vstd::prelude::*;
use vstd::utf8::encode_utf8;

verus! {

/// What the server itself brings to every handshake: its current protocol
/// digest and the protocol definition text that digest stands for.
pub struct ServerConfig {
    pub server_hash: Vec<u8>,
    pub server_protocol: String,
}

impl ServerConfig {
    /// The digest carries exactly 16 bytes, and the protocol text fits the
    /// encoder's machine limits.
    pub open spec fn wf(self) -> bool {
        self.server_hash@.len() == 16 && encode_utf8(self.server_protocol@).len() <= i64::MAX
    }
}

/// The value of a protocol cache: digests paired with the protocol texts
/// they were registered under, in registration order.
pub open spec fn cache_entries_view(entries: Vec<(Vec<u8>, String)>) -> Seq<(Seq<u8>, Seq<char>)> {
    entries@.map_values(|p: (Vec<u8>, String)| (p.0@, p.1@))
}

/// Whether a cache holds a given digest.
pub open spec fn cache_contains(m: Seq<(Seq<u8>, Seq<char>)>, h: Seq<u8>) -> bool {
    exists|k: int| 0 <= k < m.len() && (#[trigger] m[k]).0 == h
}

/// Each digest appears at most once.
pub open spec fn cache_unique(m: Seq<(Seq<u8>, Seq<char>)>) -> bool {
    forall|k1: int, k2: int|
        0 <= k1 < k2 < m.len() ==> (#[trigger] m[k1]).0 != (#[trigger] m[k2]).0
}

/// Registration: a digest seen before leaves the cache as it is; a new
/// one is appended with its protocol text. Either way the operation is
/// idempotent, so two connections racing on the same new digest leave one
/// entry.
pub open spec fn spec_register(m: Seq<(Seq<u8>, Seq<char>)>, h: Seq<u8>, p: Seq<char>) -> Seq<
    (Seq<u8>, Seq<char>),
> {
    if cache_contains(m, h) {
        m
    } else {
        m.push((h, p))
    }
}

/// Registering the same digest and protocol twice leaves exactly what one
/// registration leaves; the cache never grows a second entry for a digest.
pub proof fn lemma_register_idempotent(m: Seq<(Seq<u8>, Seq<char>)>, h: Seq<u8>, p: Seq<char>)
    ensures
        spec_register(spec_register(m, h, p), h, p) == spec_register(m, h, p),
        cache_contains(spec_register(m, h, p), h),
        cache_unique(m) ==> cache_unique(spec_register(m, h, p)),
{
    let m1 = spec_register(m, h, p);
    if cache_contains(m, h) {
    } else {
        assert(m1[m.len() as int].0 == h);
        assert(cache_contains(m1, h));
        if cache_unique(m) {
            assert forall|k1: int, k2: int| 0 <= k1 < k2 < m1.len() implies (#[trigger] m1[k1]).0
                != (#[trigger] m1[k2]).0 by {
                if k2 == m.len() {
                    assert(!cache_contains(m, h));
                    assert(m1[k1] == m[k1]);
                }
            }
        }
    }
}

/// The cache of client protocol digests seen before, with the protocol
/// text each was presented with.
pub struct ProtocolCache {
    pub entries: Vec<(Vec<u8>, String)>,
}

impl ProtocolCache {
    pub open spec fn view_entries(self) -> Seq<(Seq<u8>, Seq<char>)> {
        cache_entries_view(self.entries)
    }

    pub open spec fn wf(self) -> bool {
        cache_unique(self.view_entries())
    }

    /// An empty cache.
    pub fn new() -> (c: ProtocolCache)
        ensures
            c.view_entries() == Seq::<(Seq<u8>, Seq<char>)>::empty(),
            c.wf(),
    {
        let c = ProtocolCache { entries: Vec::new() };
        proof {
            assert(c.view_entries() =~= Seq::<(Seq<u8>, Seq<char>)>::empty());
        }
        c
    }

    /// Whether the given digest was registered before.
    pub fn contains_hash(&self, h: &Vec<u8>) -> (r: bool)
        ensures
            r == cache_contains(self.view_entries(), h@),
    {
        let ghost m = self.view_entries();
        let mut k: usize = 0;
        while k < self.entries.len()
            invariant
                k <= self.entries@.len(),
                m == self.view_entries(),
                m.len() == self.entries@.len(),
                forall|q: int| 0 <= q < k ==> (#[trigger] m[q]).0 != h@,
            decreases self.entries@.len() - k,
        {
            proof {
                assert(m[k as int] == (self.entries@[k as int].0@, self.entries@[k as int].1@));
            }
            if bytes_eq(&self.entries[k].0, h) {
                return true;
            }
            k = k + 1;
        }
        false
    }

    /// Registers a digest with its protocol text; a digest seen before is
    /// left untouched.
    pub fn register(&mut self, h: &Vec<u8>, p: &String)
        ensures
            final(self).view_entries() == spec_register(old(self).view_entries(), h@, p@),
            old(self).wf() ==> final(self).wf(),
    {
        let ghost m = self.view_entries();
        if self.contains_hash(h) {
        } else {
            let hc: Vec<u8> = copy_range(h, 0, h.len());
            proof {
                assert(hc@ =~= h@);
            }
            let pc: String = p.clone();
            let ghost prev = self.view_entries();
            self.entries.push((hc, pc));
            proof {
                assert forall|q: int| 0 <= q < self.view_entries().len() implies
                    self.view_entries()[q] == prev.push((h@, p@))[q] by {
                    if q < prev.len() {
                        assert(self.view_entries()[q] == prev[q]);
                    }
                }
                assert(self.view_entries() =~= prev.push((h@, p@)));
                lemma_register_idempotent(m, h@, p@);
            }
        }
    }
}

/// Whether two byte vectors hold the same bytes.
pub fn bytes_eq(a: &Vec<u8>, b: &Vec<u8>) -> (r: bool)
    ensures
        r == (a@ == b@),
{
    if a.len() != b.len() {
        proof {
            assert(a@ != b@);
        }
        return false;
    }
    let mut k: usize = 0;
    while k < a.len()
        invariant
            k <= a@.len(),
            a@.len() == b@.len(),
            forall|q: int| 0 <= q < k ==> a@[q] == b@[q],
        decreases a@.len() - k,
    {
        if a[k] != b[k] {
            return false;
        }
        k = k + 1;
    }
    proof {
        assert(a@ =~= b@);
    }
    true
}

/// The match outcome a request earns: the server must know the client's
/// digest for anything better than `NONE`, and the client must hold the
/// server's current digest for `BOTH`.
pub open spec fn spec_decide(server_knows_client: bool, client_hash_current: bool)
    -> HandshakeMatch {
    if !server_knows_client {
        HandshakeMatch::NONE
    } else if client_hash_current {
        HandshakeMatch::BOTH
    } else {
        HandshakeMatch::CLIENT
    }
}

/// Decides the match outcome.
pub fn decide_match(server_knows_client: bool, client_hash_current: bool) -> (m: HandshakeMatch)
    ensures
        m == spec_decide(server_knows_client, client_hash_current),
{
    if !server_knows_client {
        HandshakeMatch::NONE
    } else if client_hash_current {
        HandshakeMatch::BOTH
    } else {
        HandshakeMatch::CLIENT
    }
}

/// The response a request earns, as a value: the decided match, the
/// server's protocol text whenever the match is not `BOTH`, always the
/// server's current digest, and no metadata.
pub open spec fn spec_response(
    server_hash: Seq<u8>,
    server_protocol: Seq<char>,
    cache: Seq<(Seq<u8>, Seq<char>)>,
    req: HandshakeRequestV,
) -> HandshakeResponseV {
    let m = spec_decide(cache_contains(cache, req.client_hash), req.server_hash == server_hash);
    HandshakeResponseV {
        match_: m,
        server_protocol: if m != HandshakeMatch::BOTH {
            Some(server_protocol)
        } else {
            None
        },
        server_hash: Some(server_hash),
        meta: None,
    }
}

/// The cache a request leaves behind: a digest never seen before, arriving
/// with its protocol text, is registered; anything else changes nothing.
pub open spec fn spec_cache_after(
    cache: Seq<(Seq<u8>, Seq<char>)>,
    req: HandshakeRequestV,
) -> Seq<(Seq<u8>, Seq<char>)> {
    if !cache_contains(cache, req.client_hash) && req.client_protocol is Some {
        spec_register(cache, req.client_hash, req.client_protocol.unwrap())
    } else {
        cache
    }
}

/// The match decision table: with the server's digest held by the client
/// and the client's digest known to the server, the outcome is `BOTH`;
/// known to the server but the client's copy stale, `CLIENT`; unknown to
/// the server, `NONE` whatever the client holds. The protocol text is
/// present exactly when the outcome is not `BOTH`.
pub proof fn lemma_match_decision_table(
    server_hash: Seq<u8>,
    server_protocol: Seq<char>,
    cache: Seq<(Seq<u8>, Seq<char>)>,
    req: HandshakeRequestV,
)
    ensures
        ({
            let r = spec_response(server_hash, server_protocol, cache, req);
            let knows = cache_contains(cache, req.client_hash);
            let current = req.server_hash == server_hash;
            &&& (current && knows ==> r.match_ == HandshakeMatch::BOTH)
            &&& (!current && knows ==> r.match_ == HandshakeMatch::CLIENT)
            &&& (!knows ==> r.match_ == HandshakeMatch::NONE)
            &&& (r.server_protocol is Some <==> r.match_ != HandshakeMatch::BOTH)
            &&& r.server_protocol is Some ==> r.server_protocol.unwrap() == server_protocol
            &&& r.server_hash == Some(server_hash)
        }),
{
}

/// The server side of the handshake: the fixed configuration and the
/// cache that survives across connections.
pub struct Server {
    pub config: ServerConfig,
    pub cache: ProtocolCache,
}

impl Server {
    pub open spec fn wf(self) -> bool {
        self.config.wf() && self.cache.wf()
    }

    pub fn new(config: ServerConfig) -> (s: Server)
        requires
            config.wf(),
        ensures
            s.wf(),
            s.config == config,
            s.cache.view_entries() == Seq::<(Seq<u8>, Seq<char>)>::empty(),
    {
        Server { config, cache: ProtocolCache::new() }
    }

    /// One whole handshake: decode the request payload, decide the match,
    /// register a new client protocol, and encode the response payload.
    /// A payload the decoder rejects yields that decode error and leaves
    /// the cache untouched.
    pub fn process(&mut self, payload: &Vec<u8>) -> (r: Result<
        (HandshakeMatch, Vec<u8>),
        DecodeError,
    >)
        requires
            old(self).wf(),
        ensures
            final(self).wf(),
            final(self).config == old(self).config,
            (match spec_read_request(payload@) {
                Ok((req, _)) => {
                    let resp = spec_response(
                        old(self).config.server_hash@,
                        old(self).config.server_protocol@,
                        old(self).cache.view_entries(),
                        req,
                    );
                    &&& r matches Ok(p) && p.0 == resp.match_ && p.1@ == spec_encode_response(resp)
                    &&& final(self).cache.view_entries() == spec_cache_after(
                        old(self).cache.view_entries(),
                        req,
                    )
                },
                Err(e) => r == Err::<(HandshakeMatch, Vec<u8>), DecodeError>(e)
                    && final(self).cache == old(self).cache,
            }),
    {
        let req = match decode_request(payload) {
            Ok(q) => q,
            Err(e) => {
                return Err(e);
            },
        };
        let server_knows = self.cache.contains_hash(&req.client_hash);
        let client_current = bytes_eq(&req.server_hash, &self.config.server_hash);
        let m = decide_match(server_knows, client_current);
        if !server_knows {
            match &req.client_protocol {
                Some(cp) => {
                    self.cache.register(&req.client_hash, cp);
                },
                None => {},
            }
        }
        let server_protocol: Option<String> = if !matches!(m, HandshakeMatch::BOTH) {
            Some(self.config.server_protocol.clone())
        } else {
            None
        };
        let hash_copy: Vec<u8> = copy_range(
            &self.config.server_hash,
            0,
            self.config.server_hash.len(),
        );
        proof {
            assert(hash_copy@ =~= self.config.server_hash@);
        }
        let resp = HandshakeResponse {
            match_: m,
            server_protocol,
            server_hash: Some(hash_copy),
            meta: None,
        };
        let out = encode_response(&resp);
        Ok((m, out))
    }
}

/// One connection's progress through the handshake, as the transport
/// hands frames over: it waits for the single request frame, then either
/// completes with the negotiated outcome or fails with the decode error
/// that ended it. Both outcomes are terminal.
#[derive(Debug, Clone, Copy, PartialEq, Eq, Structural)]
pub enum HandshakeState {
    AwaitingRequest,
    Complete(HandshakeMatch),
    Failed(DecodeError),
}

/// The per-connection state machine around one server.
pub struct Connection {
    pub state: HandshakeState,
}

impl Connection {
    pub fn new() -> (c: Connection)
        ensures
            c.state == HandshakeState::AwaitingRequest,
    {
        Connection { state: HandshakeState::AwaitingRequest }
    }

    /// Consumes the one request frame payload this connection is owed:
    /// on a decodable request the connection completes with the decided
    /// match and the encoded response payload to send; on a decode error
    /// it fails, and nothing is to be written.
    pub fn on_request_payload(&mut self, server: &mut Server, payload: &Vec<u8>) -> (r: Option<
        Vec<u8>,
    >)
        requires
            old(self).state == HandshakeState::AwaitingRequest,
            old(server).wf(),
        ensures
            final(server).wf(),
            final(server).config == old(server).config,
            (match spec_read_request(payload@) {
                Ok((req, _)) => {
                    let resp = spec_response(
                        old(server).config.server_hash@,
                        old(server).config.server_protocol@,
                        old(server).cache.view_entries(),
                        req,
                    );
                    &&& r matches Some(out) && out@ == spec_encode_response(resp)
                    &&& final(self).state == HandshakeState::Complete(resp.match_)
                    &&& final(server).cache.view_entries() == spec_cache_after(
                        old(server).cache.view_entries(),
                        req,
                    )
                },
                Err(e) => r is None && final(self).state == HandshakeState::Failed(e)
                    && final(server).cache == old(server).cache,
            }),
    {
        match server.process(payload) {
            Ok((m, out)) => {
                self.state = HandshakeState::Complete(m);
                Some(out)
            },
            Err(e) => {
                self.state = HandshakeState::Failed(e);
                None
            },
        }
    }
}

} // verus!
