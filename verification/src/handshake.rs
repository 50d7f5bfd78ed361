//! The two handshake records and their schema-driven binary encoding.
//!
//! The wire schema is fixed: a request is `clientHash: fixed[16]`,
//! `clientProtocol: union { null, string }`, `serverHash: fixed[16]`,
//! `meta: union { null, map<string -> bytes> }`; a response is
//! `match: enum { BOTH, CLIENT, NONE }`, `serverProtocol: union
//! { null, string }`, `serverHash: union { null, fixed[16] }` and the same
//! `meta`. Encoders and decoders follow that schema field by field; the
//! round-trip lemmas state that decoding an encoding gives back the record.

use crate::codec::lemma_read_len_bytes_bounds;
use crate::codec::lemma_read_len_bytes_at;
use crate::codec::lemma_read_long_bounds;
use crate::codec::lemma_read_long_at;
use crate::codec::lemma_read_str_bounds;
use crate::codec::lemma_read_str_at;
use crate::codec::lemma_read_fixed16_at;
use crate::codec::read_fixed16;
use crate::codec::read_len_bytes;
use crate::codec::read_long;
use crate::codec::read_str;
use crate::codec::spec_len_bytes;
use crate::codec::spec_long;
use crate::codec::spec_read_fixed16;
use crate::codec::spec_read_len_bytes;
use crate::codec::spec_read_long;
use crate::codec::spec_read_str;
use crate::codec::spec_str;
use crate::codec::write_len_bytes;
use crate::codec::write_long;
use crate::codec::write_raw;
use crate::codec::write_str;
use crate::codec::DecodeError;
use vstd::prelude::*;
use vstd::utf8::encode_utf8;

verus! {

/// The textual schema of a handshake request, as independent
/// implementations exchange it.
pub const HANDSHAKE_REQUEST_SCHEMA: &'static str = r#"    {
        "type": "record",
        "name": "HandshakeRequest",
        "namespace": "org.apache.avro.ipc",
        "fields": [
            {
                "name": "clientHash",
                "type": {"type": "fixed", "name": "MD5", "size": 16}
            },
            {"name": "clientProtocol", "type": ["null", "string"]},
            {"name": "serverHash", "type": "MD5"},
            {"name": "meta", "type": ["null", {"type": "map", "values": "bytes"}]}
        ]
    }"#;

/// The textual schema of a handshake response.
pub const HANDSHAKE_RESPONSE_SCHEMA: &'static str = r#"{
    "type": "record",
    "name": "HandshakeResponse", "namespace": "org.apache.avro.ipc",
    "fields": [
    {"name": "match",
        "type": {"type": "enum", "name": "HandshakeMatch",
        "symbols": ["BOTH", "CLIENT", "NONE"]}},
    {"name": "serverProtocol",
        "type": ["null", "string"]},
    {"name": "serverHash",
        "type": ["null", {"type": "fixed", "name": "MD5", "size": 16}]},
    {"name": "meta",
        "type": ["null", {"type": "map", "values": "bytes"}]}
    ]
}"#;

/// One handshake request. Hashes are raw 16-byte digests; `meta` is an
/// association list with unique keys (order carries no meaning but is
/// preserved by the codec).
#[derive(Debug, Clone, PartialEq, Eq)]
pub struct HandshakeRequest {
    pub client_hash: Vec<u8>,
    pub client_protocol: Option<String>,
    pub server_hash: Vec<u8>,
    pub meta: Option<Vec<(String, Vec<u8>)>>,
}

/// The negotiated outcome, in schema symbol order.
#[derive(Debug, Clone, Copy, PartialEq, Eq, Structural)]
pub enum HandshakeMatch {
    BOTH,
    CLIENT,
    NONE,
}

/// One handshake response.
#[derive(Debug, Clone, PartialEq, Eq)]
pub struct HandshakeResponse {
    pub match_: HandshakeMatch,
    pub server_protocol: Option<String>,
    pub server_hash: Option<Vec<u8>>,
    pub meta: Option<Vec<(String, Vec<u8>)>>,
}

/// The mathematical value of a request.
pub struct HandshakeRequestV {
    pub client_hash: Seq<u8>,
    pub client_protocol: Option<Seq<char>>,
    pub server_hash: Seq<u8>,
    pub meta: Option<Seq<(Seq<char>, Seq<u8>)>>,
}

/// The mathematical value of a response.
pub struct HandshakeResponseV {
    pub match_: HandshakeMatch,
    pub server_protocol: Option<Seq<char>>,
    pub server_hash: Option<Seq<u8>>,
    pub meta: Option<Seq<(Seq<char>, Seq<u8>)>>,
}

/// The value of an optional text field.
pub open spec fn opt_str_view(o: Option<String>) -> Option<Seq<char>> {
    match o {
        Some(s) => Some(s@),
        None => None,
    }
}

/// The value of an optional hash field.
pub open spec fn opt_hash_view(o: Option<Vec<u8>>) -> Option<Seq<u8>> {
    match o {
        Some(h) => Some(h@),
        None => None,
    }
}

/// The value of a meta association list.
pub open spec fn meta_view(m: Vec<(String, Vec<u8>)>) -> Seq<(Seq<char>, Seq<u8>)> {
    m@.map_values(|p: (String, Vec<u8>)| (p.0@, p.1@))
}

/// The value of an optional meta field.
pub open spec fn opt_meta_view(o: Option<Vec<(String, Vec<u8>)>>) -> Option<
    Seq<(Seq<char>, Seq<u8>)>,
> {
    match o {
        Some(m) => Some(meta_view(m)),
        None => None,
    }
}

impl View for HandshakeRequest {
    type V = HandshakeRequestV;

    open spec fn view(&self) -> HandshakeRequestV {
        HandshakeRequestV {
            client_hash: self.client_hash@,
            client_protocol: opt_str_view(self.client_protocol),
            server_hash: self.server_hash@,
            meta: opt_meta_view(self.meta),
        }
    }
}

impl View for HandshakeResponse {
    type V = HandshakeResponseV;

    open spec fn view(&self) -> HandshakeResponseV {
        HandshakeResponseV {
            match_: self.match_,
            server_protocol: opt_str_view(self.server_protocol),
            server_hash: opt_hash_view(self.server_hash),
            meta: opt_meta_view(self.meta),
        }
    }
}

/// Sizes under which a meta list can be encoded with machine integers.
pub open spec fn meta_bounded(m: Seq<(Seq<char>, Seq<u8>)>) -> bool {
    &&& m.len() <= i64::MAX
    &&& forall|k: int|
        0 <= k < m.len() ==> encode_utf8(#[trigger] m[k].0).len() <= i64::MAX && m[k].1.len()
            <= i64::MAX
}

impl HandshakeRequestV {
    /// Both digests carry exactly 16 bytes.
    pub open spec fn wf(self) -> bool {
        self.client_hash.len() == 16 && self.server_hash.len() == 16
    }

    /// Field sizes that fit the machine limits of the encoder.
    pub open spec fn bounded(self) -> bool {
        &&& (self.client_protocol matches Some(s) ==> encode_utf8(s).len() <= i64::MAX)
        &&& (self.meta matches Some(m) ==> meta_bounded(m))
    }
}

impl HandshakeResponseV {
    /// A digest, when present, carries exactly 16 bytes; the protocol text
    /// accompanies every outcome but `BOTH`.
    pub open spec fn wf(self) -> bool {
        &&& (self.server_hash matches Some(h) ==> h.len() == 16)
        &&& (self.match_ != HandshakeMatch::BOTH ==> self.server_protocol is Some)
    }

    /// Field sizes that fit the machine limits of the encoder.
    pub open spec fn bounded(self) -> bool {
        &&& (self.server_protocol matches Some(s) ==> encode_utf8(s).len() <= i64::MAX)
        &&& (self.meta matches Some(m) ==> meta_bounded(m))
    }
}

// ---------------------------------------------------------------------------
// spec-level encoding
// ---------------------------------------------------------------------------

/// The encoding of the entries of a map, one length-prefixed key and value
/// after another.
pub open spec fn spec_map_items(m: Seq<(Seq<char>, Seq<u8>)>) -> Seq<u8>
    decreases m.len(),
{
    if m.len() == 0 {
        Seq::empty()
    } else {
        spec_str(m[0].0) + spec_len_bytes(m[0].1) + spec_map_items(m.drop_first())
    }
}

/// The encoding of a map: a single block holding every entry, then the
/// zero count that terminates the block sequence; an empty map is the zero
/// count alone.
pub open spec fn spec_map(m: Seq<(Seq<char>, Seq<u8>)>) -> Seq<u8> {
    if m.len() == 0 {
        spec_long(0)
    } else {
        spec_long(m.len() as int) + spec_map_items(m) + spec_long(0)
    }
}

/// The encoding of a `union { null, string }` value: the branch index,
/// then the string when present.
pub open spec fn spec_opt_str(o: Option<Seq<char>>) -> Seq<u8> {
    match o {
        None => spec_long(0),
        Some(s) => spec_long(1) + spec_str(s),
    }
}

/// The encoding of a `union { null, fixed[16] }` value.
pub open spec fn spec_opt_fixed16(o: Option<Seq<u8>>) -> Seq<u8> {
    match o {
        None => spec_long(0),
        Some(h) => spec_long(1) + h,
    }
}

/// The encoding of a `union { null, map<string -> bytes> }` value.
pub open spec fn spec_opt_map(o: Option<Seq<(Seq<char>, Seq<u8>)>>) -> Seq<u8> {
    match o {
        None => spec_long(0),
        Some(m) => spec_long(1) + spec_map(m),
    }
}

/// The index of a match symbol in schema order.
pub open spec fn spec_match_index(m: HandshakeMatch) -> int {
    match m {
        HandshakeMatch::BOTH => 0,
        HandshakeMatch::CLIENT => 1,
        HandshakeMatch::NONE => 2,
    }
}

/// The encoding of a whole request: its four fields in schema order.
pub open spec fn spec_encode_request(r: HandshakeRequestV) -> Seq<u8> {
    r.client_hash + spec_opt_str(r.client_protocol) + r.server_hash + spec_opt_map(r.meta)
}

/// The encoding of a whole response: its four fields in schema order.
pub open spec fn spec_encode_response(r: HandshakeResponseV) -> Seq<u8> {
    spec_long(spec_match_index(r.match_)) + spec_opt_str(r.server_protocol) + spec_opt_fixed16(
        r.server_hash,
    ) + spec_opt_map(r.meta)
}

// ---------------------------------------------------------------------------
// spec-level decoding
// ---------------------------------------------------------------------------

/// The total spec-level decoder of map blocks: `remaining` entries are
/// still owed in the current block; at zero the next block count is read,
/// and a zero count ends the map.
pub open spec fn spec_read_map_items(s: Seq<u8>, i: int, remaining: nat) -> Result<
    (Seq<(Seq<char>, Seq<u8>)>, int),
    DecodeError,
>
    decreases s.len() - i, remaining,
    via spec_read_map_items_dec
{
    if remaining == 0 {
        match spec_read_long(s, i) {
            Ok((c, j)) => if c == 0 {
                Ok((Seq::empty(), j))
            } else if c < 0 {
                Err(DecodeError::BadMapCount)
            } else {
                spec_read_map_items(s, j, c as nat)
            },
            Err(e) => Err(e),
        }
    } else {
        match spec_read_str(s, i) {
            Ok((k, j)) => match spec_read_len_bytes(s, j) {
                Ok((v, j2)) => match spec_read_map_items(s, j2, (remaining - 1) as nat) {
                    Ok((rest, end)) => Ok((seq![(k, v)] + rest, end)),
                    Err(e) => Err(e),
                },
                Err(e) => Err(e),
            },
            Err(e) => Err(e),
        }
    }
}

#[via_fn]
proof fn spec_read_map_items_dec(s: Seq<u8>, i: int, remaining: nat) {
    lemma_read_long_bounds(s, i);
    lemma_read_str_bounds(s, i);
    if remaining > 0 {
        if let Ok((k, j)) = spec_read_str(s, i) {
            lemma_read_len_bytes_bounds(s, j);
        }
    }
}

/// A successful map read ends inside the input and past its start.
pub proof fn lemma_read_map_items_bounds(s: Seq<u8>, i: int, remaining: nat)
    ensures
        spec_read_map_items(s, i, remaining) matches Ok((m, j)) ==> i < j <= s.len(),
    decreases s.len() - i, remaining,
{
    if remaining == 0 {
        lemma_read_long_bounds(s, i);
        if let Ok((c, j)) = spec_read_long(s, i) {
            if c > 0 {
                lemma_read_map_items_bounds(s, j, c as nat);
            }
        }
    } else {
        lemma_read_str_bounds(s, i);
        if let Ok((k, j)) = spec_read_str(s, i) {
            lemma_read_len_bytes_bounds(s, j);
            if let Ok((v, j2)) = spec_read_len_bytes(s, j) {
                lemma_read_map_items_bounds(s, j2, (remaining - 1) as nat);
            }
        }
    }
}

/// The total spec-level decoder of a `union { null, string }` field.
pub open spec fn spec_read_opt_str(s: Seq<u8>, i: int) -> Result<
    (Option<Seq<char>>, int),
    DecodeError,
> {
    match spec_read_long(s, i) {
        Ok((t, j)) => if t == 0 {
            Ok((None, j))
        } else if t == 1 {
            match spec_read_str(s, j) {
                Ok((cs, j2)) => Ok((Some(cs), j2)),
                Err(e) => Err(e),
            }
        } else {
            Err(DecodeError::BadUnionIndex)
        },
        Err(e) => Err(e),
    }
}

/// The total spec-level decoder of a `union { null, fixed[16] }` field.
pub open spec fn spec_read_opt_fixed16(s: Seq<u8>, i: int) -> Result<
    (Option<Seq<u8>>, int),
    DecodeError,
> {
    match spec_read_long(s, i) {
        Ok((t, j)) => if t == 0 {
            Ok((None, j))
        } else if t == 1 {
            match spec_read_fixed16(s, j) {
                Ok((h, j2)) => Ok((Some(h), j2)),
                Err(e) => Err(e),
            }
        } else {
            Err(DecodeError::BadUnionIndex)
        },
        Err(e) => Err(e),
    }
}

/// The total spec-level decoder of a `union { null, map }` field.
pub open spec fn spec_read_opt_map(s: Seq<u8>, i: int) -> Result<
    (Option<Seq<(Seq<char>, Seq<u8>)>>, int),
    DecodeError,
> {
    match spec_read_long(s, i) {
        Ok((t, j)) => if t == 0 {
            Ok((None, j))
        } else if t == 1 {
            match spec_read_map_items(s, j, 0) {
                Ok((m, j2)) => Ok((Some(m), j2)),
                Err(e) => Err(e),
            }
        } else {
            Err(DecodeError::BadUnionIndex)
        },
        Err(e) => Err(e),
    }
}

pub proof fn lemma_read_opt_str_bounds(s: Seq<u8>, i: int)
    ensures
        spec_read_opt_str(s, i) matches Ok((o, j)) ==> i < j <= s.len(),
{
    lemma_read_long_bounds(s, i);
    if let Ok((t, j)) = spec_read_long(s, i) {
        lemma_read_str_bounds(s, j);
    }
}

pub proof fn lemma_read_opt_fixed16_bounds(s: Seq<u8>, i: int)
    ensures
        spec_read_opt_fixed16(s, i) matches Ok((o, j)) ==> i < j <= s.len(),
{
    lemma_read_long_bounds(s, i);
}

pub proof fn lemma_read_opt_map_bounds(s: Seq<u8>, i: int)
    ensures
        spec_read_opt_map(s, i) matches Ok((o, j)) ==> i < j <= s.len(),
{
    lemma_read_long_bounds(s, i);
    if let Ok((t, j)) = spec_read_long(s, i) {
        lemma_read_map_items_bounds(s, j, 0);
    }
}

/// The total spec-level decoder of a whole request; trailing bytes after
/// the last field are ignored, as the schema fixes where the record ends.
pub open spec fn spec_read_request(s: Seq<u8>) -> Result<(HandshakeRequestV, int), DecodeError> {
    match spec_read_fixed16(s, 0) {
        Ok((ch, i1)) => match spec_read_opt_str(s, i1) {
            Ok((cp, i2)) => match spec_read_fixed16(s, i2) {
                Ok((sh, i3)) => match spec_read_opt_map(s, i3) {
                    Ok((m, i4)) => Ok((
                        HandshakeRequestV {
                            client_hash: ch,
                            client_protocol: cp,
                            server_hash: sh,
                            meta: m,
                        },
                        i4,
                    )),
                    Err(e) => Err(e),
                },
                Err(e) => Err(e),
            },
            Err(e) => Err(e),
        },
        Err(e) => Err(e),
    }
}

/// The total spec-level decoder of a whole response. A response whose
/// match value demands the protocol text but lacks it is rejected.
pub open spec fn spec_read_response(s: Seq<u8>) -> Result<(HandshakeResponseV, int), DecodeError> {
    match spec_read_long(s, 0) {
        Ok((t, i1)) => if !(0 <= t <= 2) {
            Err(DecodeError::BadEnumIndex)
        } else {
            let m = if t == 0 {
                HandshakeMatch::BOTH
            } else if t == 1 {
                HandshakeMatch::CLIENT
            } else {
                HandshakeMatch::NONE
            };
            match spec_read_opt_str(s, i1) {
                Ok((sp, i2)) => match spec_read_opt_fixed16(s, i2) {
                    Ok((sh, i3)) => match spec_read_opt_map(s, i3) {
                        Ok((mm, i4)) => if m != HandshakeMatch::BOTH && sp is None {
                            Err(DecodeError::MissingField)
                        } else {
                            Ok((
                                HandshakeResponseV {
                                    match_: m,
                                    server_protocol: sp,
                                    server_hash: sh,
                                    meta: mm,
                                },
                                i4,
                            ))
                        },
                        Err(e) => Err(e),
                    },
                    Err(e) => Err(e),
                },
                Err(e) => Err(e),
            }
        },
        Err(e) => Err(e),
    }
}

// ---------------------------------------------------------------------------
// round-trip lemmas: decoding an encoding gives back the record
// ---------------------------------------------------------------------------

/// Splits knowledge of a concatenation at a position into knowledge of its
/// two parts.
proof fn lemma_split_at(s: Seq<u8>, i: int, a: Seq<u8>, b: Seq<u8>)
    requires
        0 <= i,
        i + a.len() + b.len() <= s.len(),
        s.subrange(i, i + a.len() + b.len()) == a + b,
    ensures
        s.subrange(i, i + a.len()) == a,
        s.subrange(i + a.len(), i + a.len() + b.len()) == b,
{
    assert(s.subrange(i, i + a.len() as int) =~= a) by {
        assert forall|k: int| 0 <= k < a.len() implies s[i + k] == a[k] by {
            assert(s.subrange(i, i + a.len() + b.len())[k] == s[i + k]);
            assert((a + b)[k] == a[k]);
        }
    }
    assert(s.subrange(i + a.len(), i + a.len() + b.len()) =~= b) by {
        assert forall|k: int| 0 <= k < b.len() implies s[i + a.len() + k] == b[k] by {
            assert(s.subrange(i, i + a.len() + b.len())[a.len() + k] == s[i + a.len() + k]);
            assert((a + b)[a.len() + k] == b[k]);
        }
    }
}

/// Reading the encoded entries of `m` followed by the zero terminator
/// yields exactly `m`.
proof fn lemma_read_map_items_at(s: Seq<u8>, i: int, m: Seq<(Seq<char>, Seq<u8>)>)
    requires
        meta_bounded(m),
        0 <= i,
        i + spec_map_items(m).len() + spec_long(0).len() <= s.len(),
        s.subrange(i, i + spec_map_items(m).len() + spec_long(0).len()) == spec_map_items(m)
            + spec_long(0),
    ensures
        spec_read_map_items(s, i, m.len()) == Ok::<(Seq<(Seq<char>, Seq<u8>)>, int), DecodeError>((
            m,
            i + spec_map_items(m).len() + spec_long(0).len(),
        )),
    decreases m.len(),
{
    if m.len() == 0 {
        assert(m =~= Seq::<(Seq<char>, Seq<u8>)>::empty());
        assert(spec_map_items(m) =~= Seq::<u8>::empty());
        assert(spec_map_items(m) + spec_long(0) =~= spec_long(0));
        lemma_read_long_at(s, i, 0);
    } else {
        let k0 = m[0].0;
        let v0 = m[0].1;
        let rest = m.drop_first();
        let ka = spec_str(k0);
        let va = spec_len_bytes(v0);
        let ra = spec_map_items(rest) + spec_long(0);
        assert(spec_map_items(m) + spec_long(0) =~= ka + (va + ra));
        assert(ka + (va + ra) =~= ka + va + ra);
        let whole = spec_map_items(m).len() + spec_long(0).len();
        assert(whole == ka.len() + va.len() + ra.len());
        lemma_split_at(s, i, ka + va, ra);
        lemma_split_at(s, i, ka, va + ra);
        let j = i + ka.len();
        assert(s.subrange(i, i + (ka + va).len()) =~= ka + va);
        lemma_split_at(s, j, va, ra);
        assert(m[0].0 == k0 && m[0].1 == v0);
        lemma_read_str_at(s, i, k0);
        lemma_read_len_bytes_at(s, j, v0);
        let j2 = j + va.len();
        assert(forall|q: int| 0 <= q < rest.len() ==> rest[q] == m[q + 1]);
        assert(meta_bounded(rest));
        lemma_read_map_items_at(s, j2, rest);
        assert(seq![(k0, v0)] + rest =~= m);
    }
}

proof fn lemma_read_opt_str_at(s: Seq<u8>, i: int, o: Option<Seq<char>>)
    requires
        (o matches Some(cs) ==> encode_utf8(cs).len() <= i64::MAX),
        0 <= i,
        i + spec_opt_str(o).len() <= s.len(),
        s.subrange(i, i + spec_opt_str(o).len()) == spec_opt_str(o),
    ensures
        spec_read_opt_str(s, i) == Ok::<(Option<Seq<char>>, int), DecodeError>((
            o,
            i + spec_opt_str(o).len(),
        )),
{
    match o {
        None => {
            lemma_read_long_at(s, i, 0);
        },
        Some(cs) => {
            lemma_split_at(s, i, spec_long(1), spec_str(cs));
            lemma_read_long_at(s, i, 1);
            lemma_read_str_at(s, i + spec_long(1).len(), cs);
        },
    }
}

proof fn lemma_read_opt_fixed16_at(s: Seq<u8>, i: int, o: Option<Seq<u8>>)
    requires
        (o matches Some(h) ==> h.len() == 16),
        0 <= i,
        i + spec_opt_fixed16(o).len() <= s.len(),
        s.subrange(i, i + spec_opt_fixed16(o).len()) == spec_opt_fixed16(o),
    ensures
        spec_read_opt_fixed16(s, i) == Ok::<(Option<Seq<u8>>, int), DecodeError>((
            o,
            i + spec_opt_fixed16(o).len(),
        )),
{
    match o {
        None => {
            lemma_read_long_at(s, i, 0);
        },
        Some(h) => {
            lemma_split_at(s, i, spec_long(1), h);
            lemma_read_long_at(s, i, 1);
            lemma_read_fixed16_at(s, i + spec_long(1).len(), h);
        },
    }
}

proof fn lemma_read_opt_map_at(s: Seq<u8>, i: int, o: Option<Seq<(Seq<char>, Seq<u8>)>>)
    requires
        (o matches Some(m) ==> meta_bounded(m)),
        0 <= i,
        i + spec_opt_map(o).len() <= s.len(),
        s.subrange(i, i + spec_opt_map(o).len()) == spec_opt_map(o),
    ensures
        spec_read_opt_map(s, i) == Ok::<(Option<Seq<(Seq<char>, Seq<u8>)>>, int), DecodeError>((
            o,
            i + spec_opt_map(o).len(),
        )),
{
    match o {
        None => {
            lemma_read_long_at(s, i, 0);
        },
        Some(m) => {
            lemma_split_at(s, i, spec_long(1), spec_map(m));
            lemma_read_long_at(s, i, 1);
            let j = i + spec_long(1).len();
            if m.len() == 0 {
                assert(spec_map(m) =~= spec_map_items(m) + spec_long(0));
                assert(s.subrange(j, j + spec_map(m).len()) == spec_map_items(m) + spec_long(0));
                lemma_read_map_items_at(s, j, m);
            } else {
                let ca = spec_long(m.len() as int);
                let body = spec_map_items(m) + spec_long(0);
                assert(spec_map(m) =~= ca + body);
                lemma_split_at(s, j, ca, body);
                lemma_read_long_at(s, j, m.len() as int);
                lemma_read_map_items_at(s, j + ca.len(), m);
            }
        },
    }
}

/// Round trip: decoding the encoding of a well-formed request yields that
/// request and consumes the whole encoding.
pub proof fn lemma_request_round_trip(r: HandshakeRequestV)
    requires
        r.wf(),
        r.bounded(),
    ensures
        spec_read_request(spec_encode_request(r)) == Ok::<(HandshakeRequestV, int), DecodeError>((
            r,
            spec_encode_request(r).len() as int,
        )),
{
    let s = spec_encode_request(r);
    let a = r.client_hash;
    let b = spec_opt_str(r.client_protocol);
    let c = r.server_hash;
    let d = spec_opt_map(r.meta);
    assert(s =~= a + (b + (c + d)));
    assert(a + (b + (c + d)) =~= a + b + c + d);
    assert(s.subrange(0, s.len() as int) =~= s);
    lemma_split_at(s, 0, a, b + (c + d));
    let i1 = a.len() as int;
    lemma_split_at(s, i1, b, c + d);
    let i2 = i1 + b.len();
    lemma_split_at(s, i2, c, d);
    let i3 = i2 + c.len();
    lemma_read_fixed16_at(s, 0, a);
    lemma_read_opt_str_at(s, i1, r.client_protocol);
    lemma_read_fixed16_at(s, i2, c);
    assert(s.subrange(i3, i3 + d.len()) == d);
    lemma_read_opt_map_at(s, i3, r.meta);
}

/// Round trip: decoding the encoding of a well-formed response yields that
/// response and consumes the whole encoding; this holds for all three
/// match values.
#[verifier::rlimit(60)]
pub proof fn lemma_response_round_trip(r: HandshakeResponseV)
    requires
        r.wf(),
        r.bounded(),
    ensures
        spec_read_response(spec_encode_response(r)) == Ok::<(HandshakeResponseV, int), DecodeError>(
            (r, spec_encode_response(r).len() as int),
        ),
{
    let s = spec_encode_response(r);
    let a = spec_long(spec_match_index(r.match_));
    let b = spec_opt_str(r.server_protocol);
    let c = spec_opt_fixed16(r.server_hash);
    let d = spec_opt_map(r.meta);
    assert(s =~= a + (b + (c + d)));
    assert(a + (b + (c + d)) =~= a + b + c + d);
    assert(s.subrange(0, s.len() as int) =~= s);
    lemma_split_at(s, 0, a, b + (c + d));
    let i1 = a.len() as int;
    lemma_split_at(s, i1, b, c + d);
    let i2 = i1 + b.len();
    lemma_split_at(s, i2, c, d);
    let i3 = i2 + c.len();
    lemma_read_long_at(s, 0, spec_match_index(r.match_));
    lemma_read_opt_str_at(s, i1, r.server_protocol);
    lemma_read_opt_fixed16_at(s, i2, r.server_hash);
    assert(s.subrange(i3, i3 + d.len()) == d);
    lemma_read_opt_map_at(s, i3, r.meta);
}

// ---------------------------------------------------------------------------
// executable encoding
// ---------------------------------------------------------------------------

/// Appending an entry to a map extends its encoded entry run at the end.
proof fn lemma_map_items_push(m: Seq<(Seq<char>, Seq<u8>)>, e: (Seq<char>, Seq<u8>))
    ensures
        spec_map_items(m.push(e)) == spec_map_items(m) + spec_str(e.0) + spec_len_bytes(e.1),
    decreases m.len(),
{
    if m.len() == 0 {
        assert(m.push(e)[0] == e);
        assert(m.push(e).drop_first() =~= m);
        assert(spec_map_items(m.push(e)) =~= spec_map_items(m) + spec_str(e.0) + spec_len_bytes(
            e.1,
        ));
    } else {
        assert(m.push(e)[0] == m[0]);
        assert(m.push(e).drop_first() =~= m.drop_first().push(e));
        lemma_map_items_push(m.drop_first(), e);
        assert(spec_map_items(m.push(e)) =~= spec_map_items(m) + spec_str(e.0) + spec_len_bytes(
            e.1,
        ));
    }
}

/// Appends the encoding of a map to the buffer.
fn write_map(buf: &mut Vec<u8>, m: &Vec<(String, Vec<u8>)>)
    requires
        meta_bounded(meta_view(*m)),
    ensures
        final(buf)@ == old(buf)@ + spec_map(meta_view(*m)),
{
    let ghost mv: Seq<(Seq<char>, Seq<u8>)> = meta_view(*m);
    if m.len() == 0 {
        write_long(buf, 0);
        return ;
    }
    write_long(buf, m.len() as i64);
    let mut k: usize = 0;
    while k < m.len()
        invariant
            k <= m@.len(),
            mv == meta_view(*m),
            meta_bounded(mv),
            mv.len() == m@.len() <= i64::MAX,
            buf@ == old(buf)@ + spec_long(m@.len() as int) + spec_map_items(mv.take(k as int)),
        decreases m@.len() - k,
    {
        let ghost prefix: Seq<(Seq<char>, Seq<u8>)> = mv.take(k as int);
        proof {
            assert(mv[k as int] == (m@[k as int].0@, m@[k as int].1@));
            assert(encode_utf8(mv[k as int].0).len() <= i64::MAX && mv[k as int].1.len()
                <= i64::MAX);
        }
        write_str(buf, m[k].0.as_str());
        write_len_bytes(buf, &m[k].1);
        k = k + 1;
        proof {
            lemma_map_items_push(prefix, mv[k - 1]);
            assert(prefix.push(mv[k - 1]) =~= mv.take(k as int));
            assert(buf@ =~= old(buf)@ + spec_long(m@.len() as int) + spec_map_items(
                mv.take(k as int),
            ));
        }
    }
    proof {
        assert(mv.take(mv.len() as int) =~= mv);
    }
    write_long(buf, 0);
    proof {
        assert(final(buf)@ =~= old(buf)@ + spec_map(mv));
    }
}

/// Appends the encoding of an optional text field to the buffer.
fn write_opt_str(buf: &mut Vec<u8>, o: &Option<String>)
    requires
        (opt_str_view(*o) matches Some(s) ==> encode_utf8(s).len() <= i64::MAX),
    ensures
        final(buf)@ == old(buf)@ + spec_opt_str(opt_str_view(*o)),
{
    match o {
        None => {
            write_long(buf, 0);
        },
        Some(s) => {
            write_long(buf, 1);
            write_str(buf, s.as_str());
            proof {
                assert(final(buf)@ =~= old(buf)@ + spec_opt_str(opt_str_view(*o)));
            }
        },
    }
}

/// Appends the encoding of an optional map field to the buffer.
fn write_opt_map(buf: &mut Vec<u8>, o: &Option<Vec<(String, Vec<u8>)>>)
    requires
        (opt_meta_view(*o) matches Some(m) ==> meta_bounded(m)),
    ensures
        final(buf)@ == old(buf)@ + spec_opt_map(opt_meta_view(*o)),
{
    match o {
        None => {
            write_long(buf, 0);
        },
        Some(m) => {
            write_long(buf, 1);
            write_map(buf, m);
            proof {
                assert(final(buf)@ =~= old(buf)@ + spec_opt_map(opt_meta_view(*o)));
            }
        },
    }
}

/// Encodes a request into its Avro binary form.
pub fn encode_request(r: &HandshakeRequest) -> (out: Vec<u8>)
    requires
        r@.wf(),
        r@.bounded(),
    ensures
        out@ == spec_encode_request(r@),
{
    let mut buf: Vec<u8> = Vec::new();
    write_raw(&mut buf, &r.client_hash);
    write_opt_str(&mut buf, &r.client_protocol);
    write_raw(&mut buf, &r.server_hash);
    write_opt_map(&mut buf, &r.meta);
    proof {
        assert(buf@ =~= spec_encode_request(r@));
    }
    buf
}

/// Encodes a response into its Avro binary form.
pub fn encode_response(r: &HandshakeResponse) -> (out: Vec<u8>)
    requires
        r@.bounded(),
        (r@.server_hash matches Some(h) ==> h.len() == 16),
    ensures
        out@ == spec_encode_response(r@),
{
    let mut buf: Vec<u8> = Vec::new();
    let idx: i64 = match r.match_ {
        HandshakeMatch::BOTH => 0,
        HandshakeMatch::CLIENT => 1,
        HandshakeMatch::NONE => 2,
    };
    write_long(&mut buf, idx);
    write_opt_str(&mut buf, &r.server_protocol);
    match &r.server_hash {
        None => {
            write_long(&mut buf, 0);
        },
        Some(h) => {
            write_long(&mut buf, 1);
            write_raw(&mut buf, h);
        },
    }
    write_opt_map(&mut buf, &r.meta);
    proof {
        assert(buf@ =~= spec_encode_response(r@));
    }
    buf
}

// ---------------------------------------------------------------------------
// executable decoding
// ---------------------------------------------------------------------------

/// Reads the blocks of a map.
fn read_map(s: &Vec<u8>, pos: usize) -> (r: Result<(Vec<(String, Vec<u8>)>, usize), DecodeError>)
    requires
        pos <= s@.len(),
    ensures
        (match spec_read_map_items(s@, pos as int, 0) {
            Ok((m, j)) => r matches Ok(p) && meta_view(p.0) == m && p.1 == j as usize,
            Err(e) => r == Err::<(Vec<(String, Vec<u8>)>, usize), DecodeError>(e),
        }),
{
    let mut out: Vec<(String, Vec<u8>)> = Vec::new();
    let mut i: usize = pos;
    let mut remaining: u64 = 0;
    proof {
        vstd::std_specs::vec::axiom_spec_len(s);
        assert(meta_view(out) =~= Seq::<(Seq<char>, Seq<u8>)>::empty());
        match spec_read_map_items(s@, pos as int, 0) {
            Ok((m0, j0)) => {
                assert(meta_view(out) + m0 =~= m0);
            },
            Err(_) => {},
        }
    }
    loop
        invariant
            s@.len() <= usize::MAX,
            pos <= i <= s@.len(),
            (match spec_read_map_items(s@, i as int, remaining as nat) {
                Ok((m, j)) => spec_read_map_items(s@, pos as int, 0) == Ok::<
                    (Seq<(Seq<char>, Seq<u8>)>, int),
                    DecodeError,
                >((meta_view(out) + m, j)),
                Err(e) => spec_read_map_items(s@, pos as int, 0) == Err::<
                    (Seq<(Seq<char>, Seq<u8>)>, int),
                    DecodeError,
                >(e),
            }),
        decreases s@.len() - i, remaining,
    {
        proof {
            lemma_read_long_bounds(s@, i as int);
            lemma_read_str_bounds(s@, i as int);
        }
        if remaining == 0 {
            match read_long(s, i) {
                Ok((c, j)) => {
                    if c == 0 {
                        proof {
                            assert(spec_read_map_items(s@, i as int, 0) == Ok::<
                                (Seq<(Seq<char>, Seq<u8>)>, int),
                                DecodeError,
                            >((Seq::empty(), j as int)));
                            assert(meta_view(out) + Seq::<(Seq<char>, Seq<u8>)>::empty()
                                =~= meta_view(out));
                        }
                        return Ok((out, j));
                    } else if c < 0 {
                        return Err(DecodeError::BadMapCount);
                    } else {
                        let ghost oi: int = i as int;
                        remaining = c as u64;
                        i = j;
                        proof {
                            assert(spec_read_map_items(s@, oi, 0) == spec_read_map_items(
                                s@,
                                i as int,
                                remaining as nat,
                            ));
                        }
                    }
                },
                Err(e) => {
                    return Err(e);
                },
            }
        } else {
            match read_str(s, i) {
                Ok((key, j)) => {
                    proof {
                        lemma_read_len_bytes_bounds(s@, j as int);
                    }
                    match read_len_bytes(s, j) {
                        Ok((val, j2)) => {
                            let ghost oi: int = i as int;
                            let ghost orem: nat = remaining as nat;
                            let ghost prev: Seq<(Seq<char>, Seq<u8>)> = meta_view(out);
                            let ghost kv: (Seq<char>, Seq<u8>) = (key@, val@);
                            out.push((key, val));
                            remaining = remaining - 1;
                            i = j2;
                            proof {
                                assert forall|q: int| 0 <= q < meta_view(out).len() implies
                                    meta_view(out)[q] == prev.push(kv)[q] by {
                                    if q < prev.len() {
                                        assert(meta_view(out)[q] == prev[q]);
                                    }
                                }
                                assert(meta_view(out) =~= prev.push(kv));
                                match spec_read_map_items(s@, i as int, remaining as nat) {
                                    Ok((rest, end)) => {
                                        assert(spec_read_map_items(s@, oi, orem) == Ok::<
                                            (Seq<(Seq<char>, Seq<u8>)>, int),
                                            DecodeError,
                                        >((seq![kv] + rest, end)));
                                        assert(prev + (seq![kv] + rest) =~= meta_view(out) + rest);
                                    },
                                    Err(e) => {
                                        assert(spec_read_map_items(s@, oi, orem) == Err::<
                                            (Seq<(Seq<char>, Seq<u8>)>, int),
                                            DecodeError,
                                        >(e));
                                    },
                                }
                            }
                        },
                        Err(e) => {
                            return Err(e);
                        },
                    }
                },
                Err(e) => {
                    return Err(e);
                },
            }
        }
    }
}

/// Reads an optional text field.
fn read_opt_str(s: &Vec<u8>, pos: usize) -> (r: Result<(Option<String>, usize), DecodeError>)
    requires
        pos <= s@.len(),
    ensures
        (match spec_read_opt_str(s@, pos as int) {
            Ok((o, j)) => r matches Ok(p) && opt_str_view(p.0) == o && p.1 == j as usize,
            Err(e) => r == Err::<(Option<String>, usize), DecodeError>(e),
        }),
{
    proof {
        vstd::std_specs::vec::axiom_spec_len(s);
        lemma_read_long_bounds(s@, pos as int);
    }
    match read_long(s, pos) {
        Ok((t, j)) => {
            if t == 0 {
                Ok((None, j))
            } else if t == 1 {
                match read_str(s, j) {
                    Ok((st, j2)) => Ok((Some(st), j2)),
                    Err(e) => Err(e),
                }
            } else {
                Err(DecodeError::BadUnionIndex)
            }
        },
        Err(e) => Err(e),
    }
}

/// Reads an optional 16-byte hash field.
fn read_opt_fixed16(s: &Vec<u8>, pos: usize) -> (r: Result<(Option<Vec<u8>>, usize), DecodeError>)
    requires
        pos <= s@.len(),
    ensures
        (match spec_read_opt_fixed16(s@, pos as int) {
            Ok((o, j)) => r matches Ok(p) && opt_hash_view(p.0) == o && p.1 == j as usize,
            Err(e) => r == Err::<(Option<Vec<u8>>, usize), DecodeError>(e),
        }),
{
    proof {
        vstd::std_specs::vec::axiom_spec_len(s);
        lemma_read_long_bounds(s@, pos as int);
    }
    match read_long(s, pos) {
        Ok((t, j)) => {
            if t == 0 {
                Ok((None, j))
            } else if t == 1 {
                match read_fixed16(s, j) {
                    Ok((h, j2)) => Ok((Some(h), j2)),
                    Err(e) => Err(e),
                }
            } else {
                Err(DecodeError::BadUnionIndex)
            }
        },
        Err(e) => Err(e),
    }
}

/// Reads an optional map field.
fn read_opt_map(s: &Vec<u8>, pos: usize) -> (r: Result<
    (Option<Vec<(String, Vec<u8>)>>, usize),
    DecodeError,
>)
    requires
        pos <= s@.len(),
    ensures
        (match spec_read_opt_map(s@, pos as int) {
            Ok((o, j)) => r matches Ok(p) && opt_meta_view(p.0) == o && p.1 == j as usize,
            Err(e) => r == Err::<(Option<Vec<(String, Vec<u8>)>>, usize), DecodeError>(e),
        }),
{
    proof {
        vstd::std_specs::vec::axiom_spec_len(s);
        lemma_read_long_bounds(s@, pos as int);
    }
    match read_long(s, pos) {
        Ok((t, j)) => {
            if t == 0 {
                Ok((None, j))
            } else if t == 1 {
                match read_map(s, j) {
                    Ok((m, j2)) => Ok((Some(m), j2)),
                    Err(e) => Err(e),
                }
            } else {
                Err(DecodeError::BadUnionIndex)
            }
        },
        Err(e) => Err(e),
    }
}

/// Decodes a request payload. Exactly the inputs accepted by the
/// spec-level decoder are accepted, with the same resulting value.
pub fn decode_request(s: &Vec<u8>) -> (r: Result<HandshakeRequest, DecodeError>)
    ensures
        (match spec_read_request(s@) {
            Ok((v, j)) => r matches Ok(q) && q@ == v && v.wf(),
            Err(e) => r == Err::<HandshakeRequest, DecodeError>(e),
        }),
{
    proof {
        vstd::std_specs::vec::axiom_spec_len(s);
    }
    match read_fixed16(s, 0) {
        Ok((ch, i1)) => {
            proof {
                lemma_read_opt_str_bounds(s@, i1 as int);
            }
            match read_opt_str(s, i1) {
                Ok((cp, i2)) => {
                    match read_fixed16(s, i2) {
                        Ok((sh, i3)) => {
                            match read_opt_map(s, i3) {
                                Ok((m, _i4)) => Ok(
                                    HandshakeRequest {
                                        client_hash: ch,
                                        client_protocol: cp,
                                        server_hash: sh,
                                        meta: m,
                                    },
                                ),
                                Err(e) => Err(e),
                            }
                        },
                        Err(e) => Err(e),
                    }
                },
                Err(e) => Err(e),
            }
        },
        Err(e) => Err(e),
    }
}

/// Decodes a response payload. Exactly the inputs accepted by the
/// spec-level decoder are accepted, with the same resulting value.
pub fn decode_response(s: &Vec<u8>) -> (r: Result<HandshakeResponse, DecodeError>)
    ensures
        (match spec_read_response(s@) {
            Ok((v, j)) => r matches Ok(q) && q@ == v,
            Err(e) => r == Err::<HandshakeResponse, DecodeError>(e),
        }),
{
    proof {
        vstd::std_specs::vec::axiom_spec_len(s);
        lemma_read_long_bounds(s@, 0);
    }
    match read_long(s, 0) {
        Ok((t, i1)) => {
            if t < 0 || t > 2 {
                Err(DecodeError::BadEnumIndex)
            } else {
                let m: HandshakeMatch = if t == 0 {
                    HandshakeMatch::BOTH
                } else if t == 1 {
                    HandshakeMatch::CLIENT
                } else {
                    HandshakeMatch::NONE
                };
                proof {
                    lemma_read_opt_str_bounds(s@, i1 as int);
                }
                match read_opt_str(s, i1) {
                    Ok((sp, i2)) => {
                        proof {
                            lemma_read_opt_fixed16_bounds(s@, i2 as int);
                        }
                        match read_opt_fixed16(s, i2) {
                            Ok((sh, i3)) => {
                                match read_opt_map(s, i3) {
                                    Ok((mm, _i4)) => {
                                        if !matches!(m, HandshakeMatch::BOTH) && matches!(
                                            sp,
                                            None,
                                        ) {
                                            Err(DecodeError::MissingField)
                                        } else {
                                            Ok(
                                                HandshakeResponse {
                                                    match_: m,
                                                    server_protocol: sp,
                                                    server_hash: sh,
                                                    meta: mm,
                                                },
                                            )
                                        }
                                    },
                                    Err(e) => Err(e),
                                }
                            },
                            Err(e) => Err(e),
                        }
                    },
                    Err(e) => Err(e),
                }
            }
        },
        Err(e) => Err(e),
    }
}

} // verus!
