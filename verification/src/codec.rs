//! Avro binary primitives: zig-zag variable-length integers, length-prefixed
//! byte runs, UTF-8 strings and fixed-size fields.
//!
//! Each primitive has a spec-level encoder (`spec_*`), a spec-level total
//! decoder (`spec_read_*`) that says exactly which inputs decode and to what,
//! and executable functions proved against them. The `lemma_read_*_at`
//! lemmas state that decoding an encoding embedded in a larger buffer
//! recovers the encoded value; the record round-trip proofs build on them.

use vstd::prelude::*;
use vstd::utf8::{decode_utf8, encode_utf8, valid_utf8};

verus! {

/// Why a payload failed to decode. Each variant names the first offending
/// condition met while reading left to right.
#[derive(Debug, Clone, Copy, PartialEq, Eq, Structural)]
pub enum DecodeError {
    /// The input ended before a declared length or field was complete.
    UnexpectedEnd,
    /// A variable-length integer did not fit in 64 bits.
    Overflow,
    /// A string or bytes length prefix was negative.
    BadLength,
    /// A union branch index was neither 0 nor 1.
    BadUnionIndex,
    /// An enum index was outside the symbol list.
    BadEnumIndex,
    /// A map block count was negative.
    BadMapCount,
    /// A string field held bytes that are not valid UTF-8.
    BadUtf8,
    /// A field required by the declared match value was absent.
    MissingField,
}

// ---------------------------------------------------------------------------
// zig-zag mapping between signed values and the unsigned values that the
// variable-length encoding carries
// ---------------------------------------------------------------------------

/// The zig-zag image of a signed value: non-negative n maps to 2n,
/// negative n to -2n - 1.
pub open spec fn spec_zigzag(n: int) -> nat {
    if n >= 0 {
        (2 * n) as nat
    } else {
        (-2 * n - 1) as nat
    }
}

/// The signed value a zig-zag image stands for.
pub open spec fn spec_unzigzag(u: nat) -> int {
    if u % 2 == 0 {
        (u / 2) as int
    } else {
        -((u / 2) as int) - 1
    }
}

pub proof fn lemma_zigzag_round_trip(n: int)
    requires
        i64::MIN <= n <= i64::MAX,
    ensures
        spec_unzigzag(spec_zigzag(n)) == n,
        spec_zigzag(n) <= u64::MAX,
{
}

pub proof fn lemma_unzigzag_in_range(u: nat)
    requires
        u <= u64::MAX,
    ensures
        i64::MIN <= spec_unzigzag(u) <= i64::MAX,
{
}

/// Maps a signed 64-bit value to its zig-zag image.
pub fn zigzag(n: i64) -> (r: u64)
    ensures
        r as nat == spec_zigzag(n as int),
{
    if n >= 0 {
        (n as u64) * 2
    } else {
        let m: u64 = (-(n + 1)) as u64;
        m * 2 + 1
    }
}

/// Maps a zig-zag image back to the signed value it stands for.
pub fn unzigzag(u: u64) -> (r: i64)
    ensures
        r as int == spec_unzigzag(u as nat),
{
    if u % 2 == 0 {
        (u / 2) as i64
    } else {
        -((u / 2) as i64) - 1
    }
}

// ---------------------------------------------------------------------------
// base-128 variable-length encoding of unsigned values
// ---------------------------------------------------------------------------

/// The little-endian base-128 encoding of an unsigned value: seven value
/// bits per byte, the high bit set on every byte but the last.
pub open spec fn spec_varint(u: nat) -> Seq<u8>
    decreases u,
    via spec_varint_dec
{
    if u < 128 {
        seq![u as u8]
    } else {
        seq![(128 + u % 128) as u8] + spec_varint(u / 128)
    }
}

#[via_fn]
proof fn spec_varint_dec(u: nat) {
    assert(u >= 128 ==> u / 128 < u) by (nonlinear_arith);
}

/// 128 raised to the k-th power; the place value of the k-th byte of a
/// variable-length integer.
pub open spec fn pow128(k: nat) -> nat
    decreases k,
{
    if k == 0 {
        1
    } else {
        128 * pow128((k - 1) as nat)
    }
}

proof fn lemma_pow128_pos(k: nat)
    ensures
        pow128(k) >= 1,
    decreases k,
{
    if k > 0 {
        lemma_pow128_pos((k - 1) as nat);
    }
}

proof fn lemma_pow128_le(a: nat, b: nat)
    requires
        a <= b,
    ensures
        pow128(a) <= pow128(b),
    decreases b,
{
    if a < b {
        lemma_pow128_le(a, (b - 1) as nat);
        lemma_pow128_pos((b - 1) as nat);
    }
}

proof fn lemma_pow128_9()
    ensures
        pow128(9) == 0x8000000000000000,
{
    assert(pow128(0) == 1);
    assert(pow128(1) == 128);
    assert(pow128(2) == 0x4000);
    assert(pow128(3) == 0x200000);
    assert(pow128(4) == 0x10000000);
    assert(pow128(5) == 0x800000000);
    assert(pow128(6) == 0x40000000000);
    assert(pow128(7) == 0x2000000000000);
    assert(pow128(8) == 0x100000000000000);
    assert(pow128(9) == 0x8000000000000000);
}

proof fn lemma_pow128_big(k: nat)
    requires
        k >= 10,
    ensures
        pow128(k) > u64::MAX,
    decreases k,
{
    if k == 10 {
        lemma_pow128_9();
        assert(pow128(10) == 128 * pow128(9));
    } else {
        lemma_pow128_big((k - 1) as nat);
        assert(pow128(k) == 128 * pow128((k - 1) as nat));
    }
}

/// The total spec-level decoder of a variable-length integer starting at
/// position `i`: the decoded value (unbounded) and the position after it,
/// or the error met first.
pub open spec fn spec_read_varint(s: Seq<u8>, i: int) -> Result<(nat, int), DecodeError>
    decreases s.len() - i,
{
    if i < 0 || i >= s.len() {
        Err(DecodeError::UnexpectedEnd)
    } else if s[i] < 128 {
        Ok((s[i] as nat, i + 1))
    } else {
        match spec_read_varint(s, i + 1) {
            Ok((v, j)) => Ok((((s[i] - 128) as nat + 128 * v) as nat, j)),
            Err(e) => Err(e),
        }
    }
}

/// A successful read consumes at least one byte and stays inside the input.
pub proof fn lemma_read_varint_bounds(s: Seq<u8>, i: int)
    ensures
        spec_read_varint(s, i) matches Ok((v, j)) ==> i < j <= s.len(),
    decreases s.len() - i,
{
    if 0 <= i < s.len() && s[i] >= 128 {
        lemma_read_varint_bounds(s, i + 1);
    }
}

/// Decoding an embedded encoding recovers the encoded value.
pub proof fn lemma_read_varint_at(s: Seq<u8>, i: int, u: nat)
    requires
        0 <= i,
        i + spec_varint(u).len() <= s.len(),
        s.subrange(i, i + spec_varint(u).len()) == spec_varint(u),
    ensures
        spec_read_varint(s, i) == Ok::<(nat, int), DecodeError>((u, i + spec_varint(u).len())),
    decreases u,
{
    let e = spec_varint(u);
    assert(s.subrange(i, i + e.len())[0] == s[i]);
    if u < 128 {
        assert(e =~= seq![u as u8]);
        assert(s[i] == u as u8);
    } else {
        let tail = spec_varint(u / 128);
        assert(e =~= seq![(128 + u % 128) as u8] + tail);
        assert(s[i] == (128 + u % 128) as u8);
        assert(s[i] >= 128);
        assert(s.subrange(i + 1, i + 1 + tail.len() as int) =~= tail) by {
            assert forall|k: int| 0 <= k < tail.len() implies s[i + 1 + k] == tail[k] by {
                assert(s.subrange(i, i + e.len())[k + 1] == s[i + 1 + k]);
                assert(e[k + 1] == tail[k]);
            }
        }
        assert(u / 128 < u) by (nonlinear_arith)
            requires
                u >= 128,
        ;
        lemma_read_varint_at(s, i + 1, u / 128);
        assert((s[i] - 128) as nat + 128 * (u / 128) == u % 128 + 128 * (u / 128));
        assert(u % 128 + 128 * (u / 128) == u);
    }
}

/// Appends the variable-length encoding of `u` to the buffer.
pub fn write_varint(buf: &mut Vec<u8>, u: u64)
    ensures
        final(buf)@ == old(buf)@ + spec_varint(u as nat),
{
    let mut x: u64 = u;
    while x >= 128
        invariant
            old(buf)@ + spec_varint(u as nat) == buf@ + spec_varint(x as nat),
        decreases x,
    {
        let ghost prev: Seq<u8> = buf@;
        let ghost xg: nat = x as nat;
        buf.push((128 + (x % 128)) as u8);
        x = x / 128;
        proof {
            assert(spec_varint(xg) == seq![(128 + xg % 128) as u8] + spec_varint(xg / 128));
            assert(prev + spec_varint(xg) =~= buf@ + spec_varint(x as nat));
        }
    }
    let ghost prev: Seq<u8> = buf@;
    buf.push(x as u8);
    proof {
        assert(spec_varint(x as nat) =~= seq![x as u8]);
        assert(buf@ =~= prev + spec_varint(x as nat));
    }
}

/// Reads a variable-length integer; rejects values over 64 bits.
pub fn read_varint_u64(s: &Vec<u8>, pos: usize) -> (r: Result<(u64, usize), DecodeError>)
    requires
        pos <= s@.len(),
    ensures
        (match spec_read_varint(s@, pos as int) {
            Ok((v, j)) => if v <= u64::MAX {
                r == Ok::<(u64, usize), DecodeError>((v as u64, j as usize))
            } else {
                r == Err::<(u64, usize), DecodeError>(DecodeError::Overflow)
            },
            Err(e) => r == Err::<(u64, usize), DecodeError>(e),
        }),
{
    let mut i: usize = pos;
    let mut idx: usize = 0;
    let mut acc: u128 = 0;
    let mut mult: u128 = 1;
    let mut over: bool = false;
    let ghost mut acc_g: nat = 0nat;
    loop
        invariant
            pos <= i <= s@.len(),
            idx == i - pos,
            idx <= 9 ==> mult == pow128(idx as nat) && mult <= 0x8000000000000000,
            over <==> acc_g > u64::MAX,
            !over ==> acc as nat == acc_g,
            (match spec_read_varint(s@, i as int) {
                Ok((v, j)) => spec_read_varint(s@, pos as int) == Ok::<(nat, int), DecodeError>((
                    (acc_g + pow128(idx as nat) * v) as nat,
                    j,
                )),
                Err(e) => spec_read_varint(s@, pos as int) == Err::<(nat, int), DecodeError>(e),
            }),
        decreases s@.len() - i,
    {
        if i >= s.len() {
            assert(spec_read_varint(s@, i as int) == Err::<(nat, int), DecodeError>(
                DecodeError::UnexpectedEnd,
            ));
            return Err(DecodeError::UnexpectedEnd);
        }
        let b: u8 = s[i];
        let low: u8 = b % 128;
        let ghost p: nat = pow128(idx as nat);
        proof {
            lemma_pow128_pos(idx as nat);
            if idx >= 10 {
                lemma_pow128_big(idx as nat);
            }
        }
        if b < 128 {
            // terminating byte: the total value is acc_g plus this byte's
            // contribution at its place value
            assert(spec_read_varint(s@, i as int) == Ok::<(nat, int), DecodeError>((
                b as nat,
                i + 1,
            )));
            let ghost total: nat = (acc_g + p * (b as nat)) as nat;
            if over {
                assert(p * (b as nat) >= 0);
                assert(total > u64::MAX);
                return Err(DecodeError::Overflow);
            }
            if idx <= 9 {
                proof {
                    assert((low as int) * (mult as int) <= 127 * 0x8000000000000000)
                        by (nonlinear_arith)
                        requires
                            low < 128,
                            0 <= (mult as int) <= 0x8000000000000000,
                    ;
                }
                let tot: u128 = acc + (low as u128) * mult;
                assert(tot as nat == total);
                if tot > 0xffffffffffffffffu128 {
                    return Err(DecodeError::Overflow);
                }
                return Ok((tot as u64, i + 1));
            }
            // ten or more bytes in: any non-zero contribution overflows
            if low > 0 {
                proof {
                    assert(p * (b as nat) >= p) by (nonlinear_arith)
                        requires
                            p >= 0,
                            b as nat >= 1,
                    ;
                }
                assert(total > u64::MAX);
                return Err(DecodeError::Overflow);
            }
            proof {
                assert(p * (b as nat) == 0) by (nonlinear_arith)
                    requires
                        b as nat == 0,
                ;
            }
            assert(total == acc_g);
            return Ok((acc as u64, i + 1));
        }
        // continuation byte: fold its contribution into the accumulator
        assert(low == (b - 128) as u8);
        let ghost piece: nat = (p * (low as nat)) as nat;
        proof {
            match spec_read_varint(s@, i + 1) {
                Ok((v2, j2)) => {
                    assert(spec_read_varint(s@, i as int) == Ok::<(nat, int), DecodeError>((
                        ((low as nat) + 128 * v2) as nat,
                        j2,
                    )));
                    assert(p * ((low as nat) + 128 * v2) == p * (low as nat) + (128 * p) * v2)
                        by (nonlinear_arith);
                    assert(pow128((idx + 1) as nat) == 128 * p);
                },
                Err(_) => {},
            }
        }
        if idx >= 10 {
            if low > 0 {
                proof {
                    assert(p * (low as nat) >= p) by (nonlinear_arith)
                        requires
                            p >= 0,
                            low as nat >= 1,
                    ;
                    assert(piece >= p);
                    acc_g = (acc_g + piece) as nat;
                }
                over = true;
            } else {
                proof {
                    assert(p * (low as nat) == 0) by (nonlinear_arith)
                        requires
                            low as nat == 0,
                    ;
                    assert(piece == 0);
                    acc_g = (acc_g + piece) as nat;
                }
            }
        } else {
            proof {
                assert((low as int) * (mult as int) <= 127 * 0x8000000000000000)
                    by (nonlinear_arith)
                    requires
                        low < 128,
                        0 <= (mult as int) <= 0x8000000000000000,
                ;
            }
            if !over {
                let tot: u128 = acc + (low as u128) * mult;
                assert(tot as nat == acc_g + piece);
                if tot > 0xffffffffffffffffu128 {
                    over = true;
                } else {
                    acc = tot;
                }
            }
            proof {
                acc_g = (acc_g + piece) as nat;
            }
            if idx < 9 {
                proof {
                    assert(pow128((idx + 1) as nat) == 128 * p);
                    lemma_pow128_le((idx + 1) as nat, 9);
                    lemma_pow128_9();
                }
                mult = mult * 128;
            }
        }
        i = i + 1;
        idx = idx + 1;
    }
}

// ---------------------------------------------------------------------------
// signed longs: zig-zag composed with the variable-length encoding
// ---------------------------------------------------------------------------

/// The Avro binary encoding of a signed long.
pub open spec fn spec_long(n: int) -> Seq<u8> {
    spec_varint(spec_zigzag(n))
}

/// The total spec-level decoder of a signed long.
pub open spec fn spec_read_long(s: Seq<u8>, i: int) -> Result<(int, int), DecodeError> {
    match spec_read_varint(s, i) {
        Ok((v, j)) => if v <= u64::MAX {
            Ok((spec_unzigzag(v), j))
        } else {
            Err(DecodeError::Overflow)
        },
        Err(e) => Err(e),
    }
}

pub proof fn lemma_read_long_bounds(s: Seq<u8>, i: int)
    ensures
        spec_read_long(s, i) matches Ok((n, j)) ==> i < j <= s.len() && i64::MIN <= n <= i64::MAX,
{
    lemma_read_varint_bounds(s, i);
    if let Ok((v, _)) = spec_read_varint(s, i) {
        if v <= u64::MAX {
            lemma_unzigzag_in_range(v);
        }
    }
}

pub proof fn lemma_read_long_at(s: Seq<u8>, i: int, n: int)
    requires
        i64::MIN <= n <= i64::MAX,
        0 <= i,
        i + spec_long(n).len() <= s.len(),
        s.subrange(i, i + spec_long(n).len()) == spec_long(n),
    ensures
        spec_read_long(s, i) == Ok::<(int, int), DecodeError>((n, i + spec_long(n).len())),
{
    lemma_zigzag_round_trip(n);
    lemma_read_varint_at(s, i, spec_zigzag(n));
}

/// Appends the encoding of a signed long to the buffer.
pub fn write_long(buf: &mut Vec<u8>, n: i64)
    ensures
        final(buf)@ == old(buf)@ + spec_long(n as int),
{
    let z: u64 = zigzag(n);
    write_varint(buf, z);
}

/// Reads a signed long.
pub fn read_long(s: &Vec<u8>, pos: usize) -> (r: Result<(i64, usize), DecodeError>)
    requires
        pos <= s@.len(),
    ensures
        (match spec_read_long(s@, pos as int) {
            Ok((n, j)) => r == Ok::<(i64, usize), DecodeError>((n as i64, j as usize)),
            Err(e) => r == Err::<(i64, usize), DecodeError>(e),
        }),
{
    proof {
        lemma_read_long_bounds(s@, pos as int);
    }
    match read_varint_u64(s, pos) {
        Ok((v, j)) => Ok((unzigzag(v), j)),
        Err(e) => Err(e),
    }
}

// ---------------------------------------------------------------------------
// length-prefixed byte runs and UTF-8 strings
// ---------------------------------------------------------------------------

/// The encoding of a bytes field: its length as a long, then the raw bytes.
pub open spec fn spec_len_bytes(b: Seq<u8>) -> Seq<u8> {
    spec_long(b.len() as int) + b
}

/// The total spec-level decoder of a bytes field.
pub open spec fn spec_read_len_bytes(s: Seq<u8>, i: int) -> Result<(Seq<u8>, int), DecodeError> {
    match spec_read_long(s, i) {
        Ok((n, j)) => if n < 0 {
            Err(DecodeError::BadLength)
        } else if j + n > s.len() {
            Err(DecodeError::UnexpectedEnd)
        } else {
            Ok((s.subrange(j, j + n), j + n))
        },
        Err(e) => Err(e),
    }
}

pub proof fn lemma_read_len_bytes_bounds(s: Seq<u8>, i: int)
    ensures
        spec_read_len_bytes(s, i) matches Ok((b, j)) ==> i < j <= s.len(),
{
    lemma_read_long_bounds(s, i);
}

pub proof fn lemma_read_len_bytes_at(s: Seq<u8>, i: int, b: Seq<u8>)
    requires
        b.len() <= i64::MAX,
        0 <= i,
        i + spec_len_bytes(b).len() <= s.len(),
        s.subrange(i, i + spec_len_bytes(b).len()) == spec_len_bytes(b),
    ensures
        spec_read_len_bytes(s, i) == Ok::<(Seq<u8>, int), DecodeError>((
            b,
            i + spec_len_bytes(b).len(),
        )),
{
    let pre = spec_long(b.len() as int);
    let whole = spec_len_bytes(b);
    assert(s.subrange(i, i + pre.len() as int) =~= pre) by {
        assert forall|k: int| 0 <= k < pre.len() implies s[i + k] == pre[k] by {
            assert(s.subrange(i, i + whole.len())[k] == s[i + k]);
            assert(whole[k] == pre[k]);
        }
    }
    lemma_read_long_at(s, i, b.len() as int);
    let j = i + pre.len();
    assert(s.subrange(j, j + b.len() as int) =~= b) by {
        assert forall|k: int| 0 <= k < b.len() implies s[j + k] == b[k] by {
            assert(s.subrange(i, i + whole.len())[pre.len() + k] == s[j + k]);
            assert(whole[pre.len() + k] == b[k]);
        }
    }
}

/// Copies `s[a..b]` into a fresh vector.
pub fn copy_range(s: &Vec<u8>, a: usize, b: usize) -> (r: Vec<u8>)
    requires
        a <= b <= s@.len(),
    ensures
        r@ == s@.subrange(a as int, b as int),
{
    let mut out: Vec<u8> = Vec::new();
    proof {
        assert(out@ =~= s@.subrange(a as int, a as int));
    }
    let mut k: usize = a;
    while k < b
        invariant
            a <= k <= b <= s@.len(),
            out@ == s@.subrange(a as int, k as int),
        decreases b - k,
    {
        out.push(s[k]);
        k = k + 1;
        proof {
            assert(out@ =~= s@.subrange(a as int, k as int));
        }
    }
    out
}

/// Appends all of `b` to the buffer.
pub fn write_raw(buf: &mut Vec<u8>, b: &Vec<u8>)
    ensures
        final(buf)@ == old(buf)@ + b@,
{
    proof {
        assert(buf@ =~= old(buf)@ + b@.subrange(0, 0));
    }
    let mut k: usize = 0;
    while k < b.len()
        invariant
            k <= b@.len(),
            buf@ == old(buf)@ + b@.subrange(0, k as int),
        decreases b@.len() - k,
    {
        buf.push(b[k]);
        k = k + 1;
        proof {
            assert(buf@ =~= old(buf)@ + b@.subrange(0, k as int));
        }
    }
    proof {
        assert(b@.subrange(0, b@.len() as int) =~= b@);
    }
}

/// Appends a length-prefixed bytes field to the buffer.
pub fn write_len_bytes(buf: &mut Vec<u8>, b: &Vec<u8>)
    requires
        b@.len() <= i64::MAX,
    ensures
        final(buf)@ == old(buf)@ + spec_len_bytes(b@),
{
    write_long(buf, b.len() as i64);
    write_raw(buf, b);
    proof {
        assert(buf@ =~= old(buf)@ + spec_len_bytes(b@));
    }
}

/// Reads a length-prefixed bytes field.
pub fn read_len_bytes(s: &Vec<u8>, pos: usize) -> (r: Result<(Vec<u8>, usize), DecodeError>)
    requires
        pos <= s@.len(),
    ensures
        (match spec_read_len_bytes(s@, pos as int) {
            Ok((b, j)) => r matches Ok(p) && p.0@ == b && p.1 == j as usize,
            Err(e) => r == Err::<(Vec<u8>, usize), DecodeError>(e),
        }),
{
    proof {
        lemma_read_long_bounds(s@, pos as int);
    }
    match read_long(s, pos) {
        Ok((n, j)) => {
            if n < 0 {
                Err(DecodeError::BadLength)
            } else {
                let len: usize = s.len();
                if (n as u64) > ((len - j) as u64) {
                    Err(DecodeError::UnexpectedEnd)
                } else {
                    let end: usize = j + (n as usize);
                    Ok((copy_range(s, j, end), end))
                }
            }
        },
        Err(e) => Err(e),
    }
}

/// Relies on `String::from_utf8`: it succeeds exactly on valid UTF-8 input,
/// and the characters of the returned string are the decoded scalar values
/// of that input, stated here with vstd's own UTF-8 model.
#[verifier::external_body]
fn string_from_utf8(v: Vec<u8>) -> (r: Option<String>)
    ensures
        r is Some <==> valid_utf8(v@),
        r is Some ==> r.unwrap()@ == decode_utf8(v@),
{
    match String::from_utf8(v) {
        Ok(s) => Some(s),
        Err(_) => None,
    }
}

/// The encoding of a string field: the UTF-8 bytes of its characters as a
/// length-prefixed bytes field.
pub open spec fn spec_str(cs: Seq<char>) -> Seq<u8> {
    spec_len_bytes(encode_utf8(cs))
}

/// The total spec-level decoder of a string field.
pub open spec fn spec_read_str(s: Seq<u8>, i: int) -> Result<(Seq<char>, int), DecodeError> {
    match spec_read_len_bytes(s, i) {
        Ok((b, j)) => if valid_utf8(b) {
            Ok((decode_utf8(b), j))
        } else {
            Err(DecodeError::BadUtf8)
        },
        Err(e) => Err(e),
    }
}

pub proof fn lemma_read_str_bounds(s: Seq<u8>, i: int)
    ensures
        spec_read_str(s, i) matches Ok((cs, j)) ==> i < j <= s.len(),
{
    lemma_read_len_bytes_bounds(s, i);
}

pub proof fn lemma_read_str_at(s: Seq<u8>, i: int, cs: Seq<char>)
    requires
        encode_utf8(cs).len() <= i64::MAX,
        0 <= i,
        i + spec_str(cs).len() <= s.len(),
        s.subrange(i, i + spec_str(cs).len()) == spec_str(cs),
    ensures
        spec_read_str(s, i) == Ok::<(Seq<char>, int), DecodeError>((cs, i + spec_str(cs).len())),
{
    lemma_read_len_bytes_at(s, i, encode_utf8(cs));
    vstd::utf8::encode_utf8_valid_utf8(cs);
    vstd::utf8::encode_utf8_decode_utf8(cs);
}

/// Appends a string field to the buffer.
pub fn write_str(buf: &mut Vec<u8>, st: &str)
    requires
        encode_utf8(st@).len() <= i64::MAX,
    ensures
        final(buf)@ == old(buf)@ + spec_str(st@),
{
    let bytes: &[u8] = st.as_bytes();
    let v: Vec<u8> = vstd::slice::slice_to_vec(bytes);
    write_len_bytes(buf, &v);
}

/// Reads a string field.
pub fn read_str(s: &Vec<u8>, pos: usize) -> (r: Result<(String, usize), DecodeError>)
    requires
        pos <= s@.len(),
    ensures
        (match spec_read_str(s@, pos as int) {
            Ok((cs, j)) => r matches Ok(p) && p.0@ == cs && p.1 == j as usize,
            Err(e) => r == Err::<(String, usize), DecodeError>(e),
        }),
{
    match read_len_bytes(s, pos) {
        Ok((b, j)) => {
            match string_from_utf8(b) {
                Some(st) => Ok((st, j)),
                None => Err(DecodeError::BadUtf8),
            }
        },
        Err(e) => Err(e),
    }
}

// ---------------------------------------------------------------------------
// fixed-size fields of 16 bytes (the digest width of the handshake schemas)
// ---------------------------------------------------------------------------

/// The total spec-level decoder of a 16-byte fixed field: the raw bytes,
/// no prefix.
pub open spec fn spec_read_fixed16(s: Seq<u8>, i: int) -> Result<(Seq<u8>, int), DecodeError> {
    if i < 0 || i + 16 > s.len() {
        Err(DecodeError::UnexpectedEnd)
    } else {
        Ok((s.subrange(i, i + 16), i + 16))
    }
}

pub proof fn lemma_read_fixed16_at(s: Seq<u8>, i: int, b: Seq<u8>)
    requires
        b.len() == 16,
        0 <= i,
        i + 16 <= s.len(),
        s.subrange(i, i + 16) == b,
    ensures
        spec_read_fixed16(s, i) == Ok::<(Seq<u8>, int), DecodeError>((b, i + 16)),
{
}

/// Reads a 16-byte fixed field.
pub fn read_fixed16(s: &Vec<u8>, pos: usize) -> (r: Result<(Vec<u8>, usize), DecodeError>)
    requires
        pos <= s@.len(),
    ensures
        (match spec_read_fixed16(s@, pos as int) {
            Ok((b, j)) => r matches Ok(p) && p.0@ == b && p.1 == j as usize,
            Err(e) => r == Err::<(Vec<u8>, usize), DecodeError>(e),
        }),
{
    if s.len() - pos < 16 {
        Err(DecodeError::UnexpectedEnd)
    } else {
        let end: usize = pos + 16;
        Ok((copy_range(s, pos, end), end))
    }
}

} // verus!
