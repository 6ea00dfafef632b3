//! Protocol-buffer wire format: field keys, varints, length-delimited and
//! fixed-width payloads. Keys, varints and unknown fields are read by
//! prost's own decoding primitives.
use vstd::prelude::*;

use prost::encoding::{decode_key, skip_field, DecodeContext, WireType};
use vstd::utf8::{decode_utf8, valid_utf8};

verus! {

/// `128^k`.
pub open spec fn pow128(k: nat) -> int
    decreases k,
{
    if k == 0 {
        1
    } else {
        128 * pow128((k - 1) as nat)
    }
}

/// LEB128 varint at the front of `bytes`, read from byte `k` on: the
/// value of bytes `k..` and the index just after the varint. A varint has at
/// most ten bytes, ends at the first byte below 0x80, and its tenth byte
/// may not exceed 1.
pub open spec fn varint_from(bytes: Seq<u8>, k: nat) -> Option<(int, nat)>
    decreases 10 - k,
{
    if k >= 10 || k >= bytes.len() {
        None
    } else if bytes[k as int] < 128 {
        if k == 9 && bytes[k as int] >= 2 {
            None
        } else {
            Some((bytes[k as int] * pow128(k), k + 1))
        }
    } else {
        match varint_from(bytes, k + 1) {
            Some((v, n)) => Some(((bytes[k as int] - 128) * pow128(k) + v, n)),
            None => None,
        }
    }
}

/// The varint at the front of `bytes` and its length in bytes.
pub open spec fn varint(bytes: Seq<u8>) -> Option<(int, nat)> {
    varint_from(bytes, 0)
}

/// The LEB128 varint encoding of `v`: seven bits per byte, low bits first,
/// the high bit set on every byte but the last.
pub open spec fn varint_encoding(v: nat) -> Seq<u8>
    decreases v,
{
    if v < 128 {
        seq![v as u8]
    } else {
        seq![(v % 128 + 128) as u8] + varint_encoding(v / 128)
    }
}

/// The encoding of `v`, read from byte `k` on, gives `v` scaled by `128^k`
/// and ends where the encoding ends, whatever follows it.
proof fn lemma_varint_encoding_from(p: Seq<u8>, v: nat, tail: Seq<u8>)
    requires
        p.len() <= 9,
        v < 2 * pow128((9 - p.len()) as nat),
    ensures
        varint_from(p + varint_encoding(v) + tail, p.len()) == Some(
            (v * pow128(p.len()), p.len() + varint_encoding(v).len()),
        ),
    decreases v,
{
    let k = p.len();
    let bytes = p + varint_encoding(v) + tail;
    if v < 128 {
        assert(bytes[k as int] == v as u8);
        if k == 9 {
            assert(pow128(0) == 1);
        }
    } else {
        let b = (v % 128 + 128) as u8;
        let w = v / 128;
        assert(bytes[k as int] == b);
        if k == 9 {
            assert(pow128(0) == 1);
            assert(false);
        }
        assert(pow128((9 - k) as nat) == 128 * pow128((9 - k - 1) as nat));
        assert(w < 2 * pow128((9 - (k + 1)) as nat)) by (nonlinear_arith)
            requires
                v < 2 * (128 * pow128((9 - k - 1) as nat)),
                w == v / 128,
                (9 - (k + 1)) as nat == (9 - k - 1) as nat,
        ;
        let q = p.push(b);
        assert(q + varint_encoding(w) + tail =~= bytes);
        lemma_varint_encoding_from(q, w, tail);
        assert(pow128(k + 1) == 128 * pow128(k));
        assert((b - 128) * pow128(k) + w * pow128(k + 1) == v * pow128(k)) by (nonlinear_arith)
            requires
                b - 128 == v % 128,
                w == v / 128,
                pow128(k + 1) == 128 * pow128(k),
        ;
    }
}

/// Law: a varint written by `varint_encoding` reads back as its value, for
/// every value below 2^64, whatever bytes follow it.
pub proof fn lemma_varint_round_trip(v: nat, tail: Seq<u8>)
    requires
        v <= u64::MAX,
    ensures
        varint(varint_encoding(v) + tail) == Some((v as int, varint_encoding(v).len())),
{
    let e = Seq::<u8>::empty();
    assert(pow128(1) == 128);
    assert(pow128(2) == 0x4000);
    assert(pow128(3) == 0x200000);
    assert(pow128(4) == 0x10000000);
    assert(pow128(5) == 0x800000000);
    assert(pow128(6) == 0x40000000000);
    assert(pow128(7) == 0x2000000000000);
    assert(pow128(8) == 0x100000000000000);
    assert(pow128(9) == 0x8000000000000000);
    lemma_varint_encoding_from(e, v, tail);
    assert(e + varint_encoding(v) + tail =~= varint_encoding(v) + tail);
    assert(pow128(0) == 1);
    assert(v * pow128(0) == v);
}

/// A length-delimited payload as written: its length as a varint, then
/// its bytes.
pub open spec fn delimited(p: Seq<u8>) -> Seq<u8> {
    varint_encoding(p.len()) + p
}

/// A varint written for a 64-bit value takes at most ten bytes.
pub proof fn lemma_varint_encoding_len(v: nat)
    requires
        v <= u64::MAX,
    ensures
        1 <= varint_encoding(v).len() <= 10,
{
    lemma_varint_round_trip(v, Seq::empty());
    lemma_varint_from_len(varint_encoding(v) + Seq::<u8>::empty(), 0);
}

/// Law: a written length-delimited payload reads back as the same bytes,
/// whatever follows it.
pub proof fn lemma_delimited_round_trip(p: Seq<u8>, tail: Seq<u8>)
    requires
        p.len() <= u64::MAX,
    ensures
        delimited_payload(2, delimited(p) + tail) == Some((p, delimited(p).len())),
{
    let e = varint_encoding(p.len());
    lemma_varint_round_trip(p.len(), p + tail);
    assert(delimited(p) + tail =~= e + (p + tail));
    assert((delimited(p) + tail).subrange(e.len() as int, (e.len() + p.len()) as int) =~= p);
}

/// The field key `key` (a single byte below 128) read at the front of
/// `key + rest`: its tag, wire type and length 1.
pub proof fn lemma_one_byte_key(key: u8, rest: Seq<u8>)
    requires
        8 <= key < 128,
        key % 8 <= 5,
    ensures
        field_key(seq![key] + rest) == Some(((key / 8) as u32, (key % 8) as u8, 1nat)),
{
    let b = seq![key] + rest;
    assert(b[0] == key);
    assert(pow128(0) == 1);
}

/// Protobuf wire types.
#[derive(Clone, Copy, PartialEq, Eq, Structural, Debug)]
pub enum WireKind {
    Varint,
    SixtyFourBit,
    LengthDelimited,
    StartGroup,
    EndGroup,
    ThirtyTwoBit,
}

impl View for WireKind {
    type V = u8;

    /// The wire-type number written in a field key.
    open spec fn view(&self) -> u8 {
        match self {
            WireKind::Varint => 0,
            WireKind::SixtyFourBit => 1,
            WireKind::LengthDelimited => 2,
            WireKind::StartGroup => 3,
            WireKind::EndGroup => 4,
            WireKind::ThirtyTwoBit => 5,
        }
    }
}

/// The field key at the front of `bytes`: tag, wire-type number and the
/// key's length in bytes. The key is a varint that fits in 32 bits, with a
/// wire type of at most 5 in its low three bits and a tag of at least 1.
pub open spec fn field_key(bytes: Seq<u8>) -> Option<(u32, u8, nat)> {
    match varint(bytes) {
        Some((k, n)) => if k <= u32::MAX && k % 8 <= 5 && k / 8 >= 1 {
            Some(((k / 8) as u32, (k % 8) as u8, n))
        } else {
            None
        },
        None => None,
    }
}

/// `prost::encoding::decode_varint` on `rest`: the value and how many bytes
/// of `rest` follow it; `None` where prost reports an invalid varint.
#[verifier::external_body]
fn decode_varint_in(rest: &[u8]) -> (r: Option<(u64, usize)>)
    ensures
        match varint(rest@) {
            Some((v, n)) => r == Some((v as u64, (rest@.len() - n) as usize)),
            None => r is None,
        },
{
    let mut cursor = rest;
    match prost::encoding::decode_varint(&mut cursor) {
        Ok(v) => Some((v, cursor.len())),
        Err(_) => None,
    }
}

/// `prost::encoding::decode_key` on `rest`: tag, wire type and how many
/// bytes follow the key; `None` where prost reports an invalid key.
#[verifier::external_body]
fn decode_key_in(rest: &[u8]) -> (r: Option<(u32, WireKind, usize)>)
    ensures
        match field_key(rest@) {
            Some((tag, wire, n)) => r matches Some((t, w, remaining)) && t == tag && w@ == wire
                && remaining == rest@.len() - n,
            None => r is None,
        },
{
    let mut cursor = rest;
    let (tag, wire) = decode_key(&mut cursor).ok()?;
    let kind = match wire {
        WireType::Varint => WireKind::Varint,
        WireType::SixtyFourBit => WireKind::SixtyFourBit,
        WireType::LengthDelimited => WireKind::LengthDelimited,
        WireType::StartGroup => WireKind::StartGroup,
        WireType::EndGroup => WireKind::EndGroup,
        WireType::ThirtyTwoBit => WireKind::ThirtyTwoBit,
    };
    Some((tag, kind, cursor.len()))
}

/// `prost::encoding::skip_field` over an unknown field that is not a group,
/// whose payload starts `rest`, with a fresh decode context (its nesting
/// budget is not reached by a field that is not a group): how many bytes of
/// `rest` remain. As prost's source reads, a varint payload is one varint, a
/// 64-bit or 32-bit payload is 8 or 4 bytes, a length-delimited payload is a
/// varint length and that many bytes, each failing where `rest` is too
/// short, and an end-group key alone is an error.
#[verifier::external_body]
fn skip_field_in(wire: WireKind, tag: u32, rest: &[u8]) -> (r: Option<usize>)
    requires
        wire != WireKind::StartGroup,
    ensures
        r == match flat_field_len(wire@, rest@) {
            Some(n) => Some((rest@.len() - n) as usize),
            None => None,
        },
{
    let wire_type = match wire {
        WireKind::Varint => WireType::Varint,
        WireKind::SixtyFourBit => WireType::SixtyFourBit,
        WireKind::LengthDelimited => WireType::LengthDelimited,
        WireKind::StartGroup => WireType::StartGroup,
        WireKind::EndGroup => WireType::EndGroup,
        WireKind::ThirtyTwoBit => WireType::ThirtyTwoBit,
    };
    let mut cursor = rest;
    skip_field(wire_type, tag, &mut cursor, DecodeContext::default()).ok()?;
    Some(cursor.len())
}

proof fn lemma_varint_from_len(bytes: Seq<u8>, k: nat)
    ensures
        varint_from(bytes, k) matches Some((v, n)) ==> k < n <= bytes.len() && n <= 10,
    decreases 10 - k,
{
    if k < 10 && k < bytes.len() && bytes[k as int] >= 128 {
        lemma_varint_from_len(bytes, k + 1);
    }
}

proof fn lemma_pow128_step(k: nat)
    ensures
        pow128(k) > 0,
        pow128(k + 1) == 128 * pow128(k),
    decreases k,
{
    if k > 0 {
        lemma_pow128_step((k - 1) as nat);
    }
}

proof fn lemma_pow128_mono(a: nat, b: nat)
    requires
        a <= b,
    ensures
        pow128(a) <= pow128(b),
    decreases b - a,
{
    if a < b {
        lemma_pow128_mono(a, (b - 1) as nat);
        lemma_pow128_step((b - 1) as nat);
    }
}

spec fn varint_bound(n: nat) -> int {
    if n == 10 {
        2 * pow128(9)
    } else {
        pow128(n)
    }
}

proof fn lemma_varint_from_bound(bytes: Seq<u8>, k: nat)
    ensures
        varint_from(bytes, k) matches Some((v, n)) ==> 0 <= v && v + pow128(k) <= varint_bound(n),
    decreases 10 - k,
{
    lemma_pow128_step(k);
    if k < 10 && k < bytes.len() {
        let b = bytes[k as int];
        let p = pow128(k);
        if b < 128 {
            if !(k == 9 && b >= 2) {
                if k == 9 {
                    assert(b * p + p <= 2 * p) by (nonlinear_arith)
                        requires
                            b < 2,
                            p > 0,
                    ;
                } else {
                    assert(b * p + p <= 128 * p) by (nonlinear_arith)
                        requires
                            b < 128,
                            p > 0,
                    ;
                }
            }
        } else {
            lemma_varint_from_bound(bytes, k + 1);
            lemma_varint_from_len(bytes, k + 1);
            assert((b - 128) * p + p <= 128 * p && 0 <= (b - 128) * p) by (nonlinear_arith)
                requires
                    128 <= b < 256,
                    p > 0,
            ;
        }
    }
}

/// A varint's value fits in 64 bits.
pub proof fn lemma_varint_fits(bytes: Seq<u8>)
    ensures
        varint(bytes) matches Some((v, n)) ==> 0 <= v <= u64::MAX,
{
    lemma_varint_from_bound(bytes, 0);
    lemma_varint_from_len(bytes, 0);
    reveal_with_fuel(pow128, 11);
    assert(pow128(9) == 9223372036854775808);
    assert(pow128(0) == 1);
    if let Some((v, n)) = varint(bytes) {
        if n < 10 {
            lemma_pow128_mono(n, 9);
        }
    }
}

/// A varint is at least one byte long and lies within `bytes`.
pub proof fn lemma_varint_len(bytes: Seq<u8>)
    ensures
        varint(bytes) matches Some((v, n)) ==> 1 <= n <= bytes.len(),
        field_key(bytes) matches Some((t, w, n)) ==> 1 <= n <= bytes.len(),
{
    lemma_varint_from_len(bytes, 0);
}

/// The key of the field at `buf[pos..]`, and the position just after it.
pub fn read_key(buf: &[u8], pos: usize) -> (r: Option<(u32, WireKind, usize)>)
    requires
        pos <= buf@.len(),
    ensures
        match field_key(buf@.skip(pos as int)) {
            Some((tag, wire, n)) => r matches Some((t, w, next)) && t == tag && w@ == wire && next
                == pos + n,
            None => r is None,
        },
{
    let rest = vstd::slice::slice_subrange(buf, pos, buf.len());
    proof {
        assert(rest@ =~= buf@.skip(pos as int));
        lemma_varint_len(rest@);
    }
    match decode_key_in(rest) {
        Some((tag, wire, remaining)) => Some((tag, wire, buf.len() - remaining)),
        None => None,
    }
}

/// The varint at `buf[pos..]` and the position just after it.
pub fn read_varint(buf: &[u8], pos: usize) -> (r: Option<(u64, usize)>)
    requires
        pos <= buf@.len(),
    ensures
        match varint(buf@.skip(pos as int)) {
            Some((v, n)) => r == Some((v as u64, (pos + n) as usize)),
            None => r is None,
        },
{
    let rest = vstd::slice::slice_subrange(buf, pos, buf.len());
    proof {
        assert(rest@ =~= buf@.skip(pos as int));
        lemma_varint_len(rest@);
        lemma_varint_fits(rest@);
    }
    match decode_varint_in(rest) {
        Some((v, remaining)) => Some((v, buf.len() - remaining)),
        None => None,
    }
}

/// Skips an unknown field that is not a group, whose payload starts at
/// `buf[pos..]`: the position after it.
pub fn skip_unknown(wire: WireKind, tag: u32, buf: &[u8], pos: usize) -> (r: Option<usize>)
    requires
        pos <= buf@.len(),
        wire != WireKind::StartGroup,
    ensures
        match flat_field_len(wire@, buf@.skip(pos as int)) {
            Some(n) => r == Some((pos + n) as usize),
            None => r is None,
        },
{
    let rest = vstd::slice::slice_subrange(buf, pos, buf.len());
    proof {
        assert(rest@ =~= buf@.skip(pos as int));
        lemma_flat_field_len(wire@, rest@);
    }
    match skip_field_in(wire, tag, rest) {
        Some(remaining) => Some(buf.len() - remaining),
        None => None,
    }
}

/// Payload of a varint field: the value and the bytes it takes.
pub open spec fn varint_payload(wire: u8, rest: Seq<u8>) -> Option<(int, nat)> {
    if wire == 0 {
        varint(rest)
    } else {
        None
    }
}

/// Payload of a length-delimited field: its bytes and the bytes the
/// length and payload take together.
pub open spec fn delimited_payload(wire: u8, rest: Seq<u8>) -> Option<(Seq<u8>, nat)> {
    if wire == 2 {
        match varint(rest) {
            Some((len, n)) => if n + len <= rest.len() {
                Some((rest.subrange(n as int, n + len), (n + len) as nat))
            } else {
                None
            },
            None => None,
        }
    } else {
        None
    }
}

/// Little-endian value of four bytes.
pub open spec fn le_u32(b0: u8, b1: u8, b2: u8, b3: u8) -> u32 {
    (b0 + 256 * b1 + 65536 * b2 + 16777216 * b3) as u32
}

/// Payload of a 32-bit fixed-width field (the bits of a `float`).
pub open spec fn fixed32_payload(wire: u8, rest: Seq<u8>) -> Option<u32> {
    if wire == 5 && rest.len() >= 4 {
        Some(le_u32(rest[0], rest[1], rest[2], rest[3]))
    } else {
        None
    }
}

/// The varint payload at `buf[pos..]` of a field of wire type `wire`.
pub fn read_varint_payload(wire: WireKind, buf: &[u8], pos: usize) -> (r: Option<(u64, usize)>)
    requires
        pos <= buf@.len(),
    ensures
        match varint_payload(wire@, buf@.skip(pos as int)) {
            Some((v, n)) => r == Some((v as u64, (pos + n) as usize)),
            None => r is None,
        },
{
    match wire {
        WireKind::Varint => read_varint(buf, pos),
        _ => None,
    }
}

/// The payload bounds `(start, end)` of the length-delimited field whose
/// length prefix is at `buf[pos..]`.
pub fn read_delimited(wire: WireKind, buf: &[u8], pos: usize) -> (r: Option<(usize, usize)>)
    requires
        pos <= buf@.len(),
    ensures
        match delimited_payload(wire@, buf@.skip(pos as int)) {
            Some((payload, n)) => r matches Some((start, end)) && {
                &&& pos <= start <= end
                &&& end == pos + n
                &&& end <= buf@.len()
                &&& buf@.subrange(start as int, end as int) == payload
            },
            None => r is None,
        },
{
    match wire {
        WireKind::LengthDelimited => {},
        _ => {
            return None;
        },
    }
    match read_varint(buf, pos) {
        None => None,
        Some((len, start)) => {
            proof {
                lemma_varint_len(buf@.skip(pos as int));
                lemma_varint_fits(buf@.skip(pos as int));
            }
            if len > (buf.len() - start) as u64 {
                None
            } else {
                let end = start + len as usize;
                proof {
                    assert(end == start + len);
                    assert(buf@.subrange(start as int, end as int) =~= buf@.skip(pos as int).subrange(
                        start - pos,
                        end - pos,
                    ));
                }
                Some((start, end))
            }
        },
    }
}

/// The 32-bit fixed payload at `buf[pos..]` and the position after it.
pub fn read_fixed32(wire: WireKind, buf: &[u8], pos: usize) -> (r: Option<(u32, usize)>)
    requires
        pos <= buf@.len(),
    ensures
        match fixed32_payload(wire@, buf@.skip(pos as int)) {
            Some(v) => r == Some((v, (pos + 4) as usize)),
            None => r is None,
        },
{
    match wire {
        WireKind::ThirtyTwoBit => {},
        _ => {
            return None;
        },
    }
    if buf.len() - pos < 4 {
        return None;
    }
    let v = buf[pos] as u32 + 256 * (buf[pos + 1] as u32) + 65536 * (buf[pos + 2] as u32)
        + 16777216 * (buf[pos + 3] as u32);
    proof {
        let rest = buf@.skip(pos as int);
        assert(rest[0] == buf@[pos as int] && rest[1] == buf@[pos + 1] && rest[2] == buf@[pos + 2]
            && rest[3] == buf@[pos + 3]);
    }
    Some((v, pos + 4))
}

/// Copies `buf[start..end]` into a vector.
pub fn copy_range(buf: &[u8], start: usize, end: usize) -> (v: Vec<u8>)
    requires
        start <= end <= buf@.len(),
    ensures
        v@ == buf@.subrange(start as int, end as int),
{
    let mut v: Vec<u8> = Vec::new();
    let mut i = start;
    while i < end
        invariant
            start <= i <= end <= buf@.len(),
            v@ == buf@.subrange(start as int, i as int),
        decreases end - i,
    {
        v.push(buf[i]);
        i = i + 1;
        proof {
            assert(v@ =~= buf@.subrange(start as int, i as int));
        }
    }
    v
}


/// An `int32` field: the value (the varint truncated to 32 bits) and the
/// bytes its payload takes.
pub open spec fn int32_field(wire: u8, rest: Seq<u8>) -> Option<(i32, nat)> {
    match varint_payload(wire, rest) {
        Some((v, n)) => Some((((v as u64) as i32), n)),
        None => None,
    }
}

/// A `bytes` field: its bytes and the bytes its payload takes.
pub open spec fn bytes_field(wire: u8, rest: Seq<u8>) -> Option<(Seq<u8>, nat)> {
    delimited_payload(wire, rest)
}

/// A `string` field: its characters (the payload must be UTF-8) and the
/// bytes its payload takes.
pub open spec fn string_field(wire: u8, rest: Seq<u8>) -> Option<(Seq<char>, nat)> {
    match delimited_payload(wire, rest) {
        Some((p, n)) => if valid_utf8(p) {
            Some((decode_utf8(p), n))
        } else {
            None
        },
        None => None,
    }
}

/// A `float` field: the bits of the value and the bytes it takes.
pub open spec fn fixed32_field(wire: u8, rest: Seq<u8>) -> Option<(u32, nat)> {
    match fixed32_payload(wire, rest) {
        Some(v) => Some((v, 4)),
        None => None,
    }
}

/// The bytes the payload of a field that is not a group takes, as prost's
/// `skip_field` passes over it: one varint (wire type 0), 8 bytes (1), a
/// varint length and that many bytes (2), 4 bytes (5); `None` where the
/// bytes run out, and for an end-group key (4).
pub open spec fn flat_field_len(wire: u8, rest: Seq<u8>) -> Option<nat> {
    if wire == 0 {
        match varint(rest) {
            Some((v, n)) => Some(n),
            None => None,
        }
    } else if wire == 1 {
        if rest.len() >= 8 { Some(8) } else { None }
    } else if wire == 2 {
        match delimited_payload(2, rest) {
            Some((p, n)) => Some(n),
            None => None,
        }
    } else if wire == 5 {
        if rest.len() >= 4 { Some(4) } else { None }
    } else {
        None
    }
}

/// The bytes a group with tag `tag` takes after its start key, up to and
/// including its end key, with nesting budget `ctx`: fields inside it are
/// skipped with budget `ctx - 1`, which must not be used up, and nested
/// groups likewise; the end key must carry the group's tag.
pub open spec fn group_len(tag: u32, rest: Seq<u8>, ctx: nat) -> Option<nat>
    decreases rest.len(),
{
    match field_key(rest) {
        None => None,
        Some((t, w, n)) => {
            proof {
                lemma_varint_len(rest);
            }
            if w == 4 {
                if t == tag { Some(n) } else { None }
            } else if ctx <= 1 {
                None
            } else {
                let inner = if w == 3 {
                    group_len(t, rest.skip(n as int), (ctx - 1) as nat)
                } else {
                    flat_field_len(w, rest.skip(n as int))
                };
                match inner {
                    Some(m) => if n + m <= rest.len() {
                        match group_len(tag, rest.skip((n + m) as int), ctx) {
                            Some(k) => Some(n + m + k),
                            None => None,
                        }
                    } else {
                        None
                    },
                    None => None,
                }
            }
        },
    }
}

/// An unknown field in a message read with nesting budget `ctx`, skipped as
/// prost's `skip_field` does with that budget: the bytes its payload takes.
/// Nothing is skipped once the budget is used up.
#[verifier::opaque]
pub open spec fn unknown_field(wire: u8, tag: u32, rest: Seq<u8>, ctx: nat) -> Option<nat> {
    if ctx == 0 {
        None
    } else if wire == 3 {
        group_len(tag, rest, ctx)
    } else {
        flat_field_len(wire, rest)
    }
}

/// A field that is not a group lies within the bytes after its key.
proof fn lemma_flat_field_len(wire: u8, rest: Seq<u8>)
    ensures
        flat_field_len(wire, rest) matches Some(n) ==> 1 <= n <= rest.len(),
{
    lemma_varint_len(rest);
    lemma_varint_fits(rest);
}

/// A group lies within the bytes after its start key.
proof fn lemma_group_len(tag: u32, rest: Seq<u8>, ctx: nat)
    ensures
        group_len(tag, rest, ctx) matches Some(k) ==> 1 <= k <= rest.len(),
    decreases rest.len(),
{
    lemma_varint_len(rest);
    match field_key(rest) {
        None => {},
        Some((t, w, n)) => {
            if w != 4 && ctx > 1 {
                let r = rest.skip(n as int);
                if w == 3 {
                    lemma_group_len(t, r, (ctx - 1) as nat);
                } else {
                    lemma_flat_field_len(w, r);
                }
                let inner = if w == 3 { group_len(t, r, (ctx - 1) as nat) } else { flat_field_len(w, r) };
                if let Some(m) = inner {
                    if n + m <= rest.len() {
                        lemma_group_len(tag, rest.skip((n + m) as int), ctx);
                    }
                }
            }
        },
    }
}

/// Payloads of every field kind lie within the bytes after the key.
pub proof fn lemma_field_bounds(wire: u8, tag: u32, rest: Seq<u8>, ctx: nat)
    ensures
        int32_field(wire, rest) matches Some((v, n)) ==> 1 <= n <= rest.len(),
        bytes_field(wire, rest) matches Some((v, n)) ==> 1 <= n <= rest.len(),
        string_field(wire, rest) matches Some((v, n)) ==> 1 <= n <= rest.len(),
        fixed32_field(wire, rest) matches Some((v, n)) ==> 1 <= n <= rest.len(),
        unknown_field(wire, tag, rest, ctx) matches Some(n) ==> 1 <= n <= rest.len(),
{
    reveal(unknown_field);
    lemma_varint_len(rest);
    lemma_varint_fits(rest);
    lemma_flat_field_len(wire, rest);
    lemma_group_len(tag, rest, ctx);
}

/// `String::from_utf8`: the text when `bytes` are well-formed UTF-8.
#[verifier::external_body]
fn utf8_string(bytes: Vec<u8>) -> (r: Option<String>)
    ensures
        r is Some <==> valid_utf8(bytes@),
        r matches Some(s) ==> s@ == decode_utf8(bytes@),
{
    String::from_utf8(bytes).ok()
}

/// Reads an `int32` field whose payload starts at `buf[pos..]`.
pub fn read_int32(wire: WireKind, buf: &[u8], pos: usize) -> (r: Option<(i32, usize)>)
    requires
        pos <= buf@.len(),
    ensures
        match int32_field(wire@, buf@.skip(pos as int)) {
            Some((v, n)) => r == Some((v, (pos + n) as usize)),
            None => r is None,
        },
{
    match read_varint_payload(wire, buf, pos) {
        Some((v, next)) => Some((v as i32, next)),
        None => None,
    }
}

/// Reads a `bytes` field whose payload starts at `buf[pos..]`.
pub fn read_bytes(wire: WireKind, buf: &[u8], pos: usize) -> (r: Option<(Vec<u8>, usize)>)
    requires
        pos <= buf@.len(),
    ensures
        match bytes_field(wire@, buf@.skip(pos as int)) {
            Some((v, n)) => r matches Some((b, next)) && b@ == v && next == pos + n,
            None => r is None,
        },
{
    match read_delimited(wire, buf, pos) {
        Some((start, end)) => Some((copy_range(buf, start, end), end)),
        None => None,
    }
}

/// Reads a `string` field whose payload starts at `buf[pos..]`.
pub fn read_string(wire: WireKind, buf: &[u8], pos: usize) -> (r: Option<(String, usize)>)
    requires
        pos <= buf@.len(),
    ensures
        match string_field(wire@, buf@.skip(pos as int)) {
            Some((v, n)) => r matches Some((s, next)) && s@ == v && next == pos + n,
            None => r is None,
        },
{
    match read_delimited(wire, buf, pos) {
        Some((start, end)) => match utf8_string(copy_range(buf, start, end)) {
            Some(s) => Some((s, end)),
            None => None,
        },
        None => None,
    }
}

/// Reads a `float` field (its bits) whose payload starts at `buf[pos..]`.
pub fn read_float_bits(wire: WireKind, buf: &[u8], pos: usize) -> (r: Option<(u32, usize)>)
    requires
        pos <= buf@.len(),
    ensures
        match fixed32_field(wire@, buf@.skip(pos as int)) {
            Some((v, n)) => r == Some((v, (pos + n) as usize)),
            None => r is None,
        },
{
    read_fixed32(wire, buf, pos)
}

/// Skips a group with tag `tag` whose contents start at `buf[pos..]`, with
/// nesting budget `ctx`: the position after its end key.
#[verifier::spinoff_prover]
#[verifier::rlimit(60)]
fn skip_group(tag: u32, buf: &[u8], pos: usize, ctx: u32) -> (r: Option<usize>)
    requires
        pos <= buf@.len(),
    ensures
        match group_len(tag, buf@.skip(pos as int), ctx as nat) {
            Some(k) => r == Some((pos + k) as usize),
            None => r is None,
        },
    decreases buf@.len() - pos,
{
    let mut p = pos;
    proof {
        assert(buf@.skip(pos as int) == buf@.skip(p as int));
    }
    loop
        invariant
            pos <= p <= buf@.len(),
            group_len(tag, buf@.skip(pos as int), ctx as nat) == match group_len(tag, buf@.skip(p as int), ctx as nat) {
                Some(k) => Some((p - pos + k) as nat),
                None => None::<nat>,
            },
        decreases buf@.len() - p,
    {
        let ghost here = buf@.skip(p as int);
        proof {
            lemma_varint_len(here);
        }
        let (t, w, q) = match read_key(buf, p) {
            Some(k) => k,
            None => {
                return None;
            },
        };
        proof {
            assert(here.skip(q - p) =~= buf@.skip(q as int));
        }
        if w == WireKind::EndGroup {
            if t == tag {
                return Some(q);
            }
            return None;
        }
        if ctx <= 1 {
            return None;
        }
        let next = if w == WireKind::StartGroup {
            proof {
                lemma_group_len(t, buf@.skip(q as int), (ctx - 1) as nat);
            }
            skip_group(t, buf, q, ctx - 1)
        } else {
            proof {
                lemma_flat_field_len(w@, buf@.skip(q as int));
            }
            skip_unknown(w, t, buf, q)
        };
        proof {
            let n = (q - p) as nat;
            let r = buf@.skip(q as int);
            assert(r.len() == buf@.len() - q);
            assert(buf@.len() == buf.len());
            assert(field_key(here) == Some((t, w@, n)));
            assert(here.skip(n as int) =~= r);
            lemma_group_len(t, r, (ctx - 1) as nat);
            lemma_flat_field_len(w@, r);
            let inner = if w@ == 3 { group_len(t, r, (ctx - 1) as nat) } else { flat_field_len(w@, r) };
            assert(w == WireKind::StartGroup <==> w@ == 3);
            assert(next == match inner {
                Some(k) => Some((q + k) as usize),
                None => None::<usize>,
            });
            match inner {
                Some(k) => {
                    assert(q + k <= buf@.len());
                    let e = (q + k) as usize;
                    assert(e == q + k);
                    assert(n + k <= here.len());
                    assert(here.skip((n + k) as int) =~= buf@.skip(e as int));
                },
                None => {},
            }
        }
        match next {
            Some(e) => {
                p = e;
            },
            None => {
                return None;
            },
        }
    }
}

/// Skips an unknown field whose payload starts at `buf[pos..]`, in a
/// message read with nesting budget `ctx`.
pub fn read_unknown(wire: WireKind, tag: u32, buf: &[u8], pos: usize, ctx: u32) -> (r: Option<usize>)
    requires
        pos <= buf@.len(),
    ensures
        match unknown_field(wire@, tag, buf@.skip(pos as int), ctx as nat) {
            Some(n) => r == Some((pos + n) as usize),
            None => r is None,
        },
{
    proof {
        reveal(unknown_field);
        lemma_group_len(tag, buf@.skip(pos as int), ctx as nat);
    }
    if ctx == 0 {
        None
    } else if wire == WireKind::StartGroup {
        skip_group(tag, buf, pos, ctx)
    } else {
        skip_unknown(wire, tag, buf, pos)
    }
}

} // verus!
