//! Decoding of the hexadecimal text that SQLite's `hex()` produces.
use vstd::prelude::*;

use crate::text::{chars_of, decimal, push_all, push_decimal, string_from_chars};
use vstd::string::StringSliceAdditionalSpecFns;

verus! {

/// Value of an ASCII hexadecimal digit (either case).
pub open spec fn hex_digit_value(b: u8) -> Option<u8> {
    if 48 <= b <= 57 {
        Some((b - 48) as u8)
    } else if 97 <= b <= 102 {
        Some((b - 87) as u8)
    } else if 65 <= b <= 70 {
        Some((b - 55) as u8)
    } else {
        None
    }
}

/// What `u8::from_str_radix(.., 16)` gives for the two-byte text `b0 b1`:
/// two hex digits, or a '+' sign followed by one hex digit.
pub open spec fn hex_pair_value(b0: u8, b1: u8) -> Option<u8> {
    if b0 == 43 {
        hex_digit_value(b1)
    } else {
        match (hex_digit_value(b0), hex_digit_value(b1)) {
            (Some(h), Some(l)) => Some((h * 16 + l) as u8),
            _ => None,
        }
    }
}

/// Decodes the byte pairs of `bytes` from index `i` on: the decoded bytes,
/// or the index of the first pair that is not a hexadecimal number.
pub open spec fn hex_pairs_from(bytes: Seq<u8>, i: int) -> Result<Seq<u8>, int>
    decreases bytes.len() - i,
{
    if i < 0 || i + 2 > bytes.len() {
        Ok(Seq::empty())
    } else {
        match hex_pair_value(bytes[i], bytes[i + 1]) {
            None => Err(i),
            Some(v) => match hex_pairs_from(bytes, i + 2) {
                Ok(rest) => Ok(seq![v] + rest),
                Err(j) => Err(j),
            },
        }
    }
}

/// The UTF-8 text `bytes` cannot be cut after byte `i + 1`: slicing the pair
/// at `i` would split a character.
pub open spec fn splits_char_after_pair(bytes: Seq<u8>, i: int) -> bool {
    i + 2 < bytes.len() && 0x80 <= bytes[i + 2] <= 0xbf
}

/// Decoding `hex` would cut a multi-byte character in two (slicing the
/// text `&hex[i..i + 2]` between its bytes) before any error is reported:
/// there the decoding has no defined outcome.
pub open spec fn hex_decode_panics(hex: &str) -> bool {
    let bytes = hex.spec_bytes();
    &&& bytes.len() % 2 == 0
    &&& hex_pairs_from(bytes, 0) matches Err(i)
    &&& splits_char_after_pair(bytes, i)
}

/// The error text for a pair at byte offset `i` that is not a number.
pub open spec fn hex_error_message(i: int) -> Seq<char> {
    "Hex decode error at "@ + decimal(i as nat) + ": invalid digit found in string"@
}

/// The result `hex_decode` gives for `hex`.
pub open spec fn hex_decoded(hex: &str) -> Result<Seq<u8>, Seq<char>> {
    let bytes = hex.spec_bytes();
    if bytes.len() % 2 != 0 {
        Err("Odd-length hex string"@)
    } else {
        match hex_pairs_from(bytes, 0) {
            Ok(v) => Ok(v),
            Err(i) => Err(hex_error_message(i)),
        }
    }
}

fn hex_digit(b: u8) -> (r: Option<u8>)
    ensures
        r == hex_digit_value(b),
{
    if 48 <= b && b <= 57 {
        Some(b - 48)
    } else if 97 <= b && b <= 102 {
        Some(b - 87)
    } else if 65 <= b && b <= 70 {
        Some(b - 55)
    } else {
        None
    }
}

fn hex_pair(b0: u8, b1: u8) -> (r: Option<u8>)
    ensures
        r == hex_pair_value(b0, b1),
{
    if b0 == 43 {
        hex_digit(b1)
    } else {
        match (hex_digit(b0), hex_digit(b1)) {
            (Some(h), Some(l)) => Some(h * 16 + l),
            _ => None,
        }
    }
}

proof fn lemma_hex_pairs_step(bytes: Seq<u8>, i: int, out: Seq<u8>)
    requires
        0 <= i,
        i + 2 <= bytes.len(),
        hex_pair_value(bytes[i], bytes[i + 1]) is Some,
    ensures
        hex_pairs_from(bytes, i) == match hex_pairs_from(bytes, i + 2) {
            Ok(rest) => Ok::<Seq<u8>, int>(seq![hex_pair_value(bytes[i], bytes[i + 1])->0] + rest),
            Err(j) => Err(j),
        },
{
}

/// Decodes a hexadecimal string into bytes, two digits per byte.
pub fn hex_decode(hex: &str) -> (r: Result<Vec<u8>, String>)
    requires
        !hex_decode_panics(hex),
    ensures
        match (r, hex_decoded(hex)) {
            (Ok(v), Ok(w)) => v@ == w,
            (Err(e), Err(w)) => e@ == w,
            _ => false,
        },
{
    let bytes = hex.as_bytes();
    if bytes.len() % 2 != 0 {
        return Err(string_from_chars(&chars_of("Odd-length hex string")));
    }
    let mut out: Vec<u8> = Vec::new();
    let mut i: usize = 0;
    while i < bytes.len()
        invariant
            bytes@ == hex.spec_bytes(),
            bytes@.len() % 2 == 0,
            i % 2 == 0,
            i <= bytes@.len(),
            hex_pairs_from(bytes@, 0) == match hex_pairs_from(bytes@, i as int) {
                Ok(rest) => Ok::<Seq<u8>, int>(out@ + rest),
                Err(j) => Err(j),
            },
        decreases bytes@.len() - i,
    {
        match hex_pair(bytes[i], bytes[i + 1]) {
            Some(v) => {
                proof {
                    lemma_hex_pairs_step(bytes@, i as int, out@);
                    assert forall|rest: Seq<u8>| (out@ + (seq![v] + rest)) =~= (out@.push(v) + rest) by {}
                }
                out.push(v);
                i = i + 2;
            },
            None => {
                let mut msg = chars_of("Hex decode error at ");
                push_decimal(&mut msg, i as u64);
                let tail = chars_of(": invalid digit found in string");
                push_all(&mut msg, &tail);
                return Err(string_from_chars(&msg));
            },
        }
    }
    proof {
        assert(out@ + Seq::<u8>::empty() =~= out@);
    }
    Ok(out)
}

/// `hex_decode` can be called on `hex` without slicing through a character.
pub fn hex_slices_cleanly(hex: &str) -> (b: bool)
    ensures
        b == !hex_decode_panics(hex),
{
    let bytes = hex.as_bytes();
    if bytes.len() % 2 != 0 {
        return true;
    }
    let mut i: usize = 0;
    while i < bytes.len()
        invariant
            bytes@ == hex.spec_bytes(),
            bytes@.len() % 2 == 0,
            i % 2 == 0,
            i <= bytes@.len(),
            hex_pairs_from(bytes@, 0) is Err ==> hex_pairs_from(bytes@, 0) == hex_pairs_from(bytes@, i as int),
            hex_pairs_from(bytes@, 0) is Ok ==> hex_pairs_from(bytes@, i as int) is Ok,
            hex_pairs_from(bytes@, i as int) is Err ==> hex_pairs_from(bytes@, 0) is Err,
        decreases bytes@.len() - i,
    {
        if hex_pair(bytes[i], bytes[i + 1]).is_none() {
            return !(i + 2 < bytes.len() && 0x80 <= bytes[i + 2] && bytes[i + 2] <= 0xbf);
        }
        i = i + 2;
    }
    true
}

/// Uppercase hexadecimal encoding, two digits per byte (SQLite's `hex()`).
pub open spec fn hex_encoded(v: Seq<u8>) -> Seq<u8>
    decreases v.len(),
{
    if v.len() == 0 {
        Seq::empty()
    } else {
        seq![upper_hex_digit(v[0] / 16), upper_hex_digit(v[0] % 16)] + hex_encoded(v.drop_first())
    }
}

/// The uppercase ASCII digit for `d < 16`.
pub open spec fn upper_hex_digit(d: u8) -> u8 {
    if d < 10 { (d + 48) as u8 } else { (d + 55) as u8 }
}

proof fn lemma_hex_pairs_shift(prefix: Seq<u8>, rest: Seq<u8>)
    requires
        prefix.len() == 2,
    ensures
        hex_pairs_from(rest, 0) is Ok ==> hex_pairs_from(prefix + rest, 2) == hex_pairs_from(rest, 0),
    decreases rest.len(),
{
    lemma_hex_pairs_shift_at(prefix, rest, 0);
}

proof fn lemma_hex_pairs_shift_at(prefix: Seq<u8>, rest: Seq<u8>, i: int)
    requires
        prefix.len() == 2,
        0 <= i,
    ensures
        hex_pairs_from(prefix + rest, i + 2) == match hex_pairs_from(rest, i) {
            Ok(v) => Ok::<Seq<u8>, int>(v),
            Err(j) => Err(j + 2),
        },
    decreases rest.len() - i,
{
    let s = prefix + rest;
    if i + 2 <= rest.len() {
        assert(s[i + 2] == rest[i]);
        assert(s[i + 3] == rest[i + 1]);
        lemma_hex_pairs_shift_at(prefix, rest, i + 2);
        assert(hex_pair_value(s[i + 2], s[i + 2 + 1]) == hex_pair_value(rest[i], rest[i + 1]));
    } else {
        assert(s.len() == rest.len() + 2);
    }
}

/// Law: decoding the uppercase hex encoding of any bytes gives the bytes back.
pub proof fn lemma_hex_round_trip(v: Seq<u8>)
    ensures
        hex_pairs_from(hex_encoded(v), 0) == Ok::<Seq<u8>, int>(v),
        hex_encoded(v).len() == 2 * v.len(),
    decreases v.len(),
{
    if v.len() > 0 {
        lemma_hex_round_trip(v.drop_first());
        let b = v[0];
        let pre = seq![upper_hex_digit(b / 16), upper_hex_digit(b % 16)];
        lemma_hex_pairs_shift(pre, hex_encoded(v.drop_first()));
        let s = pre + hex_encoded(v.drop_first());
        assert(s[0] == pre[0] && s[1] == pre[1]);
        assert(hex_digit_value(upper_hex_digit(b / 16)) == Some((b / 16) as u8));
        assert(hex_digit_value(upper_hex_digit(b % 16)) == Some((b % 16) as u8));
        assert(hex_pair_value(s[0], s[1]) == Some(b));
        assert(hex_encoded(v) == s);
        assert(hex_pairs_from(s, 2) == Ok::<Seq<u8>, int>(v.drop_first()));
        assert(hex_pairs_from(s, 0) == Ok::<Seq<u8>, int>(seq![b] + v.drop_first()));
        assert(seq![b] + v.drop_first() =~= v);
    } else {
        assert(v =~= Seq::<u8>::empty());
    }
}

/// Law: `hex_decode` gives back any bytes from their uppercase hex text,
/// as SQLite's `hex()` writes it.
pub proof fn lemma_hex_decode_encoded(hex: &str, v: Seq<u8>)
    requires
        hex.spec_bytes() == hex_encoded(v),
    ensures
        !hex_decode_panics(hex),
        hex_decoded(hex) == Ok::<Seq<u8>, Seq<char>>(v),
{
    lemma_hex_round_trip(v);
    assert((2 * v.len()) % 2 == 0) by (nonlinear_arith);
}

/// Lowercase hexadecimal encoding, two digits per byte.
pub open spec fn hex_encoded_lower(v: Seq<u8>) -> Seq<u8>
    decreases v.len(),
{
    if v.len() == 0 {
        Seq::empty()
    } else {
        seq![lower_hex_digit(v[0] / 16), lower_hex_digit(v[0] % 16)] + hex_encoded_lower(v.drop_first())
    }
}

/// The lowercase ASCII digit for `d < 16`.
pub open spec fn lower_hex_digit(d: u8) -> u8 {
    if d < 10 { (d + 48) as u8 } else { (d + 87) as u8 }
}

/// Law: decoding the lowercase hex encoding of any bytes gives the bytes
/// back.
pub proof fn lemma_hex_round_trip_lower(v: Seq<u8>)
    ensures
        hex_pairs_from(hex_encoded_lower(v), 0) == Ok::<Seq<u8>, int>(v),
        hex_encoded_lower(v).len() == 2 * v.len(),
    decreases v.len(),
{
    if v.len() > 0 {
        lemma_hex_round_trip_lower(v.drop_first());
        let b = v[0];
        let pre = seq![lower_hex_digit(b / 16), lower_hex_digit(b % 16)];
        lemma_hex_pairs_shift(pre, hex_encoded_lower(v.drop_first()));
        let s = pre + hex_encoded_lower(v.drop_first());
        assert(s[0] == pre[0] && s[1] == pre[1]);
        assert(hex_digit_value(lower_hex_digit(b / 16)) == Some((b / 16) as u8));
        assert(hex_digit_value(lower_hex_digit(b % 16)) == Some((b % 16) as u8));
        assert(hex_pair_value(s[0], s[1]) == Some(b));
        assert(hex_encoded_lower(v) == s);
        assert(hex_pairs_from(s, 0) == Ok::<Seq<u8>, int>(seq![b] + v.drop_first()));
        assert(seq![b] + v.drop_first() =~= v);
    } else {
        assert(v =~= Seq::<u8>::empty());
    }
}

/// Law: `hex_decode` gives back any bytes from their lowercase hex text.
pub proof fn lemma_hex_decode_lower_encoded(hex: &str, v: Seq<u8>)
    requires
        hex.spec_bytes() == hex_encoded_lower(v),
    ensures
        !hex_decode_panics(hex),
        hex_decoded(hex) == Ok::<Seq<u8>, Seq<char>>(v),
{
    lemma_hex_round_trip_lower(v);
    assert((2 * v.len()) % 2 == 0) by (nonlinear_arith);
}

} // verus!
