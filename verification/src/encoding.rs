//! Text encodings of binary data: lowercase hex (the stored node key) and
//! standard base64 (media and request payloads exchanged as JSON).

use vstd::prelude::*;

use base64::Engine;

verus! {

pub open spec fn hex_char(n: u8) -> char {
    if n < 10 {
        ((n + 48) as u8) as char
    } else {
        ((n + 87) as u8) as char
    }
}

/// The value of a hex digit byte (either case), if it is one.
pub open spec fn hex_value(b: u8) -> Option<u8> {
    if 0x30 <= b <= 0x39 {
        Some((b - 0x30) as u8)
    } else if 0x61 <= b <= 0x66 {
        Some((b - 0x61 + 10) as u8)
    } else if 0x41 <= b <= 0x46 {
        Some((b - 0x41 + 10) as u8)
    } else {
        None
    }
}

/// Two lowercase hex digits per byte, most significant first.
pub open spec fn hex_spec(bytes: Seq<u8>) -> Seq<char>
    decreases bytes.len(),
{
    if bytes.len() == 0 {
        Seq::empty()
    } else {
        hex_spec(bytes.drop_last()) + seq![
            hex_char(bytes.last() / 16),
            hex_char(bytes.last() % 16),
        ]
    }
}

/// The bytes a hex string of even length stands for, if every character
/// is a hex digit.
pub open spec fn unhex_spec(text: Seq<u8>) -> Option<Seq<u8>>
    decreases text.len(),
{
    if text.len() < 2 {
        if text.len() == 0 {
            Some(Seq::empty())
        } else {
            None
        }
    } else {
        let n = text.len() as int;
        match (unhex_spec(text.subrange(0, n - 2)), hex_value(text[n - 2]), hex_value(text[n - 1])) {
            (Some(rest), Some(hi), Some(lo)) => Some(rest.push((hi * 16 + lo) as u8)),
            _ => None,
        }
    }
}

fn hex_digit(n: u8) -> (c: char)
    requires
        n < 16,
    ensures
        c == hex_char(n),
{
    if n < 10 {
        ((n + 48) as u8) as char
    } else {
        ((n + 87) as u8) as char
    }
}

/// Encodes bytes as lowercase hex.
pub fn hex_encode(bytes: &[u8]) -> (s: String)
    ensures
        s@ == hex_spec(bytes@),
{
    let mut out: Vec<char> = Vec::new();
    let mut i: usize = 0;
    while i < bytes.len()
        invariant
            i <= bytes@.len(),
            out@ == hex_spec(bytes@.take(i as int)),
        decreases bytes@.len() - i,
    {
        let b = bytes[i];
        out.push(hex_digit(b / 16));
        out.push(hex_digit(b % 16));
        assert(bytes@.take(i + 1).drop_last() =~= bytes@.take(i as int));
        i = i + 1;
        assert(out@ =~= hex_spec(bytes@.take(i as int)));
    }
    assert(bytes@.take(i as int) =~= bytes@);
    crate::text::string_of(&out)
}

fn hex_value_exec(b: u8) -> (v: Option<u8>)
    ensures
        v == hex_value(b),
{
    if b >= 0x30 && b <= 0x39 {
        Some(b - 0x30)
    } else if b >= 0x61 && b <= 0x66 {
        Some(b - 0x61 + 10)
    } else if b >= 0x41 && b <= 0x46 {
        Some(b - 0x41 + 10)
    } else {
        None
    }
}

/// Decodes a hex string (of even length, digits in either case).
pub fn hex_decode(text: &[u8]) -> (r: Option<Vec<u8>>)
    ensures
        match unhex_spec(text@) {
            Some(v) => r matches Some(w) && w@ == v,
            None => r is None,
        },
{
    if text.len() % 2 != 0 {
        proof {
            lemma_unhex_odd(text@);
        }
        return None;
    }
    let mut out: Vec<u8> = Vec::new();
    let mut i: usize = 0;
    while i < text.len()
        invariant
            text@.len() % 2 == 0,
            i <= text@.len(),
            i % 2 == 0,
            unhex_spec(text@.subrange(0, i as int)) == Some(out@),
        decreases text@.len() - i,
    {
        let hi = hex_value_exec(text[i]);
        let lo = hex_value_exec(text[i + 1]);
        proof {
            assert(text@.subrange(0, i + 2).subrange(0, i as int) =~= text@.subrange(0, i as int));
        }
        match (hi, lo) {
            (Some(h), Some(l)) => {
                out.push(h * 16 + l);
                i = i + 2;
            },
            _ => {
                proof {
                    lemma_unhex_prefix_fails(text@, i as int + 2);
                }
                return None;
            },
        }
    }
    assert(text@.subrange(0, i as int) =~= text@);
    Some(out)
}

proof fn lemma_unhex_odd(t: Seq<u8>)
    requires
        t.len() % 2 == 1,
    ensures
        unhex_spec(t) is None,
    decreases t.len(),
{
    if t.len() >= 2 {
        lemma_unhex_odd(t.subrange(0, t.len() - 2));
    }
}

/// A hex string whose first `n` bytes don't decode doesn't decode.
proof fn lemma_unhex_prefix_fails(t: Seq<u8>, n: int)
    requires
        2 <= n <= t.len(),
        n % 2 == 0,
        t.len() % 2 == 0,
        unhex_spec(t.subrange(0, n)) is None,
    ensures
        unhex_spec(t) is None,
    decreases t.len() - n,
{
    if n < t.len() {
        let m = t.len() as int;
        assert(t.subrange(0, n + 2).subrange(0, n) =~= t.subrange(0, n));
        lemma_unhex_prefix_fails(t, n + 2);
        assert(t.subrange(0, m) =~= t);
    } else {
        assert(t.subrange(0, n) =~= t);
    }
}

/// The bytes of the characters of a hex string (all ASCII).
pub open spec fn ascii_bytes(s: Seq<char>) -> Seq<u8> {
    s.map_values(|c: char| c as u8)
}

/// Decoding the hex of any bytes gives them back: a stored key reads back
/// as the key that was stored.
pub proof fn lemma_hex_roundtrip(bytes: Seq<u8>)
    ensures
        unhex_spec(ascii_bytes(hex_spec(bytes))) == Some(bytes),
    decreases bytes.len(),
{
    if bytes.len() > 0 {
        let init = bytes.drop_last();
        let b = bytes.last();
        lemma_hex_roundtrip(init);
        let t = ascii_bytes(hex_spec(bytes));
        let n = t.len() as int;
        assert(t.subrange(0, n - 2) =~= ascii_bytes(hex_spec(init)));
        let hi = b / 16;
        let lo = b % 16;
        assert(hex_value(hex_char(hi) as u8) == Some(hi));
        assert(hex_value(hex_char(lo) as u8) == Some(lo));
        assert(t[n - 2] == hex_char(hi) as u8);
        assert(t[n - 1] == hex_char(lo) as u8);
        assert((hi * 16 + lo) as u8 == b);
        assert(init.push(b) =~= bytes);
    } else {
        assert(ascii_bytes(hex_spec(bytes)) =~= Seq::<u8>::empty());
    }
}

/// Names what standard base64 (with padding) encodes `input` as.
pub uninterp spec fn base64_standard_encoding(input: Seq<u8>) -> Seq<char>;

/// Names what standard base64 decoding gives for `input`: the bytes, or
/// nothing when it is not valid base64.
pub uninterp spec fn base64_standard_decoding(input: Seq<u8>) -> Option<Seq<u8>>;

/// Calls the standard base64 engine's `encode`. It panics when the encoded
/// length overflows `usize`, so inputs are bounded.
#[verifier::external_body]
fn base64_encode(input: &[u8]) -> (s: String)
    requires
        input@.len() <= usize::MAX / 2,
    ensures
        s@ == base64_standard_encoding(input@),
{
    base64::engine::general_purpose::STANDARD.encode(input)
}

/// Calls the standard base64 engine's `decode`. The error text of a refused
/// input is the engine's own description and is not stated.
#[verifier::external_body]
fn base64_decode(input: &[u8]) -> (r: Result<Vec<u8>, String>)
    ensures
        r is Ok <==> base64_standard_decoding(input@) is Some,
        r matches Ok(v) ==> base64_standard_decoding(input@) == Some(v@),
{
    match base64::engine::general_purpose::STANDARD.decode(input) {
        Ok(v) => Ok(v),
        Err(e) => Err(e.to_string()),
    }
}

/// Standard base64 text of `bytes`, as the frontend receives media in
/// event mode.
pub fn to_base64(bytes: &[u8]) -> (s: String)
    requires
        bytes@.len() <= usize::MAX / 2,
    ensures
        s@ == base64_standard_encoding(bytes@),
{
    base64_encode(bytes)
}

/// Decodes base64 data posted by the frontend; a refusal is reported as a
/// base64 decode error.
pub fn decode_base64_data(text: &str) -> (r: Result<Vec<u8>, String>)
    ensures
        r is Ok <==> base64_standard_decoding(
            vstd::string::StringSliceAdditionalSpecFns::spec_bytes(text),
        ) is Some,
        r matches Ok(v) ==> base64_standard_decoding(
            vstd::string::StringSliceAdditionalSpecFns::spec_bytes(text),
        ) == Some(v@),
        r matches Err(e) ==> exists|detail: Seq<char>| e@ == "base64 decode error: "@ + detail,
{
    match base64_decode(text.as_bytes()) {
        Ok(v) => Ok(v),
        Err(detail) => {
            let mut msg: Vec<char> = Vec::new();
            crate::text::push_str(&mut msg, "base64 decode error: ");
            let d = detail.as_str();
            crate::text::push_str(&mut msg, d);
            let e = crate::text::string_of(&msg);
            assert(e@ == "base64 decode error: "@ + d@);
            Err(e)
        },
    }
}

/// Decodes base64 text into exactly `n` bytes, if it is valid base64 of
/// that length.
pub fn base64_bytes_of_len(text: &str, n: usize) -> (r: Option<Vec<u8>>)
    ensures
        match base64_standard_decoding(vstd::string::StringSliceAdditionalSpecFns::spec_bytes(text)) {
            Some(v) => if v.len() == n {
                r matches Some(w) && w@ == v
            } else {
                r is None
            },
            None => r is None,
        },
{
    match base64_decode(text.as_bytes()) {
        Ok(v) => {
            if v.len() == n {
                Some(v)
            } else {
                None
            }
        },
        Err(_) => None,
    }
}

} // verus!
