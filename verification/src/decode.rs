//! Decoding a bencoded string given as text into a JSON string.
use vstd::prelude::*;
use vstd::utf8::{decode_utf8, encode_utf8, valid_utf8};
use crate::digits::{digits_at_most, is_digit, lemma_digits_value_nonneg, parse_signed};
use crate::grammar::{find_byte, lemma_find_byte};
use crate::json::{json_string, make_json_string};

verus! {

/// The bytes of the string that `decode_bencoded_value` reads from `s`: the
/// length before the first `:` (an `i64` that fits a `usize`), then that many
/// bytes, which must be UTF-8 on their own; `None` where it panics.
pub open spec fn bencoded_payload(s: Seq<u8>) -> Option<Seq<u8>> {
    if s.len() == 0 || !is_digit(s[0]) {
        None
    } else {
        let c = find_byte(s, 0, 58u8);
        if c >= s.len() {
            None
        } else {
            match parse_signed(s.subrange(0, c)) {
                Some(n) => if 0 <= n <= i64::MAX && n <= usize::MAX && c + 1 + n <= s.len()
                    && valid_utf8(s.subrange(c + 1, c + 1 + n)) {
                    Some(s.subrange(c + 1, c + 1 + n))
                } else {
                    None
                },
                None => None,
            }
        }
    }
}

/// The text of the bencoded string that starts `encoded_value`, or `None`
/// where `decode_bencoded_value` panics.
pub fn bencoded_text(encoded_value: &str) -> (res: Option<String>)
    ensures
        match res {
            Some(t) => bencoded_payload(encode_utf8(encoded_value@)) matches Some(p) && t@
                == decode_utf8(p),
            None => bencoded_payload(encode_utf8(encoded_value@)) is None,
        },
{
    let bytes = encoded_value.as_bytes();
    if bytes.len() == 0 || bytes[0] < 48 || bytes[0] > 57 {
        return None;
    }
    let mut c: usize = 0;
    while c < bytes.len() && bytes[c] != 58u8
        invariant
            c <= bytes@.len(),
            find_byte(bytes@, 0, 58u8) == find_byte(bytes@, c as int, 58u8),
        decreases bytes@.len() - c,
    {
        c = c + 1;
    }
    proof {
        lemma_find_byte(bytes@, 0, 58u8);
    }
    if c >= bytes.len() {
        return None;
    }
    let ghost t = bytes@.subrange(0, c as int);
    assert(t[0] == bytes@[0]);
    assert(is_digit(t[0]));
    let limit: u64 = if (i64::MAX as u64) < (usize::MAX as u64) {
        i64::MAX as u64
    } else {
        usize::MAX as u64
    };
    let n = match digits_at_most(bytes, 0, c, limit) {
        Some(n) => n as usize,
        None => {
            proof {
                if crate::digits::all_digits(t) {
                    lemma_digits_value_nonneg(t);
                }
            }
            return None;
        },
    };
    if n > bytes.len() - c - 1 {
        return None;
    }
    let piece = &bytes[c + 1..c + 1 + n];
    match crate::boundary::str_from_utf8(piece) {
        Some(s) => Some(s.to_owned()),
        None => None,
    }
}

/// The JSON string of the bencoded string that starts `encoded_value`.
pub fn decode_bencoded_value(encoded_value: &str) -> (res: serde_json::Value)
    requires
        bencoded_payload(encode_utf8(encoded_value@)) is Some,
    ensures
        res == json_string(decode_utf8(bencoded_payload(encode_utf8(encoded_value@)).unwrap())),
{
    match bencoded_text(encoded_value) {
        Some(text) => make_json_string(text),
        None => {
            assert(false);
            make_json_string(String::new())
        },
    }
}

} // verus!
