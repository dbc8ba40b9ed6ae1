//! Calls into `std` functions that the verifier has no specification for,
//! and into the outside crates. Each item here states what the called
//! function does; that statement is trusted, not proved.
use vstd::prelude::*;
use vstd::utf8::{decode_utf8, valid_utf8};
use sha1::Digest;
use bytes::BufMut;

verus! {

/// `std::str::from_utf8`: succeeds exactly on valid UTF-8 and then reads
/// the characters that the bytes encode.
#[verifier::external_body]
pub fn str_from_utf8(bytes: &[u8]) -> (res: Option<&str>)
    ensures
        res is Some <==> valid_utf8(bytes@),
        res matches Some(s) ==> s@ == decode_utf8(bytes@),
{
    std::str::from_utf8(bytes).ok()
}

/// The SHA-1 digest of a byte sequence.
pub uninterp spec fn sha1_digest(data: Seq<u8>) -> Seq<u8>;

/// `<sha1::Sha1 as sha1::Digest>::digest`: the SHA-1 digest of `data`, which
/// is 20 bytes long. The digest in general is named by `sha1_digest`; stated
/// are the value that the crate's documentation gives for `hello world`, and
/// the one that the SHA-1 standard (FIPS 180) gives for a million `a`s, an
/// input of many blocks.
#[verifier::external_body]
pub fn sha1(data: &[u8]) -> (res: Vec<u8>)
    ensures
        res@ == sha1_digest(data@),
        res@.len() == 20,
        data@ == seq![104u8, 101, 108, 108, 111, 32, 119, 111, 114, 108, 100] ==> res@ == seq![
            0x2au8, 0xae, 0x6c, 0x35, 0xc9, 0x4f, 0xcf, 0xb4, 0x15, 0xdb, 0xe9, 0x5f, 0x40, 0x8b,
            0x9c, 0xe9, 0x1e, 0xe8, 0x46, 0xed,
        ],
        data@ == Seq::new(1000000, |i: int| 97u8) ==> res@ == seq![
            0x34u8, 0xaa, 0x97, 0x3c, 0xd4, 0xc4, 0xda, 0xa4, 0xf6, 0x1e, 0xeb, 0x2b, 0xdb, 0xad,
            0x27, 0x31, 0x65, 0x34, 0x01, 0x6f,
        ],
{
    sha1::Sha1::digest(data).to_vec()
}

/// The lowercase hexadecimal digit of a number below 16.
pub open spec fn hex_digit_lower(n: u8) -> char {
    if n < 10 {
        (n + 48) as char
    } else {
        (n - 10 + 97) as char
    }
}

/// Two lowercase hexadecimal digits per byte, high half first.
pub open spec fn hex_lower(data: Seq<u8>) -> Seq<char>
    decreases data.len(),
{
    if data.len() == 0 {
        seq![]
    } else {
        seq![hex_digit_lower(data[0] / 16), hex_digit_lower(data[0] % 16)] + hex_lower(
            data.drop_first(),
        )
    }
}

/// `hex::encode`: each byte as two lowercase hexadecimal digits, high half first.
#[verifier::external_body]
pub fn hex_encode(data: &[u8]) -> (res: String)
    ensures
        res@ == hex_lower(data@),
{
    hex::encode(data)
}

/// The uppercase hexadecimal digit of a number below 16.
pub open spec fn hex_digit_upper(n: u8) -> char {
    if n < 10 {
        (n + 48) as char
    } else {
        (n - 10 + 65) as char
    }
}

/// The bytes that `application/x-www-form-urlencoded` leaves as they are.
pub open spec fn form_unchanged(b: u8) -> bool {
    b == 42 || b == 45 || b == 46 || (48 <= b <= 57) || (65 <= b <= 90) || b == 95 || (97 <= b
        <= 122)
}

/// The `application/x-www-form-urlencoded` form of one byte: itself, `+` for
/// a space, else `%` and two uppercase hexadecimal digits.
pub open spec fn form_byte(b: u8) -> Seq<char> {
    if form_unchanged(b) {
        seq![b as char]
    } else if b == 32 {
        seq!['+']
    } else {
        seq!['%', hex_digit_upper(b / 16), hex_digit_upper(b % 16)]
    }
}

pub open spec fn form_urlencoded(data: Seq<u8>) -> Seq<char>
    decreases data.len(),
{
    if data.len() == 0 {
        seq![]
    } else {
        form_byte(data[0]) + form_urlencoded(data.drop_first())
    }
}

/// `url::form_urlencoded::byte_serialize`, collected into a `String`: each
/// byte in the form that `form_byte` states.
#[verifier::external_body]
pub fn form_urlencode(data: &[u8]) -> (res: String)
    ensures
        res@ == form_urlencoded(data@),
{
    url::form_urlencoded::byte_serialize(data).collect()
}

/// The pairs of a query, as text.
pub open spec fn pairs_text(params: Seq<(String, String)>) -> Seq<(Seq<char>, Seq<char>)> {
    params.map_values(|p: (String, String)| (p.0@, p.1@))
}

/// The text of the URL that `url::Url::parse_with_params` makes of a base URL
/// and query pairs, or `None` where the base does not parse.
pub uninterp spec fn url_with_params(base: Seq<char>, params: Seq<(Seq<char>, Seq<char>)>) -> Option<
    Seq<char>,
>;

/// `url::Url::parse_with_params`, then the text of the URL. Which URLs parse,
/// and how they are written back, is named by `url_with_params` and not stated.
#[verifier::external_body]
pub fn url_with_query(base: &str, params: &Vec<(String, String)>) -> (res: Option<String>)
    ensures
        match res {
            Some(u) => url_with_params(base@, pairs_text(params@)) == Some(u@),
            None => url_with_params(base@, pairs_text(params@)) is None,
        },
{
    match url::Url::parse_with_params(base, params.iter()) {
        Ok(u) => Some(String::from(u)),
        Err(_) => None,
    }
}

/// The four bytes of `n`, most significant first.
pub open spec fn be32(n: u32) -> Seq<u8> {
    seq![(n / 0x1000000) as u8, ((n / 0x10000) % 256) as u8, ((n / 256) % 256) as u8, (n % 256) as u8]
}

/// `bytes::BufMut::put_u32` on a vector: appends the four big-endian bytes of `n`.
#[verifier::external_body]
pub fn put_u32(buf: &mut Vec<u8>, n: u32)
    requires
        old(buf)@.len() + 4 <= isize::MAX,
    ensures
        final(buf)@ == old(buf)@ + be32(n),
{
    buf.put_u32(n)
}

/// `bytes::BufMut::put_u8` on a vector: appends `n`.
#[verifier::external_body]
pub fn put_u8(buf: &mut Vec<u8>, n: u8)
    requires
        old(buf)@.len() + 1 <= isize::MAX,
    ensures
        final(buf)@ == old(buf)@.push(n),
{
    buf.put_u8(n)
}

} // verus!
