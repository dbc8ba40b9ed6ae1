//! Peers as a tracker lists them: six bytes each, the IPv4 address and then
//! the port, both most significant byte first.
use vstd::prelude::*;
use vstd::utf8::decode_utf8;
use crate::bencode::{push_bytes, push_decimal};
use crate::digits::{decimal_nat, is_digit, lemma_decimal_nat};
use crate::text::{is_ascii_bytes, lemma_ascii_valid};
use vstd::utf8::encode_utf8;
use crate::boundary::{form_urlencode, form_urlencoded, pairs_text, sha1_digest, url_with_params, url_with_query};
use crate::data::DataValue;
use crate::grammar::data_decode_spec;
use crate::info::Info;
use crate::model::{
    data_display, data_display_ok, encode, lookup, lookup_ok, sorted_deep, str_bytes, BValue,
};
use crate::torrent::tracker_pairs;

verus! {

/// A peer: its IPv4 address, as four bytes, and its port.
pub struct Peer {
    pub ip: [u8; 4],
    pub port: u16,
}

/// The number of whole six-byte records in a compact peer list.
pub open spec fn peer_count(s: Seq<u8>) -> int {
    s.len() as int / 6
}

/// The address bytes of the `i`-th record.
pub open spec fn peer_ip(s: Seq<u8>, i: int) -> Seq<u8> {
    s.subrange(6 * i, 6 * i + 4)
}

/// The port of the `i`-th record.
pub open spec fn peer_port(s: Seq<u8>, i: int) -> int {
    s[6 * i + 4] * 256 + s[6 * i + 5]
}

/// `ip:port` with the address in dotted decimal, as `format!("{ip}:{port}")` writes it.
pub open spec fn address_text(ip: Seq<u8>, port: int) -> Seq<u8> {
    decimal_nat(ip[0] as nat) + seq![46u8] + decimal_nat(ip[1] as nat) + seq![46u8] + decimal_nat(
        ip[2] as nat,
    ) + seq![46u8] + decimal_nat(ip[3] as nat) + seq![58u8] + decimal_nat(port as nat)
}

proof fn lemma_decimal_ascii(n: nat)
    ensures
        is_ascii_bytes(decimal_nat(n)),
{
    lemma_decimal_nat(n);
    let d = decimal_nat(n);
    assert forall|i: int| 0 <= i < d.len() implies #[trigger] d[i] < 128 by {
        assert(is_digit(d[i]));
    }
}

proof fn lemma_ascii_concat(a: Seq<u8>, b: Seq<u8>)
    requires
        is_ascii_bytes(a),
        is_ascii_bytes(b),
    ensures
        is_ascii_bytes(a + b),
{
    assert forall|i: int| 0 <= i < (a + b).len() implies #[trigger] (a + b)[i] < 128 by {
        if i < a.len() {
            assert((a + b)[i] == a[i]);
        } else {
            assert((a + b)[i] == b[i - a.len()]);
        }
    }
}

/// Reads a compact peer list; `None` where its length is not a multiple of
/// six, since the last record would be cut short.
pub fn compact_peers(bytes: &[u8]) -> (res: Option<Vec<Peer>>)
    ensures
        match res {
            Some(peers) => bytes@.len() % 6 == 0 && peers@.len() == peer_count(bytes@) && forall|
                i: int,
            |
                0 <= i < peers@.len() ==> #[trigger] peers@[i].ip@ == peer_ip(bytes@, i)
                    && peers@[i].port == peer_port(bytes@, i),
            None => bytes@.len() % 6 != 0,
        },
{
    if bytes.len() % 6 != 0 {
        return None;
    }
    let mut peers: Vec<Peer> = Vec::new();
    let mut start: usize = 0;
    while start < bytes.len()
        invariant
            bytes@.len() % 6 == 0,
            start % 6 == 0,
            start <= bytes@.len(),
            peers@.len() == start / 6,
            forall|i: int|
                0 <= i < peers@.len() ==> #[trigger] peers@[i].ip@ == peer_ip(bytes@, i)
                    && peers@[i].port == peer_port(bytes@, i),
        decreases bytes@.len() - start,
    {
        let ip = [bytes[start], bytes[start + 1], bytes[start + 2], bytes[start + 3]];
        let port: u16 = (bytes[start + 4] as u16) * 256 + bytes[start + 5] as u16;
        let ghost k = peers@.len() as int;
        assert(ip@ =~= peer_ip(bytes@, k));
        peers.push(Peer { ip, port });
        start = start + 6;
    }
    assert(start == bytes@.len());
    assert(peers@.len() == peer_count(bytes@));
    Some(peers)
}

impl Peer {
    /// The peer as `ip:port`, the address in dotted decimal.
    pub fn address(&self) -> (res: String)
        ensures
            res@ == decode_utf8(address_text(self.ip@, self.port as int)),
    {
        let mut out: Vec<u8> = Vec::new();
        push_decimal(&mut out, self.ip[0] as u64);
        out.push(46u8);
        push_decimal(&mut out, self.ip[1] as u64);
        out.push(46u8);
        push_decimal(&mut out, self.ip[2] as u64);
        out.push(46u8);
        push_decimal(&mut out, self.ip[3] as u64);
        out.push(58u8);
        push_decimal(&mut out, self.port as u64);
        let ghost text = address_text(self.ip@, self.port as int);
        assert(out@ =~= text);
        proof {
            let ip = self.ip@;
            lemma_decimal_ascii(ip[0] as nat);
            lemma_decimal_ascii(ip[1] as nat);
            lemma_decimal_ascii(ip[2] as nat);
            lemma_decimal_ascii(ip[3] as nat);
            lemma_decimal_ascii(self.port as nat);
            assert(is_ascii_bytes(seq![46u8]));
            assert(is_ascii_bytes(seq![58u8]));
            let d0 = decimal_nat(ip[0] as nat);
            let d1 = decimal_nat(ip[1] as nat);
            let d2 = decimal_nat(ip[2] as nat);
            let d3 = decimal_nat(ip[3] as nat);
            let dp = decimal_nat(self.port as nat);
            lemma_ascii_concat(d0, seq![46u8]);
            lemma_ascii_concat(d0 + seq![46u8], d1);
            lemma_ascii_concat(d0 + seq![46u8] + d1, seq![46u8]);
            lemma_ascii_concat(d0 + seq![46u8] + d1 + seq![46u8], d2);
            lemma_ascii_concat(d0 + seq![46u8] + d1 + seq![46u8] + d2, seq![46u8]);
            lemma_ascii_concat(d0 + seq![46u8] + d1 + seq![46u8] + d2 + seq![46u8], d3);
            lemma_ascii_concat(d0 + seq![46u8] + d1 + seq![46u8] + d2 + seq![46u8] + d3, seq![58u8]);
            lemma_ascii_concat(
                d0 + seq![46u8] + d1 + seq![46u8] + d2 + seq![46u8] + d3 + seq![58u8],
                dp,
            );
            lemma_ascii_valid(text);
        }
        match crate::boundary::str_from_utf8(out.as_slice()) {
            Some(s) => s.to_owned(),
            None => {
                assert(false);
                String::new()
            },
        }
    }
}

/// The compact peer list of a tracker's reply read as a `DataValue`, where
/// the reply decodes as a `DataValue` and holds a `peers` entry.
pub open spec fn data_reply_peers(response: Seq<u8>) -> Option<Seq<u8>> {
    match data_decode_spec(response) {
        Some((v, rest)) => if lookup_ok(v, encode_utf8("peers"@)) {
            Some(str_bytes(lookup(v, encode_utf8("peers"@))))
        } else {
            None
        },
        None => None,
    }
}

/// What `get_peers` needs of a torrent file's dictionary: `announce`, and
/// `length` in `info`, both with text that `Display` can write.
pub open spec fn tracker_ready(data: BValue) -> bool {
    &&& lookup_ok(data, encode_utf8("announce"@))
    &&& data_display_ok(lookup(data, encode_utf8("announce"@)))
    &&& lookup_ok(data, encode_utf8("info"@))
    &&& lookup_ok(lookup(data, encode_utf8("info"@)), encode_utf8("length"@))
    &&& data_display_ok(lookup(lookup(data, encode_utf8("info"@)), encode_utf8("length"@)))
}

/// The URL that `get_peers` asks the tracker with: the announce URL with the
/// query pairs, `left` being the text of the length, then the
/// percent-encoded info hash; `None` where the dictionary lacks what
/// `tracker_ready` asks or the announce URL does not parse.
pub open spec fn tracker_url_spec(data: BValue) -> Option<Seq<char>> {
    if tracker_ready(data) {
        let info = lookup(data, encode_utf8("info"@));
        let base = decode_utf8(data_display(lookup(data, encode_utf8("announce"@))));
        let pairs = tracker_pairs(decode_utf8(data_display(lookup(info, encode_utf8("length"@)))));
        let hash = form_urlencoded(sha1_digest(encode(info)));
        match url_with_params(base, pairs) {
            Some(t) => Some(t + "&info_hash="@ + hash),
            None => None,
        }
    } else {
        None
    }
}

/// The URL to ask the tracker of a torrent file's dictionary for peers
/// with, as `tracker_url_spec` states it.
pub fn tracker_url(data: &DataValue) -> (res: Option<String>)
    requires
        sorted_deep(data@),
    ensures
        match res {
            Some(u) => tracker_url_spec(data@) == Some(u@),
            None => tracker_url_spec(data@) is None,
        },
{
    let announce = match data.try_get("announce") {
        Some(a) => a,
        None => {
            return None;
        },
    };
    let info_value = match data.try_get("info") {
        Some(i) => i,
        None => {
            return None;
        },
    };
    let length_value = match info_value.try_get("length") {
        Some(l) => l,
        None => {
            return None;
        },
    };
    let url = match announce.try_to_string() {
        Some(u) => u,
        None => {
            return None;
        },
    };
    let length = match length_value.try_to_string() {
        Some(l) => l,
        None => {
            return None;
        },
    };
    let info = Info::from(data);
    let hash = info.info_hash();
    let info_hash = form_urlencode(hash.as_slice());
    let mut params: Vec<(String, String)> = Vec::new();
    params.push(("peer_id".to_owned(), "12345678901234567890".to_owned()));
    params.push(("port".to_owned(), "6881".to_owned()));
    params.push(("uploaded".to_owned(), "0".to_owned()));
    params.push(("downloaded".to_owned(), "0".to_owned()));
    params.push(("left".to_owned(), length));
    params.push(("compact".to_owned(), "1".to_owned()));
    let ghost want = tracker_pairs(
        decode_utf8(data_display(lookup(lookup(data@, encode_utf8("info"@)), encode_utf8("length"@)))),
    );
    assert(pairs_text(params@) =~= want);
    match url_with_query(url.as_str(), &params) {
        Some(u) => {
            let mut full = u;
            full.append("&info_hash=");
            full.append(info_hash.as_str());
            Some(full)
        },
        None => None,
    }
}

/// The peers that a tracker's reply lists; `None` where the reply does not
/// decode as a `DataValue`, lacks a `peers` entry, or cuts the last peer short.
pub fn reply_peers(response: &[u8]) -> (res: Option<Vec<Peer>>)
    ensures
        match res {
            Some(peers) => data_reply_peers(response@) matches Some(s) && s.len() % 6 == 0
                && peers@.len() == peer_count(s) && forall|i: int|
                0 <= i < peers@.len() ==> #[trigger] peers@[i].ip@ == peer_ip(s, i)
                    && peers@[i].port == peer_port(s, i),
            None => data_reply_peers(response@) matches Some(s) ==> s.len() % 6 != 0,
        },
{
    let data = match DataValue::try_decode(response) {
        Some(d) => d,
        None => {
            return None;
        },
    };
    let field = match data.try_get("peers") {
        Some(f) => f,
        None => {
            return None;
        },
    };
    let bytes: &[u8] = match field {
        DataValue::String(b) => b.as_slice(),
        _ => &[],
    };
    compact_peers(bytes)
}

} // verus!
