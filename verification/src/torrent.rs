//! A torrent's metadata: the tracker's URL and the `info` dictionary.
use vstd::prelude::*;
use vstd::utf8::{decode_utf8, decode_utf8_encode_utf8, encode_utf8};
use crate::bencode::{decimal_text, Bencode};
use crate::boundary::{
    form_urlencode, form_urlencoded, hex_encode, hex_lower, pairs_text, sha1, sha1_digest,
    url_with_params, url_with_query,
};
use crate::digits::{decimal_nat, parse_bounded, parse_unsigned_range};
use crate::grammar::decode_spec;
use crate::model::{
    encode, lemma_text_valid, lookup, lookup_ok, sorted_deep, str_bytes, text, text_ok, BValue,
};
use crate::ordering::lemma_lookup_sorted_deep;
use crate::peers::{address_text, compact_peers, peer_count, peer_ip, peer_port};

verus! {

/// The number that `value().parse::<u32>()` reads from the value of `key`.
pub open spec fn u32_field(v: BValue, key: Seq<u8>) -> Option<int> {
    if lookup_ok(v, key) && text_ok(lookup(v, key)) {
        parse_bounded(text(lookup(v, key)), u32::MAX as int)
    } else {
        None
    }
}

/// A numeric field reads back every integer from zero up to `u32::MAX`
/// that the field holds, and no larger one.
pub proof fn law_u32_field_reads_integers(v: BValue, key: Seq<u8>, n: int)
    requires
        lookup_ok(v, key),
        lookup(v, key) == BValue::Int(n),
        0 <= n,
    ensures
        n <= u32::MAX ==> u32_field(v, key) == Some(n),
        n > u32::MAX ==> u32_field(v, key) is None,
{
    crate::digits::lemma_parse_decimal_nat(n as nat);
    assert(text(lookup(v, key)) == decimal_nat(n as nat));
}

/// The `i`-th piece hash: twenty bytes, or what is left of them at the end.
pub open spec fn piece_chunk(s: Seq<u8>, i: int) -> Seq<u8> {
    s.subrange(
        20 * i,
        if 20 * i + 20 <= s.len() {
            20 * i + 20
        } else {
            s.len() as int
        },
    )
}

/// The piece hashes of a `pieces` string: one hexadecimal string per
/// twenty bytes begun, in order.
pub open spec fn hashes_are(s: Seq<u8>, res: Seq<String>) -> bool {
    &&& res.len() == piece_count(s)
    &&& forall|i: int| 0 <= i < res.len() ==> #[trigger] res[i]@ == hex_lower(piece_chunk(s, i))
}

/// The piece hashes are the hexadecimal of the `pieces` string taken
/// twenty bytes at a time, in order: hash `i` is that of bytes `20 * i` up
/// to `20 * i + 20`, or up to the end for the last one.
pub proof fn law_hashes_in_order(s: Seq<u8>, res: Seq<String>)
    requires
        hashes_are(s, res),
    ensures
        res.len() == (s.len() + 19) / 20,
        forall|i: int|
            #![trigger res[i]]
            0 <= i < res.len() ==> res[i]@ == hex_lower(
                s.subrange(20 * i, if 20 * i + 20 <= s.len() { 20 * i + 20 } else { s.len() as int }),
            ),
{
    assert forall|i: int| 0 <= i < res.len() implies #[trigger] res[i]@ == hex_lower(
        s.subrange(20 * i, if 20 * i + 20 <= s.len() { 20 * i + 20 } else { s.len() as int }),
    ) by {
        assert(res[i]@ == hex_lower(piece_chunk(s, i)));
    }
}

/// How many piece hashes `chunks(20)` yields.
pub open spec fn piece_count(s: Seq<u8>) -> int {
    (s.len() as int + 19) / 20
}

/// The query that the tracker is asked with; `left` is the length in decimal.
pub open spec fn tracker_pairs(left: Seq<char>) -> Seq<(Seq<char>, Seq<char>)> {
    seq![
        ("peer_id"@, "12345678901234567890"@),
        ("port"@, "6881"@),
        ("uploaded"@, "0"@),
        ("downloaded"@, "0"@),
        ("left"@, left),
        ("compact"@, "1"@),
    ]
}

/// The compact peer list of a tracker's reply, where the reply decodes and
/// holds a `peers` entry.
pub open spec fn reply_peers(response: Seq<u8>) -> Option<Seq<u8>> {
    match decode_spec(response) {
        Some((v, rest)) => if lookup_ok(v, encode_utf8("peers"@)) {
            Some(str_bytes(lookup(v, encode_utf8("peers"@))))
        } else {
            None
        },
        None => None,
    }
}

/// A torrent: the tracker's URL and the `info` dictionary.
pub struct Torrent {
    announce: Bencode,
    info: Bencode,
}

impl Torrent {
    /// Both values keep their dictionaries in key order, as the torrent
    /// file's dictionary does.
    #[verifier::type_invariant]
    spec fn keys_in_order(self) -> bool {
        sorted_deep(self.announce@) && sorted_deep(self.info@)
    }

    pub closed spec fn announce_value(self) -> BValue {
        self.announce@
    }

    pub closed spec fn info_value(self) -> BValue {
        self.info@
    }

    /// The length of the torrent's content, as `length()` reads it.
    pub open spec fn length_spec(self) -> Option<int> {
        u32_field(self.info_value(), encode_utf8("length"@))
    }

    /// The length of each piece, as `piece_length()` reads it.
    pub open spec fn piece_length_spec(self) -> Option<int> {
        u32_field(self.info_value(), encode_utf8("piece length"@))
    }

    /// The concatenated piece hashes.
    pub open spec fn pieces_spec(self) -> Seq<u8> {
        str_bytes(lookup(self.info_value(), encode_utf8("pieces"@)))
    }

    /// Takes the `announce` and `info` entries of a torrent file's dictionary.
    pub fn from(data: &Bencode) -> (res: Self)
        requires
            sorted_deep(data@),
            lookup_ok(data@, encode_utf8("announce"@)),
            lookup_ok(data@, encode_utf8("info"@)),
        ensures
            res.announce_value() == lookup(data@, encode_utf8("announce"@)),
            res.info_value() == lookup(data@, encode_utf8("info"@)),
    {
        proof {
            lemma_lookup_sorted_deep(data@, encode_utf8("announce"@));
            lemma_lookup_sorted_deep(data@, encode_utf8("info"@));
        }
        Torrent { announce: data.get("announce").clone(), info: data.get("info").clone() }
    }

    /// The SHA-1 digest of the bencoded `info` dictionary.
    pub fn info_hash(&self) -> (res: Vec<u8>)
        ensures
            res@ == sha1_digest(encode(self.info_value())),
            res@.len() == 20,
    {
        proof {
            use_type_invariant(self);
        }
        let encoded = self.info.encode();
        sha1(encoded.as_slice())
    }

    /// Reads the `u32` that the text of `info[key]` writes; `None` where
    /// `info` lacks the key, its text panics, or does not read as a `u32`.
    fn u32_of(&self, key: &str) -> (res: Option<u32>)
        ensures
            match res {
                Some(n) => u32_field(self.info_value(), encode_utf8(key@)) == Some(n as int),
                None => u32_field(self.info_value(), encode_utf8(key@)) is None,
            },
    {
        proof {
            use_type_invariant(self);
        }
        let field = match self.info.try_get(key) {
            Some(f) => f,
            None => {
                return None;
            },
        };
        proof {
            lemma_lookup_sorted_deep(self.info@, encode_utf8(key@));
        }
        let text = match field.try_value() {
            Some(t) => t,
            None => {
                return None;
            },
        };
        proof {
            lemma_text_valid(field@);
            decode_utf8_encode_utf8(crate::model::text(field@));
        }
        let bytes = text.as_str().as_bytes();
        assert(bytes@.subrange(0, bytes@.len() as int) =~= bytes@);
        match parse_unsigned_range(bytes, 0, bytes.len(), u32::MAX as u64) {
            Some(n) => Some(n as u32),
            None => None,
        }
    }

    /// The length of the torrent's content, or `None` where `length` would panic.
    pub fn try_length(&self) -> (res: Option<u32>)
        ensures
            match res {
                Some(n) => self.length_spec() == Some(n as int),
                None => self.length_spec() is None,
            },
    {
        self.u32_of("length")
    }

    /// The length of the torrent's content.
    pub fn length(&self) -> (res: u32)
        requires
            self.length_spec() is Some,
        ensures
            res == self.length_spec().unwrap(),
    {
        match self.try_length() {
            Some(n) => n,
            None => {
                assert(false);
                0
            },
        }
    }

    /// The length of each piece, or `None` where `piece_length` would panic.
    pub fn try_piece_length(&self) -> (res: Option<u32>)
        ensures
            match res {
                Some(n) => self.piece_length_spec() == Some(n as int),
                None => self.piece_length_spec() is None,
            },
    {
        self.u32_of("piece length")
    }

    /// The length of each piece.
    pub fn piece_length(&self) -> (res: u32)
        requires
            self.piece_length_spec() is Some,
        ensures
            res == self.piece_length_spec().unwrap(),
    {
        match self.try_piece_length() {
            Some(n) => n,
            None => {
                assert(false);
                0
            },
        }
    }

    /// The concatenated twenty-byte SHA-1 hashes of the pieces.
    pub fn pieces(&self) -> (res: &[u8])
        requires
            lookup_ok(self.info_value(), encode_utf8("pieces"@)),
        ensures
            res@ == self.pieces_spec(),
    {
        self.info.get("pieces").bytes()
    }

    /// The hash of each piece in lowercase hexadecimal.
    pub fn piece_hashes(&self) -> (res: Vec<String>)
        requires
            lookup_ok(self.info_value(), encode_utf8("pieces"@)),
        ensures
            res@.len() == piece_count(self.pieces_spec()),
            forall|i: int|
                0 <= i < res@.len() ==> #[trigger] res@[i]@ == hex_lower(
                    piece_chunk(self.pieces_spec(), i),
                ),
            hashes_are(self.pieces_spec(), res@),
    {
        let pieces = self.pieces();
        let mut strings: Vec<String> = Vec::new();
        let mut start: usize = 0;
        while start < pieces.len()
            invariant
                pieces@ == self.pieces_spec(),
                start <= pieces@.len(),
                start == if 20 * strings@.len() <= pieces@.len() {
                    20 * strings@.len() as int
                } else {
                    pieces@.len() as int
                },
                20 * strings@.len() < pieces@.len() + 20,
                forall|i: int|
                    0 <= i < strings@.len() ==> #[trigger] strings@[i]@ == hex_lower(
                        piece_chunk(pieces@, i),
                    ),
            decreases pieces@.len() - start,
        {
            let end = if pieces.len() - start > 20 {
                start + 20
            } else {
                pieces.len()
            };
            let ghost k = strings@.len() as int;
            let chunk = &pieces[start..end];
            assert(chunk@ =~= piece_chunk(pieces@, k));
            strings.push(hex_encode(chunk));
            start = end;
        }
        strings
    }

    /// The piece hashes, or `None` where `info` lacks `pieces`.
    pub fn try_piece_hashes(&self) -> (res: Option<Vec<String>>)
        ensures
            res is Some <==> lookup_ok(self.info_value(), encode_utf8("pieces"@)),
            res matches Some(hashes) ==> hashes@.len() == piece_count(self.pieces_spec())
                && forall|i: int|
                0 <= i < hashes@.len() ==> #[trigger] hashes@[i]@ == hex_lower(
                    piece_chunk(self.pieces_spec(), i),
                ),
            res matches Some(hashes) ==> hashes_are(self.pieces_spec(), hashes@),
    {
        if self.info.try_get("pieces").is_none() {
            return None;
        }
        Some(self.piece_hashes())
    }

    /// The URL that `get_peers` asks the tracker with: the announce URL with
    /// the query pairs of `tracker_pairs`, then the percent-encoded info hash;
    /// `None` where the length or the announce URL cannot be read, or the
    /// announce URL does not parse.
    pub open spec fn tracker_url_spec(self) -> Option<Seq<char>> {
        if self.length_spec() is Some && text_ok(self.announce_value()) {
            let base = decode_utf8(text(self.announce_value()));
            let pairs = tracker_pairs(decode_utf8(decimal_nat(self.length_spec().unwrap() as nat)));
            let hash = form_urlencoded(sha1_digest(encode(self.info_value())));
            match url_with_params(base, pairs) {
                Some(t) => Some(t + "&info_hash="@ + hash),
                None => None,
            }
        } else {
            None
        }
    }

    /// The URL to ask the tracker for peers with, as `tracker_url_spec` states it.
    pub fn tracker_url(&self) -> (res: Option<String>)
        ensures
            match res {
                Some(u) => self.tracker_url_spec() == Some(u@),
                None => self.tracker_url_spec() is None,
            },
    {
        proof {
            use_type_invariant(self);
        }
        let length = match self.try_length() {
            Some(n) => n,
            None => {
                return None;
            },
        };
        let base = match self.announce.try_value() {
            Some(b) => b,
            None => {
                return None;
            },
        };
        let hash = self.info_hash();
        let info_hash = form_urlencode(hash.as_slice());
        let left = decimal_text(length as u64);
        let mut params: Vec<(String, String)> = Vec::new();
        params.push(("peer_id".to_owned(), "12345678901234567890".to_owned()));
        params.push(("port".to_owned(), "6881".to_owned()));
        params.push(("uploaded".to_owned(), "0".to_owned()));
        params.push(("downloaded".to_owned(), "0".to_owned()));
        params.push(("left".to_owned(), left));
        params.push(("compact".to_owned(), "1".to_owned()));
        let ghost want = tracker_pairs(decode_utf8(decimal_nat(self.length_spec().unwrap() as nat)));
        assert(pairs_text(params@) =~= want);
        match url_with_query(base.as_str(), &params) {
            Some(url) => {
                let mut full = url;
                full.append("&info_hash=");
                full.append(info_hash.as_str());
                Some(full)
            },
            None => None,
        }
    }

    /// The peers that a tracker's reply lists, each as `ip:port`; `None`
    /// where the reply does not decode, lacks a `peers` entry, or cuts the
    /// last peer short.
    pub fn peer_addresses(response: &[u8]) -> (res: Option<Vec<String>>)
        ensures
            match res {
                Some(addresses) => reply_peers(response@) matches Some(s) && s.len() % 6 == 0
                    && addresses@.len() == peer_count(s) && forall|i: int|
                    0 <= i < addresses@.len() ==> #[trigger] addresses@[i]@ == decode_utf8(
                        address_text(peer_ip(s, i), peer_port(s, i)),
                    ),
                None => reply_peers(response@) matches Some(s) ==> s.len() % 6 != 0,
            },
    {
        let (data, rest) = match crate::decoder::try_decode(response) {
            Some(r) => r,
            None => {
                return None;
            },
        };
        let field = match data.try_get("peers") {
            Some(f) => f,
            None => {
                return None;
            },
        };
        let peers = match compact_peers(field.bytes()) {
            Some(p) => p,
            None => {
                return None;
            },
        };
        let mut result: Vec<String> = Vec::new();
        let mut i: usize = 0;
        while i < peers.len()
            invariant
                i <= peers@.len(),
                result@.len() == i,
                forall|j: int|
                    0 <= j < i ==> #[trigger] result@[j]@ == decode_utf8(
                        address_text(peers@[j].ip@, peers@[j].port as int),
                    ),
            decreases peers@.len() - i,
        {
            result.push(peers[i].address());
            i = i + 1;
        }
        Some(result)
    }
}

impl Torrent {
    /// The lines that `print` shows: the tracker URL, the length, the info
    /// hash, the piece length, a heading, then each piece hash.
    pub fn print_lines(&self) -> (res: Option<Vec<String>>)
        ensures
            res is Some <==> (text_ok(self.announce_value()) && self.length_spec() is Some
                && self.piece_length_spec() is Some && lookup_ok(
                self.info_value(),
                encode_utf8("pieces"@),
            )),
            res matches Some(res) ==> self.lines_are(res@),
    {
        proof {
            use_type_invariant(self);
        }
        if self.announce.try_value().is_none() || self.try_length().is_none()
            || self.try_piece_length().is_none() || self.info.try_get("pieces").is_none() {
            return None;
        }
        Some(self.print_lines_checked())
    }

    /// What `print_lines` states of its lines.
    pub open spec fn lines_are(self, res: Seq<String>) -> bool {
        &&& res.len() == 5 + piece_count(self.pieces_spec())
        &&& res[0]@ == "Tracker URL: "@ + decode_utf8(text(self.announce_value()))
        &&& res[1]@ == "Length: "@ + decode_utf8(decimal_nat(self.length_spec().unwrap() as nat))
        &&& res[2]@ == "Info Hash: "@ + hex_lower(sha1_digest(encode(self.info_value())))
        &&& res[3]@ == "Piece Length: "@ + decode_utf8(
            decimal_nat(self.piece_length_spec().unwrap() as nat),
        )
        &&& res[4]@ == "Piece Hashes:"@
        &&& forall|i: int|
            0 <= i < piece_count(self.pieces_spec()) ==> #[trigger] res[5 + i]@ == hex_lower(
                piece_chunk(self.pieces_spec(), i),
            )
    }

    fn print_lines_checked(&self) -> (res: Vec<String>)
        requires
            text_ok(self.announce_value()),
            self.length_spec() is Some,
            self.piece_length_spec() is Some,
            lookup_ok(self.info_value(), encode_utf8("pieces"@)),
        ensures
            self.lines_are(res@),
    {
        proof {
            use_type_invariant(self);
        }
        let mut lines: Vec<String> = Vec::new();
        let mut line = "Tracker URL: ".to_owned();
        line.append(self.announce.value().as_str());
        lines.push(line);
        let mut line = "Length: ".to_owned();
        line.append(decimal_text(self.length() as u64).as_str());
        lines.push(line);
        let mut line = "Info Hash: ".to_owned();
        line.append(hex_encode(self.info_hash().as_slice()).as_str());
        lines.push(line);
        let mut line = "Piece Length: ".to_owned();
        line.append(decimal_text(self.piece_length() as u64).as_str());
        lines.push(line);
        lines.push("Piece Hashes:".to_owned());
        let hashes = self.piece_hashes();
        let ghost head = lines@;
        let mut i: usize = 0;
        while i < hashes.len()
            invariant
                i <= hashes@.len(),
                lines@.len() == 5 + i,
                head.len() == 5,
                forall|j: int| 0 <= j < 5 ==> #[trigger] lines@[j] == head[j],
                forall|j: int| 0 <= j < i ==> #[trigger] lines@[5 + j] == hashes@[j],
            decreases hashes@.len() - i,
        {
            lines.push(hashes[i].clone());
            i = i + 1;
        }
        lines
    }
}

impl Clone for Torrent {
    fn clone(&self) -> (res: Self)
        ensures
            res.announce_value() == self.announce_value(),
            res.info_value() == self.info_value(),
    {
        proof {
            use_type_invariant(self);
        }
        Torrent { announce: self.announce.clone(), info: self.info.clone() }
    }
}

/// The length and the piece length of a torrent read back every integer
/// from zero up to `u32::MAX` that its `info` dictionary holds for them.
pub proof fn law_torrent_lengths_read_back(t: Torrent, length: int, piece_length: int)
    requires
        lookup_ok(t.info_value(), encode_utf8("length"@)),
        lookup(t.info_value(), encode_utf8("length"@)) == BValue::Int(length),
        0 <= length <= u32::MAX,
        lookup_ok(t.info_value(), encode_utf8("piece length"@)),
        lookup(t.info_value(), encode_utf8("piece length"@)) == BValue::Int(piece_length),
        0 <= piece_length <= u32::MAX,
    ensures
        t.length_spec() == Some(length),
        t.piece_length_spec() == Some(piece_length),
{
    law_u32_field_reads_integers(t.info_value(), encode_utf8("length"@), length);
    law_u32_field_reads_integers(t.info_value(), encode_utf8("piece length"@), piece_length);
}

/// The piece hashes `0` up to `n`, one after another.
pub open spec fn joined_chunks(s: Seq<u8>, n: int) -> Seq<u8>
    decreases n,
{
    if n <= 0 {
        seq![]
    } else {
        joined_chunks(s, n - 1) + piece_chunk(s, n - 1)
    }
}

proof fn lemma_joined_chunks(s: Seq<u8>, n: int)
    requires
        0 <= n <= piece_count(s),
    ensures
        joined_chunks(s, n) == s.subrange(0, if 20 * n <= s.len() { 20 * n } else { s.len() as int }),
    decreases n,
{
    if n > 0 {
        lemma_joined_chunks(s, n - 1);
        assert(20 * (n - 1) < s.len());
        assert(joined_chunks(s, n) =~= s.subrange(
            0,
            if 20 * n <= s.len() {
                20 * n
            } else {
                s.len() as int
            },
        ));
    } else {
        assert(s.subrange(0, 0) =~= Seq::<u8>::empty());
    }
}

/// The piece hashes tile the `pieces` string: every one but the last is
/// twenty bytes long, and one after another, in index order, they give the
/// string back.
pub proof fn law_piece_chunks_tile(s: Seq<u8>)
    ensures
        joined_chunks(s, piece_count(s)) == s,
        forall|i: int| 0 <= i < piece_count(s) - 1 ==> #[trigger] piece_chunk(s, i).len() == 20,
        forall|i: int| 0 <= i < piece_count(s) ==> #[trigger] piece_chunk(s, i).len() > 0,
{
    lemma_joined_chunks(s, piece_count(s));
    assert(s.subrange(0, s.len() as int) =~= s);
}

/// The lines that `print` shows after its heading are the piece hashes in
/// index order: line `5 + i` is the hexadecimal of bytes `20 * i` up to
/// `20 * i + 20` (or the end) of `pieces`, and there is one line for every
/// twenty bytes begun.
pub proof fn law_print_lines_in_order(t: Torrent, lines: Seq<String>)
    requires
        t.lines_are(lines),
    ensures
        lines.len() == 5 + (t.pieces_spec().len() + 19) / 20,
        forall|i: int|
            #![trigger lines[5 + i]]
            0 <= i < (t.pieces_spec().len() + 19) / 20 ==> lines[5 + i]@ == hex_lower(
                t.pieces_spec().subrange(
                    20 * i,
                    if 20 * i + 20 <= t.pieces_spec().len() {
                        20 * i + 20
                    } else {
                        t.pieces_spec().len() as int
                    },
                ),
            ),
{
    assert forall|i: int| 0 <= i < (t.pieces_spec().len() + 19) / 20 implies #[trigger] lines[5
        + i]@ == hex_lower(
        t.pieces_spec().subrange(
            20 * i,
            if 20 * i + 20 <= t.pieces_spec().len() {
                20 * i + 20
            } else {
                t.pieces_spec().len() as int
            },
        ),
    ) by {
        assert(0 <= i < piece_count(t.pieces_spec()));
    }
}

} // verus!
