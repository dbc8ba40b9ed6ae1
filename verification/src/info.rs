//! A torrent file's dictionary held as a `DataValue`, and what is shown of it.
use vstd::prelude::*;
use vstd::utf8::{decode_utf8, encode_utf8};
use crate::boundary::{hex_encode, hex_lower, sha1, sha1_digest};
use crate::data::DataValue;
use crate::model::{
    data_display, data_display_ok, encode, lookup, lookup_ok, sorted_deep, str_bytes, BValue,
};
use crate::ordering::lemma_lookup_sorted_deep;
use crate::torrent::{piece_chunk, piece_count};

verus! {

/// The torrent file's dictionary.
pub struct Info {
    data: DataValue,
}

/// The hash lines that `print` writes for the concatenated piece hashes:
/// one per twenty bytes, and a single empty line when there are none.
pub open spec fn hash_line_count(s: Seq<u8>) -> int {
    if s.len() == 0 {
        1
    } else {
        piece_count(s)
    }
}

/// The hash lines of a `pieces` string: one per twenty bytes begun, in
/// order, and one empty line when the string is empty.
pub open spec fn hash_lines_are(s: Seq<u8>, res: Seq<String>) -> bool {
    &&& res.len() == hash_line_count(s)
    &&& forall|i: int| 0 <= i < res.len() ==> #[trigger] res[i]@ == hex_lower(piece_chunk(s, i))
}

/// The hash lines are the hexadecimal of the `pieces` string taken twenty
/// bytes at a time, in order; an empty string gives a single empty line.
pub proof fn law_hash_lines_in_order(s: Seq<u8>, res: Seq<String>)
    requires
        hash_lines_are(s, res),
    ensures
        s.len() == 0 ==> res.len() == 1 && res[0]@ == Seq::<char>::empty(),
        s.len() > 0 ==> res.len() == (s.len() + 19) / 20,
        forall|i: int|
            #![trigger res[i]]
            0 < s.len() && 0 <= i < res.len() ==> res[i]@ == hex_lower(
                s.subrange(20 * i, if 20 * i + 20 <= s.len() { 20 * i + 20 } else { s.len() as int }),
            ),
{
    if s.len() == 0 {
        assert(piece_chunk(s, 0) =~= Seq::<u8>::empty());
        assert(res[0]@ == hex_lower(piece_chunk(s, 0)));
    }
    assert forall|i: int| 0 < s.len() && 0 <= i < res.len() implies #[trigger] res[i]@ == hex_lower(
        s.subrange(20 * i, if 20 * i + 20 <= s.len() { 20 * i + 20 } else { s.len() as int }),
    ) by {
        assert(res[i]@ == hex_lower(piece_chunk(s, i)));
    }
}

impl Info {
    /// The dictionary keeps its dictionaries in key order, as a decoded one does.
    #[verifier::type_invariant]
    spec fn keys_in_order(self) -> bool {
        sorted_deep(self.data@)
    }

    pub closed spec fn data_value(self) -> BValue {
        self.data@
    }

    /// The `info` dictionary.
    pub open spec fn info_value(self) -> BValue {
        lookup(self.data_value(), encode_utf8("info"@))
    }

    /// Holds a copy of the torrent file's dictionary.
    pub fn from(data: &DataValue) -> (res: Self)
        requires
            sorted_deep(data@),
        ensures
            res.data_value() == data@,
    {
        Info { data: data.clone() }
    }

    /// The SHA-1 digest of the bencoded `info` dictionary.
    pub fn info_hash(&self) -> (res: Vec<u8>)
        requires
            lookup_ok(self.data_value(), encode_utf8("info"@)),
        ensures
            res@ == sha1_digest(encode(self.info_value())),
            res@.len() == 20,
    {
        proof {
            use_type_invariant(self);
            lemma_lookup_sorted_deep(self.data@, encode_utf8("info"@));
        }
        let info = self.data.get("info");
        let encoded = info.encode();
        sha1(encoded.as_slice())
    }

    /// What `Display` writes for the `length` entry of `info`.
    pub fn length(&self) -> (res: String)
        requires
            lookup_ok(self.data_value(), encode_utf8("info"@)),
            lookup_ok(self.info_value(), encode_utf8("length"@)),
            data_display_ok(lookup(self.info_value(), encode_utf8("length"@))),
        ensures
            res@ == decode_utf8(data_display(lookup(self.info_value(), encode_utf8("length"@)))),
    {
        let info = self.data.get("info");
        info.get("length").to_string()
    }

    /// The piece hashes in lowercase hexadecimal as `print` lists them: one
    /// line per twenty bytes of `pieces`, or one empty line when it is empty.
    pub fn piece_hash_lines(&self) -> (res: Vec<String>)
        requires
            lookup_ok(self.data_value(), encode_utf8("info"@)),
            lookup_ok(self.info_value(), encode_utf8("pieces"@)),
        ensures
            ({
                let s = str_bytes(lookup(self.info_value(), encode_utf8("pieces"@)));
                &&& res@.len() == hash_line_count(s)
                &&& forall|i: int|
                    0 <= i < res@.len() ==> #[trigger] res@[i]@ == hex_lower(piece_chunk(s, i))
            }),
            hash_lines_are(str_bytes(lookup(self.info_value(), encode_utf8("pieces"@))), res@),
    {
        let info = self.data.get("info");
        let field = info.get("pieces");
        let pieces: &[u8] = match field {
            DataValue::String(bytes) => bytes.as_slice(),
            _ => &[],
        };
        let ghost s = str_bytes(lookup(self.info_value(), encode_utf8("pieces"@)));
        assert(pieces@ == s);
        let mut lines: Vec<String> = Vec::new();
        if pieces.len() == 0 {
            assert(piece_chunk(s, 0) =~= Seq::<u8>::empty());
            lines.push(hex_encode(pieces));
            return lines;
        }
        let mut start: usize = 0;
        while start < pieces.len()
            invariant
                pieces@ == s,
                start <= pieces@.len(),
                start == if 20 * lines@.len() <= pieces@.len() {
                    20 * lines@.len() as int
                } else {
                    pieces@.len() as int
                },
                20 * lines@.len() < pieces@.len() + 20,
                forall|i: int|
                    0 <= i < lines@.len() ==> #[trigger] lines@[i]@ == hex_lower(
                        piece_chunk(pieces@, i),
                    ),
            decreases pieces@.len() - start,
        {
            let end = if pieces.len() - start > 20 {
                start + 20
            } else {
                pieces.len()
            };
            let ghost k = lines@.len() as int;
            let chunk = &pieces[start..end];
            assert(chunk@ =~= piece_chunk(pieces@, k));
            lines.push(hex_encode(chunk));
            start = end;
        }
        lines
    }
}

impl Info {
    /// What `print` needs: `announce`, and `length`, `piece length` and
    /// `pieces` in `info`, the first three with text that `Display` can write.
    pub open spec fn printable(self) -> bool {
        &&& lookup_ok(self.data_value(), encode_utf8("announce"@))
        &&& data_display_ok(lookup(self.data_value(), encode_utf8("announce"@)))
        &&& lookup_ok(self.data_value(), encode_utf8("info"@))
        &&& lookup_ok(self.info_value(), encode_utf8("length"@))
        &&& data_display_ok(lookup(self.info_value(), encode_utf8("length"@)))
        &&& lookup_ok(self.info_value(), encode_utf8("piece length"@))
        &&& data_display_ok(lookup(self.info_value(), encode_utf8("piece length"@)))
        &&& lookup_ok(self.info_value(), encode_utf8("pieces"@))
    }

    /// What `print_lines` states of its lines.
    pub open spec fn lines_are(self, res: Seq<String>) -> bool {
        let s = str_bytes(lookup(self.info_value(), encode_utf8("pieces"@)));
        &&& res.len() == 5 + hash_line_count(s)
        &&& res[0]@ == "Tracker URL: "@ + decode_utf8(
            data_display(lookup(self.data_value(), encode_utf8("announce"@))),
        )
        &&& res[1]@ == "Length: "@ + decode_utf8(
            data_display(lookup(self.info_value(), encode_utf8("length"@))),
        )
        &&& res[2]@ == "Info Hash: "@ + hex_lower(sha1_digest(encode(self.info_value())))
        &&& res[3]@ == "Piece Length: "@ + decode_utf8(
            data_display(lookup(self.info_value(), encode_utf8("piece length"@))),
        )
        &&& res[4]@ == "Piece Hashes:"@
        &&& forall|i: int|
            0 <= i < hash_line_count(s) ==> #[trigger] res[5 + i]@ == hex_lower(piece_chunk(s, i))
    }

    /// The lines that `print` shows: the tracker URL, the length, the info
    /// hash, the piece length, a heading, then the piece hash lines; `None`
    /// where `print` would panic.
    pub fn print_lines(&self) -> (res: Option<Vec<String>>)
        ensures
            res is Some <==> self.printable(),
            res matches Some(lines) ==> self.lines_are(lines@),
    {
        let announce = match self.data.try_get("announce") {
            Some(a) => a,
            None => {
                return None;
            },
        };
        let info = match self.data.try_get("info") {
            Some(i) => i,
            None => {
                return None;
            },
        };
        let length = match info.try_get("length") {
            Some(l) => l,
            None => {
                return None;
            },
        };
        let piece_length = match info.try_get("piece length") {
            Some(l) => l,
            None => {
                return None;
            },
        };
        if announce.try_to_string().is_none() || length.try_to_string().is_none()
            || piece_length.try_to_string().is_none() || info.try_get("pieces").is_none() {
            return None;
        }
        Some(self.print_lines_checked())
    }

    fn print_lines_checked(&self) -> (res: Vec<String>)
        requires
            self.printable(),
        ensures
            self.lines_are(res@),
    {
        let info = self.data.get("info");
        let mut lines: Vec<String> = Vec::new();
        let mut line = "Tracker URL: ".to_owned();
        line.append(self.data.get("announce").to_string().as_str());
        lines.push(line);
        let mut line = "Length: ".to_owned();
        line.append(self.length().as_str());
        lines.push(line);
        let mut line = "Info Hash: ".to_owned();
        line.append(hex_encode(self.info_hash().as_slice()).as_str());
        lines.push(line);
        let mut line = "Piece Length: ".to_owned();
        line.append(info.get("piece length").to_string().as_str());
        lines.push(line);
        lines.push("Piece Hashes:".to_owned());
        let hashes = self.piece_hash_lines();
        let ghost head = lines@;
        let mut i: usize = 0;
        while i < hashes.len()
            invariant
                i <= hashes@.len(),
                lines@.len() == 5 + i,
                head.len() == 5,
                forall|j: int| 0 <= j < 5 ==> #[trigger] lines@[j] == head[j],
                forall|j: int| 0 <= j < i ==> #[trigger] lines@[5 + j] == hashes@[j],
            decreases hashes@.len() - i,
        {
            lines.push(hashes[i].clone());
            i = i + 1;
        }
        lines
    }
}

/// The lines that `print` shows after its heading are the hash lines of
/// `pieces` in index order.
pub proof fn law_info_print_lines_in_order(t: Info, lines: Seq<String>)
    requires
        t.lines_are(lines),
    ensures
        hash_lines_are(
            str_bytes(lookup(t.info_value(), encode_utf8("pieces"@))),
            lines.subrange(5, lines.len() as int),
        ),
{
    let s = str_bytes(lookup(t.info_value(), encode_utf8("pieces"@)));
    let tail = lines.subrange(5, lines.len() as int);
    assert forall|i: int| 0 <= i < tail.len() implies #[trigger] tail[i]@ == hex_lower(
        piece_chunk(s, i),
    ) by {
        assert(tail[i] == lines[5 + i]);
    }
}

} // verus!
