//! What the decoder reads: the value that starts at a position of a byte
//! sequence and the position just after it, or `None` where decoding panics.
use vstd::prelude::*;
use crate::digits::{is_digit, lemma_digits_value_nonneg, parse_bounded, parse_isize};
use crate::model::{data_display, dict_insert, key_text, BValue};
use vstd::utf8::valid_utf8;

verus! {

/// The first position at or after `from` that holds `c`, or the length when there is none.
pub open spec fn find_byte(b: Seq<u8>, from: int, c: u8) -> int
    decreases b.len() - from,
{
    if from < 0 || from >= b.len() {
        b.len() as int
    } else if b[from] == c {
        from
    } else {
        find_byte(b, from + 1, c)
    }
}

/// An integer whose digits start at `p`: everything up to the first `e`
/// (or to the end) must read as an `isize`, or, for `DataValue`s
/// (`unsigned`), as a `usize`.
pub open spec fn parse_integer_in(b: Seq<u8>, p: int, unsigned: bool) -> Option<(BValue, int)> {
    let q = find_byte(b, p, 101u8);
    let next = if q < b.len() {
        q + 1
    } else {
        q
    };
    let n = if unsigned {
        parse_bounded(b.subrange(p, q), usize::MAX as int)
    } else {
        parse_isize(b.subrange(p, q))
    };
    match n {
        Some(n) => Some((BValue::Int(n), next)),
        None => None,
    }
}

/// An integer of a `Bencode` value.
pub open spec fn parse_integer(b: Seq<u8>, p: int) -> Option<(BValue, int)> {
    parse_integer_in(b, p, false)
}

/// A string whose length starts at `p`: everything up to the first `:`
/// (or to the end) must read as a `usize`, and that many bytes must follow.
pub open spec fn parse_string(b: Seq<u8>, p: int) -> Option<(BValue, int)> {
    let q = find_byte(b, p, 58u8);
    let after = if q < b.len() {
        q + 1
    } else {
        q
    };
    match parse_bounded(b.subrange(p, q), usize::MAX as int) {
        Some(n) => if after + n <= b.len() {
            Some((BValue::Str(b.subrange(after, after + n)), after + n))
        } else {
            None
        },
        None => None,
    }
}

/// The value that starts at `p`, and the position after it; `unsigned`
/// reads integers as `DataValue` does.
pub open spec fn parse_value_in(b: Seq<u8>, p: int, unsigned: bool) -> Option<(BValue, int)>
    decreases b.len() - p, 0int,
{
    if p < 0 || p >= b.len() {
        None
    } else if b[p] == 100u8 {
        match parse_items_in(b, p + 1, unsigned) {
            Some((items, e)) => match dict_fold_in(items, seq![], unsigned) {
                Some(es) => Some((BValue::Dict(es), e)),
                None => None,
            },
            None => None,
        }
    } else if b[p] == 108u8 {
        match parse_items_in(b, p + 1, unsigned) {
            Some((items, e)) => Some((BValue::List(items), e)),
            None => None,
        }
    } else if b[p] == 105u8 {
        parse_integer_in(b, p + 1, unsigned)
    } else if is_digit(b[p]) {
        parse_string(b, p)
    } else {
        None
    }
}

/// The values from `p` up to the closing `e`, and the position after the `e`.
pub open spec fn parse_items_in(b: Seq<u8>, p: int, unsigned: bool) -> Option<(Seq<BValue>, int)>
    decreases b.len() - p, 1int,
{
    if p < 0 || p >= b.len() {
        None
    } else if b[p] == 101u8 {
        Some((seq![], p + 1))
    } else {
        match parse_value_in(b, p, unsigned) {
            Some((v, q)) => if p < q <= b.len() {
                match parse_items_in(b, q, unsigned) {
                    Some((vs, e)) => Some((seq![v] + vs, e)),
                    None => None,
                }
            } else {
                None
            },
            None => None,
        }
    }
}

/// The value of a `Bencode` that starts at `p`, and the position after it.
pub open spec fn parse_value(b: Seq<u8>, p: int) -> Option<(BValue, int)> {
    parse_value_in(b, p, false)
}

/// The items of a `Bencode` list or dictionary from `p` on.
pub open spec fn parse_items(b: Seq<u8>, p: int) -> Option<(Seq<BValue>, int)> {
    parse_items_in(b, p, false)
}

/// The dictionary key that decoding a `DataValue` makes of an item: a
/// string's own text, else what `DataValue`'s `Display` writes.
pub open spec fn data_key_text(v: BValue) -> Option<Seq<u8>> {
    match v {
        BValue::Str(s) => if valid_utf8(s) {
            Some(s)
        } else {
            None
        },
        _ => Some(data_display(v)),
    }
}

/// The dictionary key made of an item: as for `Bencode`, or for `DataValue`.
pub open spec fn key_text_in(v: BValue, unsigned: bool) -> Option<Seq<u8>> {
    if unsigned {
        data_key_text(v)
    } else {
        key_text(v)
    }
}

/// The dictionary that the decoder builds from the items between `d` and `e`:
/// it takes (key, value) pairs from the end and inserts each into the map, so
/// that an earlier pair wins over a later one with the same key; with an odd
/// number of items the first one is left out.
pub open spec fn dict_fold_in(
    items: Seq<BValue>,
    acc: Seq<(Seq<u8>, BValue)>,
    unsigned: bool,
) -> Option<Seq<(Seq<u8>, BValue)>>
    decreases items.len(),
{
    if items.len() < 2 {
        Some(acc)
    } else {
        let n = items.len() as int;
        match key_text_in(items[n - 2], unsigned) {
            Some(k) => dict_fold_in(
                items.subrange(0, n - 2),
                dict_insert(acc, k, items[n - 1]),
                unsigned,
            ),
            None => None,
        }
    }
}

pub open spec fn dict_fold(items: Seq<BValue>, acc: Seq<(Seq<u8>, BValue)>) -> Option<
    Seq<(Seq<u8>, BValue)>,
> {
    dict_fold_in(items, acc, false)
}

/// What `decode` returns for a whole byte sequence: the value at its start
/// and the bytes after it.
pub open spec fn decode_spec_in(b: Seq<u8>, unsigned: bool) -> Option<(BValue, Seq<u8>)> {
    match parse_value_in(b, 0, unsigned) {
        Some((v, q)) => Some((v, b.subrange(q, b.len() as int))),
        None => None,
    }
}

/// What decoding a `Bencode` returns.
pub open spec fn decode_spec(b: Seq<u8>) -> Option<(BValue, Seq<u8>)> {
    decode_spec_in(b, false)
}

/// What decoding a `DataValue` returns: integers read as `usize`, and keys
/// that are not strings written as `DataValue` writes them.
pub open spec fn data_decode_spec(b: Seq<u8>) -> Option<(BValue, Seq<u8>)> {
    decode_spec_in(b, true)
}

pub proof fn lemma_find_byte(b: Seq<u8>, from: int, c: u8)
    requires
        0 <= from <= b.len(),
    ensures
        from <= find_byte(b, from, c) <= b.len(),
        find_byte(b, from, c) < b.len() ==> b[find_byte(b, from, c)] == c,
        forall|i: int| from <= i < find_byte(b, from, c) ==> b[i] != c,
    decreases b.len() - from,
{
    if from < b.len() && b[from] != c {
        lemma_find_byte(b, from + 1, c);
    }
}

/// The decoder always moves forward, and never past the end.
pub proof fn lemma_parse_advances(b: Seq<u8>, p: int, unsigned: bool)
    ensures
        parse_value_in(b, p, unsigned) matches Some((v, q)) ==> p < q <= b.len(),
        parse_items_in(b, p, unsigned) matches Some((vs, e)) ==> p < e <= b.len(),
    decreases b.len() - p,
{
    if 0 <= p < b.len() {
        if b[p] == 100u8 || b[p] == 108u8 {
            lemma_parse_advances(b, p + 1, unsigned);
        } else if b[p] == 105u8 {
            lemma_find_byte(b, p + 1, 101u8);
        } else if is_digit(b[p]) {
            lemma_find_byte(b, p, 58u8);
            if let Some(n) = parse_bounded(b.subrange(p, find_byte(b, p, 58u8)), usize::MAX as int) {
                let q = find_byte(b, p, 58u8);
                let t = b.subrange(p, q);
                if t.len() > 0 && t[0] != 43u8 {
                    lemma_digits_value_nonneg(t);
                } else if t.len() > 0 {
                    lemma_digits_value_nonneg(t.drop_first());
                }
            }
        }
        if b[p] != 101u8 {
            if let Some((v, q)) = parse_value_in(b, p, unsigned) {
                if p < q <= b.len() {
                    lemma_parse_advances(b, q, unsigned);
                }
            }
        }
    }
}

} // verus!
