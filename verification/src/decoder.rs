//! Decoding bencoded bytes into `Bencode` values.
use vstd::prelude::*;
use vstd::utf8::{decode_utf8, decode_utf8_encode_utf8, encode_utf8, valid_utf8};
use crate::bencode::{key_bytes, lemma_model_entries, lemma_model_list, model_entries, model_list, Bencode};
use crate::digits::{is_digit, parse_isize_range, parse_unsigned_range};
use crate::grammar::{
    decode_spec, dict_fold, find_byte, lemma_find_byte, lemma_parse_advances, parse_integer,
    parse_items, parse_string, parse_value,
};
use crate::model::{
    bytes_lt, dict_insert, display, display_ok, key_text, lemma_display_valid, lemma_wf_entries_all,
    lemma_wf_list_all, sorted_deep, wf, wf_entry, BValue,
};
use crate::ordering::{lemma_dict_fold_sorted, lemma_dict_insert_entries, lemma_wf_sorted_deep};

verus! {

/// The first position at or after `from` that holds `c`, or the length.
pub(crate) fn find(b: &[u8], from: usize, c: u8) -> (r: usize)
    requires
        from <= b@.len(),
    ensures
        r == find_byte(b@, from as int, c),
{
    let mut i = from;
    while i < b.len() && b[i] != c
        invariant
            from <= i <= b@.len(),
            find_byte(b@, from as int, c) == find_byte(b@, i as int, c),
        decreases b@.len() - i,
    {
        i = i + 1;
    }
    i
}

/// A copy of `b[from..to]`.
pub(crate) fn copy_range(b: &[u8], from: usize, to: usize) -> (res: Vec<u8>)
    requires
        from <= to <= b@.len(),
    ensures
        res@ == b@.subrange(from as int, to as int),
{
    let mut out: Vec<u8> = Vec::new();
    let mut i = from;
    while i < to
        invariant
            from <= i <= to <= b@.len(),
            out@ == b@.subrange(from as int, i as int),
        decreases to - i,
    {
        out.push(b[i]);
        i = i + 1;
        assert(out@ =~= b@.subrange(from as int, i as int));
    }
    out
}

/// An integer whose digits start at `pos` (just after the `i`).
fn integer(b: &[u8], pos: usize) -> (res: Option<(Bencode, usize)>)
    requires
        pos <= b@.len(),
    ensures
        match res {
            Some((v, q)) => parse_integer(b@, pos as int) == Some((v@, q as int)),
            None => parse_integer(b@, pos as int) is None,
        },
        res matches Some((v, q)) ==> wf(v@),
{
    let q = find(b, pos, 101u8);
    proof {
        lemma_find_byte(b@, pos as int, 101u8);
    }
    let next = if q < b.len() {
        q + 1
    } else {
        q
    };
    match parse_isize_range(b, pos, q) {
        Some(n) => Some((Bencode::Integer(n), next)),
        None => None,
    }
}

/// A string whose length starts at `pos`.
fn string(b: &[u8], pos: usize) -> (res: Option<(Bencode, usize)>)
    requires
        pos <= b@.len(),
    ensures
        match res {
            Some((v, q)) => parse_string(b@, pos as int) == Some((v@, q as int)),
            None => parse_string(b@, pos as int) is None,
        },
        res matches Some((v, q)) ==> wf(v@),
{
    let q = find(b, pos, 58u8);
    proof {
        lemma_find_byte(b@, pos as int, 58u8);
    }
    let after = if q < b.len() {
        q + 1
    } else {
        q
    };
    match parse_unsigned_range(b, pos, q, usize::MAX as u64) {
        Some(n) => {
            if n > (b.len() - after) as u64 {
                return None;
            }
            let n = n as usize;
            let bytes = copy_range(b, after, after + n);
            Some((Bencode::String(bytes), after + n))
        },
        None => None,
    }
}

/// The values from `pos` up to the closing `e`, and the position after it.
fn items(b: &[u8], pos: usize) -> (res: Option<(Vec<Bencode>, usize)>)
    requires
        pos <= b@.len(),
    ensures
        match res {
            Some((vs, e)) => parse_items(b@, pos as int) == Some((model_list(vs@), e as int)),
            None => parse_items(b@, pos as int) is None,
        },
        res matches Some((vs, e)) ==> forall|i: int| 0 <= i < vs@.len() ==> wf(#[trigger] vs@[i]@),
    decreases b@.len() - pos, 1usize,
{
    let mut out: Vec<Bencode> = Vec::new();
    let mut p = pos;
    loop
        invariant
            pos <= p <= b@.len(),
            parse_items(b@, pos as int) == match parse_items(b@, p as int) {
                Some((vs, e)) => Some((model_list(out@) + vs, e)),
                None => None,
            },
            forall|i: int| 0 <= i < out@.len() ==> wf(#[trigger] out@[i]@),
        decreases b@.len() - p,
    {
        if p >= b.len() {
            return None;
        }
        if b[p] == 101u8 {
            assert(model_list(out@) + seq![] =~= model_list(out@));
            return Some((out, p + 1));
        }
        match decode_at(b, p) {
            None => {
                return None;
            },
            Some((v, q)) => {
                proof {
                    lemma_parse_advances(b@, p as int, false);
                    let pushed = out@.push(v);
                    assert(pushed.subrange(0, pushed.len() - 1) =~= out@);
                    assert(pushed[pushed.len() - 1] == v);
                    match parse_items(b@, q as int) {
                        Some((vs, e)) => {
                            assert(model_list(pushed) + vs =~= model_list(out@) + (seq![v@] + vs));
                        },
                        None => {},
                    }
                }
                out.push(v);
                p = q;
            },
        }
    }
}

/// A list whose items start at `pos` (just after the `l`), and the position
/// after its closing `e`. For items that are encodings of well-formed values
/// one after another, the items come back in order and reading stops right
/// after the first `e` that closes them (`law_items_encode`).
pub fn list(b: &[u8], pos: usize) -> (res: Option<(Bencode, usize)>)
    requires
        pos <= b@.len(),
    ensures
        match res {
            Some((v, q)) => match parse_items(b@, pos as int) {
                Some((vs, e)) => v@ == BValue::List(vs) && q == e,
                None => false,
            },
            None => parse_items(b@, pos as int) is None,
        },
        res matches Some((v, q)) ==> wf(v@),
    decreases b@.len() - pos, 2usize,
{
    match items(b, pos) {
        Some((values, e)) => {
            proof {
                lemma_model_list(values@);
                lemma_wf_list_all(model_list(values@));
                assert forall|i: int| 0 <= i < values@.len() implies wf(
                    #[trigger] model_list(values@)[i],
                ) by {
                    assert(wf(values@[i]@));
                }
            }
            Some((Bencode::List(values), e))
        },
        None => None,
    }
}

/// The key that the decoder makes of an item: a string's text, else what
/// `Display` writes for the item.
fn key_string(v: &Bencode) -> (res: Option<String>)
    ensures
        match res {
            Some(k) => key_text(v@) == Some(key_bytes(k)),
            None => key_text(v@) is None,
        },
{
    match v {
        Bencode::String(bytes) => {
            match crate::boundary::str_from_utf8(bytes.as_slice()) {
                Some(s) => {
                    proof {
                        decode_utf8_encode_utf8(bytes@);
                    }
                    Some(s.to_owned())
                },
                None => None,
            }
        },
        _ => {
            let mut out: Vec<u8> = Vec::new();
            if !v.display_into(&mut out) {
                return None;
            }
            proof {
                lemma_display_valid(v@);
                decode_utf8_encode_utf8(display(v@));
                assert(out@ =~= display(v@));
            }
            match crate::boundary::str_from_utf8(out.as_slice()) {
                Some(s) => Some(s.to_owned()),
                None => None,
            }
        },
    }
}

/// `BTreeMap::insert` on a vector of entries held in increasing key order.
fn insert_entry(entries: &mut Vec<(String, Bencode)>, key: String, value: Bencode)
    ensures
        model_entries(final(entries)@) == dict_insert(
            model_entries(old(entries)@),
            key_bytes(key),
            value@,
        ),
        (forall|j: int|
            0 <= j < old(entries)@.len() ==> wf_entry(#[trigger] model_entries(old(entries)@)[j]))
            && wf(value@) ==> forall|j: int|
            0 <= j < final(entries)@.len() ==> wf_entry(#[trigger] model_entries(final(entries)@)[j]),
{
    let ghost k = key_bytes(key);
    let ghost v = value@;
    let ghost es = model_entries(entries@);
    let wanted = key.as_str().as_bytes();
    proof {
        lemma_model_entries(entries@);
        vstd::utf8::encode_utf8_valid_utf8(key@);
        assert(wanted@.len() == wanted.len());
        lemma_dict_insert_entries(es, k, v);
        let r = dict_insert(es, k, v);
        if (forall|j: int| 0 <= j < es.len() ==> wf_entry(#[trigger] es[j])) && wf(v) {
            assert forall|i: int| 0 <= i < r.len() implies wf_entry(#[trigger] r[i]) by {
                if r[i] != (k, v) {
                    let j = choose|j: int| 0 <= j < es.len() && es[j] == r[i];
                    assert(wf_entry(es[j]));
                }
            }
        }
    }
    assert(es.subrange(0, 0) =~= Seq::<(Seq<u8>, BValue)>::empty());
    assert(es.subrange(0, es.len() as int) =~= es);
    let mut i: usize = 0;
    while i < entries.len()
        invariant
            entries@ == old(entries)@,
            es == model_entries(entries@),
            es.len() == entries@.len(),
            forall|j: int|
                0 <= j < entries@.len() ==> #[trigger] es[j] == (
                    key_bytes(entries@[j].0),
                    entries@[j].1.model(),
                ),
            i <= entries@.len(),
            k == key_bytes(key),
            v == value@,
            wanted@ == k,
            (forall|j: int| 0 <= j < es.len() ==> wf_entry(#[trigger] es[j])) && wf(v) ==> forall|
                j: int,
            |
                0 <= j < dict_insert(es, k, v).len() ==> wf_entry(
                    #[trigger] dict_insert(es, k, v)[j],
                ),
            dict_insert(es, k, v) == es.subrange(0, i as int) + dict_insert(
                es.subrange(i as int, es.len() as int),
                k,
                v,
            ),
        decreases entries@.len() - i,
    {
        let ghost rest = es.subrange(i as int, es.len() as int);
        assert(rest[0] == es[i as int]);
        let existing = entries[i].0.as_str().as_bytes();
        if crate::bencode::bytes_equal(existing, wanted) {
            let _ = entries.remove(i);
            entries.insert(i, (key, value));
            proof {
                lemma_model_entries(entries@);
                assert(model_entries(entries@) =~= es.subrange(0, i as int) + (seq![(k, v)]
                    + rest.drop_first()));
            }
            return;
        }
        if crate::ordering::bytes_less(wanted, existing) {
            entries.insert(i, (key, value));
            proof {
                lemma_model_entries(entries@);
                assert(model_entries(entries@) =~= es.subrange(0, i as int) + (seq![(k, v)]
                    + rest));
            }
            return;
        }
        proof {
            assert(rest.drop_first() =~= es.subrange(i + 1, es.len() as int));
            assert(es.subrange(0, i + 1) =~= es.subrange(0, i as int) + seq![es[i as int]]);
        }
        i = i + 1;
    }
    entries.push((key, value));
    proof {
        lemma_model_entries(entries@);
        assert(es.subrange(i as int, es.len() as int) =~= Seq::<(Seq<u8>, BValue)>::empty());
        assert(es.subrange(0, i as int) =~= es);
        assert(model_entries(entries@) =~= es + seq![(k, v)]);
    }
}

/// A dictionary whose items start at `pos` (just after the `d`): the items
/// are read as for a list, then taken in (key, value) pairs from the end.
fn dictionary(b: &[u8], pos: usize) -> (res: Option<(Bencode, usize)>)
    requires
        pos <= b@.len(),
    ensures
        match res {
            Some((v, q)) => match parse_items(b@, pos as int) {
                Some((vs, e)) => match dict_fold(vs, seq![]) {
                    Some(es) => v@ == BValue::Dict(es) && q == e,
                    None => false,
                },
                None => false,
            },
            None => match parse_items(b@, pos as int) {
                Some((vs, e)) => dict_fold(vs, seq![]) is None,
                None => true,
            },
        },
        res matches Some((v, q)) ==> wf(v@),
    decreases b@.len() - pos, 2usize,
{
    let (mut list, e) = match items(b, pos) {
        Some(r) => r,
        None => {
            return None;
        },
    };
    let ghost all = model_list(list@);
    let mut map: Vec<(String, Bencode)> = Vec::new();
    assert(model_entries(map@) =~= Seq::<(Seq<u8>, BValue)>::empty());
    while list.len() >= 2
        invariant
            parse_items(b@, pos as int) == Some((all, e as int)),
            dict_fold(all, seq![]) == dict_fold(model_list(list@), model_entries(map@)),
            forall|i: int| 0 <= i < list@.len() ==> wf(#[trigger] list@[i]@),
            forall|j: int|
                0 <= j < map@.len() ==> wf_entry(#[trigger] model_entries(map@)[j]),
        decreases list@.len(),
    {
        let ghost before = list@;
        proof {
            lemma_model_list(list@);
        }
        let value = list.pop().unwrap();
        let key = list.pop().unwrap();
        let ghost n = before.len() as int;
        proof {
            lemma_model_list(list@);
            assert(model_list(before).subrange(0, n - 2) =~= model_list(list@));
            assert(model_list(before)[n - 2] == key@);
            assert(model_list(before)[n - 1] == value@);
            assert(wf(before[n - 1]@));
            assert forall|i: int| 0 <= i < list@.len() implies wf(#[trigger] list@[i]@) by {
                assert(list@[i] == before[i]);
            }
        }
        match key_string(&key) {
            Some(k) => {
                insert_entry(&mut map, k, value);
            },
            None => {
                assert(dict_fold(model_list(before), model_entries(map@)) is None);
                return None;
            },
        }
    }
    proof {
        lemma_model_list(list@);
        lemma_model_entries(map@);
        lemma_dict_fold_sorted(all, seq![], false);
        lemma_wf_entries_all(model_entries(map@));
    }
    Some((Bencode::Dictionary(map), e))
}

/// The value that starts at `pos`, and the position after it.
fn decode_at(b: &[u8], pos: usize) -> (res: Option<(Bencode, usize)>)
    requires
        pos <= b@.len(),
    ensures
        match res {
            Some((v, q)) => parse_value(b@, pos as int) == Some((v@, q as int)),
            None => parse_value(b@, pos as int) is None,
        },
        res matches Some((v, q)) ==> wf(v@),
    decreases b@.len() - pos, 0usize,
{
    if pos >= b.len() {
        return None;
    }
    let first = b[pos];
    if first == 100u8 {
        dictionary(b, pos + 1)
    } else if first == 108u8 {
        list(b, pos + 1)
    } else if first == 105u8 {
        integer(b, pos + 1)
    } else if 48u8 <= first && first <= 57u8 {
        string(b, pos)
    } else {
        None
    }
}

/// Decodes the value at the start of `bytes`; also returns the bytes after it.
pub fn decode(bytes: Vec<u8>) -> (res: (Bencode, Vec<u8>))
    requires
        decode_spec(bytes@) is Some,
    ensures
        decode_spec(bytes@) == Some((res.0@, res.1@)),
        wf(res.0@),
        sorted_deep(res.0@),
{
    match try_decode(bytes.as_slice()) {
        Some(r) => r,
        None => {
            assert(false);
            (Bencode::Integer(0), Vec::new())
        },
    }
}

/// Decodes the value at the start of `bytes`, or `None` where `decode` would
/// panic. What it gives back is well-formed, so that encoding it and
/// decoding the result gives it back again.
pub fn try_decode(bytes: &[u8]) -> (res: Option<(Bencode, Vec<u8>)>)
    ensures
        match res {
            Some((v, rest)) => decode_spec(bytes@) == Some((v@, rest@)),
            None => decode_spec(bytes@) is None,
        },
        res matches Some((v, rest)) ==> wf(v@) && sorted_deep(v@),
{
    match decode_at(bytes, 0) {
        Some((v, q)) => {
            proof {
                lemma_parse_advances(bytes@, 0, false);
                lemma_wf_sorted_deep(v@, false);
            }
            let rest = copy_range(bytes, q, bytes.len());
            Some((v, rest))
        },
        None => None,
    }
}

} // verus!
