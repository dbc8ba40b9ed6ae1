//! Decoding bencoded bytes into `DataValue`s: as for `Bencode` values,
//! except that integers are read as `usize` and a dictionary key that is not
//! a string is written as `DataValue`'s `Display` writes it.
use vstd::prelude::*;
use vstd::utf8::decode_utf8_encode_utf8;
use crate::bencode::key_bytes;
use crate::data::{data_entries, data_list, lemma_data_entries, lemma_data_list, DataValue};
use crate::decoder::{copy_range, find};
use crate::digits::parse_unsigned_range;
use crate::grammar::{
    data_decode_spec, data_key_text, dict_fold_in, lemma_find_byte, lemma_parse_advances,
    parse_integer_in, parse_items_in, parse_string, parse_value_in,
};
use crate::model::{
    data_display, dict_insert, lemma_data_display_valid, lemma_wf_entries_all_in,
    lemma_wf_list_all_in, sorted_deep, wf_entry_in, wf_in, BValue,
};
use crate::ordering::{lemma_dict_fold_sorted, lemma_dict_insert_entries, lemma_wf_sorted_deep};

verus! {

/// An integer whose digits start at `pos` (just after the `i`).
fn integer(b: &[u8], pos: usize) -> (res: Option<(DataValue, usize)>)
    requires
        pos <= b@.len(),
    ensures
        match res {
            Some((v, q)) => parse_integer_in(b@, pos as int, true) == Some((v@, q as int)),
            None => parse_integer_in(b@, pos as int, true) is None,
        },
        res matches Some((v, q)) ==> wf_in(v@, true),
{
    let q = find(b, pos, 101u8);
    proof {
        lemma_find_byte(b@, pos as int, 101u8);
    }
    let next = if q < b.len() {
        q + 1
    } else {
        q
    };
    assert(b@.subrange(pos as int, q as int).len() == q - pos);
    match parse_unsigned_range(b, pos, q, usize::MAX as u64) {
        Some(n) => Some((DataValue::Integer(n as usize), next)),
        None => None,
    }
}

/// A string whose length starts at `pos`.
fn string(b: &[u8], pos: usize) -> (res: Option<(DataValue, usize)>)
    requires
        pos <= b@.len(),
    ensures
        match res {
            Some((v, q)) => parse_string(b@, pos as int) == Some((v@, q as int)),
            None => parse_string(b@, pos as int) is None,
        },
        res matches Some((v, q)) ==> wf_in(v@, true),
{
    let q = find(b, pos, 58u8);
    proof {
        lemma_find_byte(b@, pos as int, 58u8);
    }
    let after = if q < b.len() {
        q + 1
    } else {
        q
    };
    match parse_unsigned_range(b, pos, q, usize::MAX as u64) {
        Some(n) => {
            if n > (b.len() - after) as u64 {
                return None;
            }
            let n = n as usize;
            let bytes = copy_range(b, after, after + n);
            Some((DataValue::String(bytes), after + n))
        },
        None => None,
    }
}

/// The values from `pos` up to the closing `e`, and the position after it.
fn items(b: &[u8], pos: usize) -> (res: Option<(Vec<DataValue>, usize)>)
    requires
        pos <= b@.len(),
    ensures
        match res {
            Some((vs, e)) => parse_items_in(b@, pos as int, true) == Some((data_list(vs@), e as int)),
            None => parse_items_in(b@, pos as int, true) is None,
        },
        res matches Some((vs, e)) ==> forall|i: int| 0 <= i < vs@.len() ==> wf_in(#[trigger] vs@[i]@, true),
    decreases b@.len() - pos, 1usize,
{
    let mut out: Vec<DataValue> = Vec::new();
    let mut p = pos;
    loop
        invariant
            pos <= p <= b@.len(),
            parse_items_in(b@, pos as int, true) == match parse_items_in(b@, p as int, true) {
                Some((vs, e)) => Some((data_list(out@) + vs, e)),
                None => None,
            },
            forall|i: int| 0 <= i < out@.len() ==> wf_in(#[trigger] out@[i]@, true),
        decreases b@.len() - p,
    {
        if p >= b.len() {
            return None;
        }
        if b[p] == 101u8 {
            assert(data_list(out@) + seq![] =~= data_list(out@));
            return Some((out, p + 1));
        }
        match decode_at(b, p) {
            None => {
                return None;
            },
            Some((v, q)) => {
                proof {
                    lemma_parse_advances(b@, p as int, true);
                    let pushed = out@.push(v);
                    assert(pushed.subrange(0, pushed.len() - 1) =~= out@);
                    assert(pushed[pushed.len() - 1] == v);
                    match parse_items_in(b@, q as int, true) {
                        Some((vs, e)) => {
                            assert(data_list(pushed) + vs =~= data_list(out@) + (seq![v@] + vs));
                        },
                        None => {},
                    }
                }
                out.push(v);
                p = q;
            },
        }
    }
}

/// A list whose items start at `pos` (just after the `l`).
fn list(b: &[u8], pos: usize) -> (res: Option<(DataValue, usize)>)
    requires
        pos <= b@.len(),
    ensures
        match res {
            Some((v, q)) => match parse_items_in(b@, pos as int, true) {
                Some((vs, e)) => v@ == BValue::List(vs) && q == e,
                None => false,
            },
            None => parse_items_in(b@, pos as int, true) is None,
        },
        res matches Some((v, q)) ==> wf_in(v@, true),
    decreases b@.len() - pos, 2usize,
{
    match items(b, pos) {
        Some((values, e)) => {
            proof {
                lemma_data_list(values@);
                lemma_wf_list_all_in(data_list(values@), true);
                assert forall|i: int| 0 <= i < values@.len() implies wf_in(
                    #[trigger] data_list(values@)[i],
                    true,
                ) by {
                    assert(wf_in(values@[i]@, true));
                }
            }
            Some((DataValue::List(values), e))
        },
        None => None,
    }
}

/// The key that the decoder makes of an item: a string's text, else what
/// `DataValue`'s `Display` writes for the item.
fn key_string(v: &DataValue) -> (res: Option<String>)
    ensures
        match res {
            Some(k) => data_key_text(v@) == Some(key_bytes(k)),
            None => data_key_text(v@) is None,
        },
{
    match v {
        DataValue::String(bytes) => {
            match crate::boundary::str_from_utf8(bytes.as_slice()) {
                Some(s) => {
                    proof {
                        decode_utf8_encode_utf8(bytes@);
                    }
                    Some(s.to_owned())
                },
                None => None,
            }
        },
        _ => {
            proof {
                lemma_data_display_valid(v@);
                decode_utf8_encode_utf8(data_display(v@));
            }
            v.try_to_string()
        },
    }
}

/// `BTreeMap::insert` on a vector of entries held in increasing key order.
fn insert_entry(entries: &mut Vec<(String, DataValue)>, key: String, value: DataValue)
    ensures
        data_entries(final(entries)@) == dict_insert(
            data_entries(old(entries)@),
            key_bytes(key),
            value@,
        ),
        (forall|j: int|
            0 <= j < old(entries)@.len() ==> wf_entry_in(#[trigger] data_entries(old(entries)@)[j], true))
            && wf_in(value@, true) ==> forall|j: int|
            0 <= j < final(entries)@.len() ==> wf_entry_in(#[trigger] data_entries(final(entries)@)[j], true),
{
    let ghost k = key_bytes(key);
    let ghost v = value@;
    let ghost es = data_entries(entries@);
    let wanted = key.as_str().as_bytes();
    proof {
        lemma_data_entries(entries@);
        vstd::utf8::encode_utf8_valid_utf8(key@);
        assert(wanted@.len() == wanted.len());
        lemma_dict_insert_entries(es, k, v);
        let r = dict_insert(es, k, v);
        if (forall|j: int| 0 <= j < es.len() ==> wf_entry_in(#[trigger] es[j], true)) && wf_in(v, true) {
            assert forall|i: int| 0 <= i < r.len() implies wf_entry_in(#[trigger] r[i], true) by {
                if r[i] != (k, v) {
                    let j = choose|j: int| 0 <= j < es.len() && es[j] == r[i];
                    assert(wf_entry_in(es[j], true));
                }
            }
        }
    }
    assert(es.subrange(0, 0) =~= Seq::<(Seq<u8>, BValue)>::empty());
    assert(es.subrange(0, es.len() as int) =~= es);
    let mut i: usize = 0;
    while i < entries.len()
        invariant
            entries@ == old(entries)@,
            es == data_entries(entries@),
            es.len() == entries@.len(),
            forall|j: int|
                0 <= j < entries@.len() ==> #[trigger] es[j] == (
                    key_bytes(entries@[j].0),
                    entries@[j].1.model(),
                ),
            i <= entries@.len(),
            k == key_bytes(key),
            v == value@,
            wanted@ == k,
            (forall|j: int| 0 <= j < es.len() ==> wf_entry_in(#[trigger] es[j], true)) && wf_in(v, true) ==> forall|
                j: int,
            |
                0 <= j < dict_insert(es, k, v).len() ==> wf_entry_in(
                    #[trigger] dict_insert(es, k, v)[j],
                true,
                ),
            dict_insert(es, k, v) == es.subrange(0, i as int) + dict_insert(
                es.subrange(i as int, es.len() as int),
                k,
                v,
            ),
        decreases entries@.len() - i,
    {
        let ghost rest = es.subrange(i as int, es.len() as int);
        assert(rest[0] == es[i as int]);
        let existing = entries[i].0.as_str().as_bytes();
        if crate::bencode::bytes_equal(existing, wanted) {
            let _ = entries.remove(i);
            entries.insert(i, (key, value));
            proof {
                lemma_data_entries(entries@);
                assert(data_entries(entries@) =~= es.subrange(0, i as int) + (seq![(k, v)]
                    + rest.drop_first()));
            }
            return;
        }
        if crate::ordering::bytes_less(wanted, existing) {
            entries.insert(i, (key, value));
            proof {
                lemma_data_entries(entries@);
                assert(data_entries(entries@) =~= es.subrange(0, i as int) + (seq![(k, v)]
                    + rest));
            }
            return;
        }
        proof {
            assert(rest.drop_first() =~= es.subrange(i + 1, es.len() as int));
            assert(es.subrange(0, i + 1) =~= es.subrange(0, i as int) + seq![es[i as int]]);
        }
        i = i + 1;
    }
    entries.push((key, value));
    proof {
        lemma_data_entries(entries@);
        assert(es.subrange(i as int, es.len() as int) =~= Seq::<(Seq<u8>, BValue)>::empty());
        assert(es.subrange(0, i as int) =~= es);
        assert(data_entries(entries@) =~= es + seq![(k, v)]);
    }
}

/// A dictionary whose items start at `pos` (just after the `d`): the items
/// are read as for a list, then taken in (key, value) pairs from the end.
fn dictionary(b: &[u8], pos: usize) -> (res: Option<(DataValue, usize)>)
    requires
        pos <= b@.len(),
    ensures
        match res {
            Some((v, q)) => match parse_items_in(b@, pos as int, true) {
                Some((vs, e)) => match dict_fold_in(vs, seq![], true) {
                    Some(es) => v@ == BValue::Dict(es) && q == e,
                    None => false,
                },
                None => false,
            },
            None => match parse_items_in(b@, pos as int, true) {
                Some((vs, e)) => dict_fold_in(vs, seq![], true) is None,
                None => true,
            },
        },
        res matches Some((v, q)) ==> wf_in(v@, true),
    decreases b@.len() - pos, 2usize,
{
    let (mut list, e) = match items(b, pos) {
        Some(r) => r,
        None => {
            return None;
        },
    };
    let ghost all = data_list(list@);
    let mut map: Vec<(String, DataValue)> = Vec::new();
    assert(data_entries(map@) =~= Seq::<(Seq<u8>, BValue)>::empty());
    while list.len() >= 2
        invariant
            parse_items_in(b@, pos as int, true) == Some((all, e as int)),
            dict_fold_in(all, seq![], true) == dict_fold_in(data_list(list@), data_entries(map@), true),
            forall|i: int| 0 <= i < list@.len() ==> wf_in(#[trigger] list@[i]@, true),
            forall|j: int|
                0 <= j < map@.len() ==> wf_entry_in(#[trigger] data_entries(map@)[j], true),
        decreases list@.len(),
    {
        let ghost before = list@;
        proof {
            lemma_data_list(list@);
        }
        let value = list.pop().unwrap();
        let key = list.pop().unwrap();
        let ghost n = before.len() as int;
        proof {
            lemma_data_list(list@);
            assert(data_list(before).subrange(0, n - 2) =~= data_list(list@));
            assert(data_list(before)[n - 2] == key@);
            assert(data_list(before)[n - 1] == value@);
            assert(wf_in(before[n - 1]@, true));
            assert forall|i: int| 0 <= i < list@.len() implies wf_in(#[trigger] list@[i]@, true) by {
                assert(list@[i] == before[i]);
            }
        }
        match key_string(&key) {
            Some(k) => {
                insert_entry(&mut map, k, value);
            },
            None => {
                assert(dict_fold_in(data_list(before), data_entries(map@), true) is None);
                return None;
            },
        }
    }
    proof {
        lemma_data_list(list@);
        lemma_data_entries(map@);
        lemma_dict_fold_sorted(all, seq![], true);
        lemma_wf_entries_all_in(data_entries(map@), true);
    }
    Some((DataValue::Dictionary(map), e))
}

/// The value that starts at `pos`, and the position after it.
fn decode_at(b: &[u8], pos: usize) -> (res: Option<(DataValue, usize)>)
    requires
        pos <= b@.len(),
    ensures
        match res {
            Some((v, q)) => parse_value_in(b@, pos as int, true) == Some((v@, q as int)),
            None => parse_value_in(b@, pos as int, true) is None,
        },
        res matches Some((v, q)) ==> wf_in(v@, true),
    decreases b@.len() - pos, 0usize,
{
    if pos >= b.len() {
        return None;
    }
    let first = b[pos];
    if first == 100u8 {
        dictionary(b, pos + 1)
    } else if first == 108u8 {
        list(b, pos + 1)
    } else if first == 105u8 {
        integer(b, pos + 1)
    } else if 48u8 <= first && first <= 57u8 {
        string(b, pos)
    } else {
        None
    }
}

/// Decodes the `DataValue` at the start of `bytes`, and the bytes after it,
/// or `None` where the bytes do not hold one. What it gives back is
/// well-formed, so that encoding it and decoding the result gives it back.
pub fn try_decode(bytes: &[u8]) -> (res: Option<(DataValue, Vec<u8>)>)
    ensures
        match res {
            Some((v, rest)) => data_decode_spec(bytes@) == Some((v@, rest@)),
            None => data_decode_spec(bytes@) is None,
        },
        res matches Some((v, rest)) ==> wf_in(v@, true) && sorted_deep(v@),
{
    match decode_at(bytes, 0) {
        Some((v, q)) => {
            proof {
                lemma_parse_advances(bytes@, 0, true);
                lemma_wf_sorted_deep(v@, true);
            }
            let rest = copy_range(bytes, q, bytes.len());
            Some((v, rest))
        },
        None => None,
    }
}

} // verus!
