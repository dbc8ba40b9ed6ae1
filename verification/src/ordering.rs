//! The order of dictionary keys.
use vstd::prelude::*;
use crate::model::{
    bytes_lt, dict_get, dict_insert, lemma_dict_get_skip, lemma_sorted_deep_entries_all,
    lemma_sorted_deep_list_all, lemma_wf_entries_all_in, lemma_wf_list_all_in, lookup, lookup_ok,
    sorted_deep, sorted_keys, wf_entry_in, wf_in, BValue,
};
use crate::grammar::{dict_fold_in, key_text_in, parse_items_in, parse_value_in};

verus! {

/// Whether `a` comes before `b` in byte-wise lexicographic order.
pub fn bytes_less(a: &[u8], b: &[u8]) -> (res: bool)
    ensures
        res == bytes_lt(a@, b@),
{
    assert(a@.subrange(0, a@.len() as int) =~= a@);
    assert(b@.subrange(0, b@.len() as int) =~= b@);
    let mut i: usize = 0;
    while i < a.len() && i < b.len()
        invariant
            i <= a@.len(),
            i <= b@.len(),
            bytes_lt(a@, b@) == bytes_lt(
                a@.subrange(i as int, a@.len() as int),
                b@.subrange(i as int, b@.len() as int),
            ),
        decreases a@.len() - i,
    {
        let ghost x = a@.subrange(i as int, a@.len() as int);
        let ghost y = b@.subrange(i as int, b@.len() as int);
        assert(x[0] == a@[i as int]);
        assert(y[0] == b@[i as int]);
        if a[i] != b[i] {
            return a[i] < b[i];
        }
        assert(x.drop_first() =~= a@.subrange(i + 1, a@.len() as int));
        assert(y.drop_first() =~= b@.subrange(i + 1, b@.len() as int));
        i = i + 1;
    }
    i == a.len() && i < b.len()
}


pub proof fn lemma_bytes_lt_irreflexive(a: Seq<u8>)
    ensures
        !bytes_lt(a, a),
    decreases a.len(),
{
    if a.len() > 0 {
        lemma_bytes_lt_irreflexive(a.drop_first());
    }
}

pub proof fn lemma_bytes_lt_asymmetric(a: Seq<u8>, b: Seq<u8>)
    ensures
        bytes_lt(a, b) ==> !bytes_lt(b, a),
    decreases a.len(),
{
    if a.len() > 0 && b.len() > 0 && a[0] == b[0] {
        lemma_bytes_lt_asymmetric(a.drop_first(), b.drop_first());
    }
}

/// Two different keys are ordered one way or the other.
pub proof fn lemma_bytes_lt_total(a: Seq<u8>, b: Seq<u8>)
    ensures
        a == b || bytes_lt(a, b) || bytes_lt(b, a),
    decreases a.len(),
{
    if a.len() > 0 && b.len() > 0 && a[0] == b[0] {
        lemma_bytes_lt_total(a.drop_first(), b.drop_first());
        if a.drop_first() == b.drop_first() {
            assert(a =~= seq![a[0]] + a.drop_first());
            assert(b =~= seq![b[0]] + b.drop_first());
        }
    } else if a.len() == 0 && b.len() == 0 {
        assert(a =~= b);
    }
}

pub proof fn lemma_bytes_lt_transitive(a: Seq<u8>, b: Seq<u8>, c: Seq<u8>)
    requires
        bytes_lt(a, b),
        bytes_lt(b, c),
    ensures
        bytes_lt(a, c),
    decreases a.len(),
{
    if a.len() > 0 && b.len() > 0 && c.len() > 0 && a[0] == b[0] && b[0] == c[0] {
        lemma_bytes_lt_transitive(a.drop_first(), b.drop_first(), c.drop_first());
    }
}

/// Every entry after inserting is the inserted one or one that was there.
pub proof fn lemma_dict_insert_entries(es: Seq<(Seq<u8>, BValue)>, k: Seq<u8>, v: BValue)
    ensures
        forall|i: int|
            0 <= i < dict_insert(es, k, v).len() ==> #[trigger] dict_insert(es, k, v)[i] == (k, v)
                || exists|j: int| 0 <= j < es.len() && es[j] == dict_insert(es, k, v)[i],
    decreases es.len(),
{
    let r = dict_insert(es, k, v);
    if es.len() > 0 && es[0].0 != k && !bytes_lt(k, es[0].0) {
        let rest = es.drop_first();
        lemma_dict_insert_entries(rest, k, v);
        assert forall|i: int| 0 <= i < r.len() implies #[trigger] r[i] == (k, v) || exists|j: int|
            0 <= j < es.len() && es[j] == r[i] by {
            if i == 0 {
                assert(es[0] == r[0]);
            } else {
                assert(r[i] == dict_insert(rest, k, v)[i - 1]);
                if r[i] != (k, v) {
                    let j = choose|j: int| 0 <= j < rest.len() && rest[j] == r[i];
                    assert(es[j + 1] == rest[j]);
                }
            }
        }
    } else if es.len() > 0 {
        assert forall|i: int| 0 <= i < r.len() implies #[trigger] r[i] == (k, v) || exists|j: int|
            0 <= j < es.len() && es[j] == r[i] by {
            if i > 0 {
                if es[0].0 == k {
                    assert(r[i] == es[i]);
                } else {
                    assert(r[i] == es[i - 1]);
                }
            }
        }
    }
}

/// Inserting keeps the keys strictly increasing.
pub proof fn lemma_dict_insert_sorted(es: Seq<(Seq<u8>, BValue)>, k: Seq<u8>, v: BValue)
    requires
        sorted_keys(es),
    ensures
        sorted_keys(dict_insert(es, k, v)),
    decreases es.len(),
{
    let r = dict_insert(es, k, v);
    if es.len() == 0 {
    } else if es[0].0 == k {
        assert forall|i: int, j: int| 0 <= i < j < r.len() implies bytes_lt(
            #[trigger] r[i].0,
            #[trigger] r[j].0,
        ) by {
            assert(r[j] == es[j]);
            if i > 0 {
                assert(r[i] == es[i]);
            }
        }
    } else if bytes_lt(k, es[0].0) {
        assert forall|i: int, j: int| 0 <= i < j < r.len() implies bytes_lt(
            #[trigger] r[i].0,
            #[trigger] r[j].0,
        ) by {
            assert(r[j] == es[j - 1]);
            if i > 0 {
                assert(r[i] == es[i - 1]);
            } else if j > 1 {
                lemma_bytes_lt_transitive(k, es[0].0, es[j - 1].0);
            }
        }
    } else {
        let rest = es.drop_first();
        assert(sorted_keys(rest)) by {
            assert forall|i: int, j: int| 0 <= i < j < rest.len() implies bytes_lt(
                #[trigger] rest[i].0,
                #[trigger] rest[j].0,
            ) by {
                assert(rest[i] == es[i + 1]);
                assert(rest[j] == es[j + 1]);
            }
        }
        lemma_dict_insert_sorted(rest, k, v);
        lemma_dict_insert_entries(rest, k, v);
        lemma_bytes_lt_total(k, es[0].0);
        let t = dict_insert(rest, k, v);
        assert forall|i: int, j: int| 0 <= i < j < r.len() implies bytes_lt(
            #[trigger] r[i].0,
            #[trigger] r[j].0,
        ) by {
            assert(r[j] == t[j - 1]);
            if i > 0 {
                assert(r[i] == t[i - 1]);
            } else {
                assert(r[0] == es[0]);
                if t[j - 1] != (k, v) {
                    let m = choose|m: int| 0 <= m < rest.len() && rest[m] == t[j - 1];
                    assert(rest[m] == es[m + 1]);
                }
            }
        }
    }
}

/// Folding pairs into a dictionary keeps its keys strictly increasing.
pub proof fn lemma_dict_fold_sorted(
    items: Seq<BValue>,
    acc: Seq<(Seq<u8>, BValue)>,
    unsigned: bool,
)
    requires
        sorted_keys(acc),
    ensures
        dict_fold_in(items, acc, unsigned) matches Some(es) ==> sorted_keys(es),
    decreases items.len(),
{
    if items.len() >= 2 {
        let n = items.len() as int;
        if let Some(k) = key_text_in(items[n - 2], unsigned) {
            lemma_dict_insert_sorted(acc, k, items[n - 1]);
            lemma_dict_fold_sorted(
                items.subrange(0, n - 2),
                dict_insert(acc, k, items[n - 1]),
                unsigned,
            );
        }
    }
}

/// A dictionary that the decoder reads, as a `Bencode` or as a `DataValue`
/// (`unsigned`), holds its keys in strictly increasing order, each key
/// once, as a `BTreeMap` does.
pub proof fn law_decoded_dictionary_sorted(b: Seq<u8>, p: int, unsigned: bool)
    ensures
        parse_value_in(b, p, unsigned) matches Some((BValue::Dict(es), q)) ==> sorted_keys(es),
{
    if 0 <= p < b.len() && b[p] == 100u8 {
        if let Some((items, e)) = parse_items_in(b, p + 1, unsigned) {
            lemma_dict_fold_sorted(items, seq![], unsigned);
        }
    }
}

/// In a dictionary with strictly increasing keys, looking up any of its
/// keys finds that entry's value.
pub proof fn law_lookup_finds_entry(es: Seq<(Seq<u8>, BValue)>, i: int)
    requires
        sorted_keys(es),
        0 <= i < es.len(),
    ensures
        dict_get(es, es[i].0) == Some(es[i].1),
{
    assert forall|j: int| 0 <= j < i implies #[trigger] es[j].0 != es[i].0 by {
        assert(bytes_lt(es[j].0, es[i].0));
        lemma_bytes_lt_irreflexive(es[i].0);
    }
    lemma_dict_get_skip(es, es[i].0, i);
    assert(es.subrange(i, es.len() as int)[0] == es[i]);
}

/// Folding pairs into a dictionary takes its values from the items and
/// from what was there.
proof fn lemma_dict_fold_values(
    items: Seq<BValue>,
    acc: Seq<(Seq<u8>, BValue)>,
    unsigned: bool,
)
    requires
        forall|i: int| 0 <= i < items.len() ==> sorted_deep(#[trigger] items[i]),
        forall|j: int| 0 <= j < acc.len() ==> sorted_deep(#[trigger] acc[j].1),
    ensures
        dict_fold_in(items, acc, unsigned) matches Some(es) ==> forall|j: int|
            0 <= j < es.len() ==> sorted_deep(#[trigger] es[j].1),
    decreases items.len(),
{
    if items.len() >= 2 {
        let n = items.len() as int;
        if let Some(k) = key_text_in(items[n - 2], unsigned) {
            let v = items[n - 1];
            let next = dict_insert(acc, k, v);
            lemma_dict_insert_entries(acc, k, v);
            assert(sorted_deep(items[n - 1]));
            assert forall|j: int| 0 <= j < next.len() implies sorted_deep(#[trigger] next[j].1) by {
                if next[j] != (k, v) {
                    let m = choose|m: int| 0 <= m < acc.len() && acc[m] == next[j];
                    assert(sorted_deep(acc[m].1));
                }
            }
            let init = items.subrange(0, n - 2);
            assert forall|i: int| 0 <= i < init.len() implies sorted_deep(#[trigger] init[i]) by {
                assert(init[i] == items[i]);
            }
            lemma_dict_fold_values(init, next, unsigned);
        }
    }
}

/// Every dictionary in a value that the decoder reads, as a `Bencode` or as
/// a `DataValue`, at any depth, holds its keys in strictly increasing order,
/// each key once.
pub proof fn law_decoded_sorted_deep(b: Seq<u8>, p: int, unsigned: bool)
    ensures
        parse_value_in(b, p, unsigned) matches Some((v, q)) ==> sorted_deep(v),
        parse_items_in(b, p, unsigned) matches Some((vs, e)) ==> forall|i: int|
            0 <= i < vs.len() ==> sorted_deep(#[trigger] vs[i]),
    decreases b.len() - p,
{
    if 0 <= p < b.len() {
        if b[p] == 100u8 || b[p] == 108u8 {
            law_decoded_sorted_deep(b, p + 1, unsigned);
            if let Some((items, e)) = parse_items_in(b, p + 1, unsigned) {
                lemma_sorted_deep_list_all(items);
                if b[p] == 100u8 {
                    lemma_dict_fold_sorted(items, seq![], unsigned);
                    lemma_dict_fold_values(items, seq![], unsigned);
                    if let Some(es) = dict_fold_in(items, seq![], unsigned) {
                        lemma_sorted_deep_entries_all(es);
                    }
                }
            }
        }
        if b[p] != 101u8 {
            if let Some((v, q)) = parse_value_in(b, p, unsigned) {
                if p < q <= b.len() {
                    law_decoded_sorted_deep(b, q, unsigned);
                    if let Some((vs, e)) = parse_items_in(b, q, unsigned) {
                        let all = seq![v] + vs;
                        assert forall|i: int| 0 <= i < all.len() implies sorted_deep(
                            #[trigger] all[i],
                        ) by {
                            if i > 0 {
                                assert(all[i] == vs[i - 1]);
                            }
                        }
                    }
                }
            }
        }
    }
}

/// What a dictionary lookup finds is the value of one of its entries.
proof fn lemma_dict_get_in(es: Seq<(Seq<u8>, BValue)>, k: Seq<u8>)
    ensures
        dict_get(es, k) matches Some(x) ==> exists|j: int| 0 <= j < es.len() && #[trigger] es[j].1
            == x,
    decreases es.len(),
{
    if es.len() > 0 && es[0].0 != k {
        let rest = es.drop_first();
        lemma_dict_get_in(rest, k);
        if let Some(x) = dict_get(es, k) {
            let j = choose|j: int| 0 <= j < rest.len() && #[trigger] rest[j].1 == x;
            assert(es[j + 1].1 == x);
        }
    } else if es.len() > 0 {
        assert(es[0].1 == dict_get(es, k).unwrap());
    }
}

/// Looking a key up in a value whose dictionaries are all in key order
/// gives a value whose dictionaries are all in key order.
pub proof fn lemma_lookup_sorted_deep(v: BValue, k: Seq<u8>)
    requires
        sorted_deep(v),
        lookup_ok(v, k),
    ensures
        sorted_deep(lookup(v, k)),
{
    if let BValue::Dict(es) = v {
        lemma_sorted_deep_entries_all(es);
        lemma_dict_get_in(es, k);
        let j = choose|j: int| 0 <= j < es.len() && #[trigger] es[j].1 == dict_get(es, k).unwrap();
        assert(sorted_deep(es[j].1));
    }
}

/// A well-formed value keeps the keys of all its dictionaries in order.
pub proof fn lemma_wf_sorted_deep(v: BValue, unsigned: bool)
    requires
        wf_in(v, unsigned),
    ensures
        sorted_deep(v),
    decreases v,
{
    match v {
        BValue::List(vs) => {
            lemma_wf_list_all_in(vs, unsigned);
            lemma_sorted_deep_list_all(vs);
            assert forall|i: int| 0 <= i < vs.len() implies sorted_deep(#[trigger] vs[i]) by {
                assert(decreases_to!(v => vs[i]));
                lemma_wf_sorted_deep(vs[i], unsigned);
            }
        },
        BValue::Dict(es) => {
            lemma_wf_entries_all_in(es, unsigned);
            lemma_sorted_deep_entries_all(es);
            assert forall|i: int| 0 <= i < es.len() implies sorted_deep(#[trigger] es[i].1) by {
                assert(wf_entry_in(es[i], unsigned));
                assert(decreases_to!(v => es[i].1));
                lemma_wf_sorted_deep(es[i].1, unsigned);
            }
        },
        _ => {},
    }
}

} // verus!
