//! Decoding reads back what encoding writes.
use vstd::prelude::*;
use vstd::utf8::*;
use crate::digits::{
    decimal_int, decimal_nat, is_digit, lemma_decimal_nat, lemma_parse_decimal_int,
    lemma_parse_decimal_nat,
};
use crate::model::{
    bytes_lt, dict_insert, encode, encode_entries, encode_list, encode_str, sorted_keys, wf,
    wf_entries_in, wf_in, wf_list_in, BValue,
};
use crate::grammar::{
    data_decode_spec, decode_spec, dict_fold_in, find_byte, parse_items, parse_items_in, parse_value,
    parse_value_in,
};
use crate::ordering::lemma_bytes_lt_irreflexive;

verus! {

/// The items between `d` and `e` of an encoded dictionary: each key as a
/// string, then its value.
pub open spec fn flatten(es: Seq<(Seq<u8>, BValue)>) -> Seq<BValue>
    decreases es.len(),
{
    if es.len() == 0 {
        seq![]
    } else {
        seq![BValue::Str(es[0].0), es[0].1] + flatten(es.subrange(1, es.len() as int))
    }
}

proof fn lemma_find_byte_at(b: Seq<u8>, from: int, c: u8, target: int)
    requires
        0 <= from <= target < b.len(),
        b[target] == c,
        forall|i: int| from <= i < target ==> b[i] != c,
    ensures
        find_byte(b, from, c) == target,
    decreases target - from,
{
    if from < target {
        lemma_find_byte_at(b, from + 1, c, target);
    }
}

proof fn lemma_encode_first(v: BValue)
    ensures
        encode(v).len() > 0,
        encode(v)[0] != 101u8,
{
    match v {
        BValue::Str(s) => {
            lemma_decimal_nat(s.len());
            assert(is_digit(decimal_nat(s.len())[0]));
        },
        _ => {},
    }
}

proof fn lemma_parse_encode_str(s: Seq<u8>, pre: Seq<u8>, post: Seq<u8>, unsigned: bool)
    requires
        s.len() <= usize::MAX,
    ensures
        parse_value_in(pre + encode_str(s) + post, pre.len() as int, unsigned) == Some(
            (BValue::Str(s), (pre.len() + encode_str(s).len()) as int),
        ),
{
    let d = decimal_nat(s.len());
    lemma_decimal_nat(s.len());
    let b = pre + encode_str(s) + post;
    let p = pre.len() as int;
    assert(b == pre + d + seq![58u8] + s + post);
    assert forall|i: int| p <= i < p + d.len() implies b[i] != 58u8 by {
        assert(b[i] == d[i - p]);
        assert(is_digit(d[i - p]));
    }
    assert(b[p + d.len()] == 58u8);
    lemma_find_byte_at(b, p, 58u8, p + d.len());
    assert(b.subrange(p, p + d.len()) =~= d);
    assert(b[p] == d[0]);
    assert(is_digit(d[0]));
    lemma_parse_decimal_nat(s.len());
    let after = p + d.len() + 1;
    assert(b.subrange(after, after + s.len()) =~= s);
}

proof fn lemma_parse_encode_int(n: int, pre: Seq<u8>, post: Seq<u8>, unsigned: bool)
    requires
        if unsigned {
            0 <= n <= usize::MAX
        } else {
            isize::MIN <= n <= isize::MAX
        },
    ensures
        parse_value_in(pre + encode(BValue::Int(n)) + post, pre.len() as int, unsigned) == Some(
            (BValue::Int(n), (pre.len() + encode(BValue::Int(n)).len()) as int),
        ),
{
    let d = decimal_int(n);
    let b = pre + encode(BValue::Int(n)) + post;
    let p = pre.len() as int;
    assert(b == pre + seq![105u8] + d + seq![101u8] + post);
    if n < 0 {
        lemma_decimal_nat((-n) as nat);
        assert forall|i: int| 0 <= i < d.len() implies d[i] != 101u8 by {
            if i > 0 {
                assert(d[i] == decimal_nat((-n) as nat)[i - 1]);
                assert(is_digit(decimal_nat((-n) as nat)[i - 1]));
            }
        }
    } else {
        lemma_decimal_nat(n as nat);
        assert forall|i: int| 0 <= i < d.len() implies d[i] != 101u8 by {
            assert(is_digit(d[i]));
        }
    }
    assert forall|i: int| p + 1 <= i < p + 1 + d.len() implies b[i] != 101u8 by {
        assert(b[i] == d[i - p - 1]);
    }
    assert(b[p + 1 + d.len()] == 101u8);
    lemma_find_byte_at(b, p + 1, 101u8, p + 1 + d.len());
    assert(b.subrange(p + 1, p + 1 + d.len()) =~= d);
    lemma_parse_decimal_int(n);
    if n >= 0 {
        lemma_parse_decimal_nat(n as nat);
    }
}

proof fn lemma_parse_encode(v: BValue, pre: Seq<u8>, post: Seq<u8>, unsigned: bool)
    requires
        wf_in(v, unsigned),
    ensures
        parse_value_in(pre + encode(v) + post, pre.len() as int, unsigned) == Some(
            (v, (pre.len() + encode(v).len()) as int),
        ),
    decreases v,
{
    match v {
        BValue::Str(s) => {
            lemma_parse_encode_str(s, pre, post, unsigned);
        },
        BValue::Int(n) => {
            lemma_parse_encode_int(n, pre, post, unsigned);
        },
        BValue::List(vs) => {
            let b = pre + encode(v) + post;
            let pre2 = pre + seq![108u8];
            assert(b == pre2 + encode_list(vs) + seq![101u8] + post);
            lemma_parse_encode_list(vs, pre2, post, unsigned);
        },
        BValue::Dict(es) => {
            let b = pre + encode(v) + post;
            let pre2 = pre + seq![100u8];
            assert(b == pre2 + encode_entries(es) + seq![101u8] + post);
            lemma_parse_encode_entries(es, pre2, post, unsigned);
            lemma_wf_entries_keys(es, unsigned);
            assert(es + seq![] =~= es);
            lemma_dict_fold_flatten(es, seq![], unsigned);
        },
    }
}

proof fn lemma_parse_encode_list(vs: Seq<BValue>, pre: Seq<u8>, post: Seq<u8>, unsigned: bool)
    requires
        wf_list_in(vs, unsigned),
    ensures
        parse_items_in(pre + encode_list(vs) + seq![101u8] + post, pre.len() as int, unsigned)
            == Some(
            (vs, (pre.len() + encode_list(vs).len() + 1) as int),
        ),
    decreases vs,
{
    let b = pre + encode_list(vs) + seq![101u8] + post;
    let p = pre.len() as int;
    if vs.len() == 0 {
        assert(b[p] == 101u8);
    } else {
        let rest = vs.subrange(1, vs.len() as int);
        let e0 = encode(vs[0]);
        let tail = encode_list(rest) + seq![101u8] + post;
        assert(b == pre + e0 + tail);
        lemma_encode_first(vs[0]);
        assert(b[p] == e0[0]);
        lemma_parse_encode(vs[0], pre, tail, unsigned);
        let pre2 = pre + e0;
        assert(b == pre2 + encode_list(rest) + seq![101u8] + post);
        lemma_parse_encode_list(rest, pre2, post, unsigned);
        assert(seq![vs[0]] + rest =~= vs);
    }
}

proof fn lemma_parse_encode_entries(
    es: Seq<(Seq<u8>, BValue)>,
    pre: Seq<u8>,
    post: Seq<u8>,
    unsigned: bool,
)
    requires
        wf_entries_in(es, unsigned),
    ensures
        parse_items_in(pre + encode_entries(es) + seq![101u8] + post, pre.len() as int, unsigned)
            == Some(
            (flatten(es), (pre.len() + encode_entries(es).len() + 1) as int),
        ),
    decreases es,
{
    let b = pre + encode_entries(es) + seq![101u8] + post;
    let p = pre.len() as int;
    if es.len() == 0 {
        assert(b[p] == 101u8);
    } else {
        let rest = es.subrange(1, es.len() as int);
        let k = es[0].0;
        let ek = encode_str(k);
        let ev = encode(es[0].1);
        let tail = encode_entries(rest) + seq![101u8] + post;
        assert(b == pre + ek + (ev + tail));
        lemma_encode_first(BValue::Str(k));
        assert(encode(BValue::Str(k)) == ek);
        assert(b[p] == ek[0]);
        lemma_parse_encode_str(k, pre, ev + tail, unsigned);
        let pre2 = pre + ek;
        assert(b == pre2 + ev + tail);
        lemma_encode_first(es[0].1);
        assert(b[pre2.len() as int] == ev[0]);
        lemma_parse_encode(es[0].1, pre2, tail, unsigned);
        let pre3 = pre2 + ev;
        assert(b == pre3 + encode_entries(rest) + seq![101u8] + post);
        lemma_parse_encode_entries(rest, pre3, post, unsigned);
        let q1 = pre2.len() as int;
        let q2 = pre3.len() as int;
        assert(parse_items_in(b, q1, unsigned) == Some(
            (seq![es[0].1] + flatten(rest), (pre3.len() + encode_entries(rest).len() + 1) as int),
        ));
        assert(flatten(es) =~= seq![BValue::Str(k)] + (seq![es[0].1] + flatten(rest)));
    }
}

proof fn lemma_wf_entries_keys(es: Seq<(Seq<u8>, BValue)>, unsigned: bool)
    requires
        wf_entries_in(es, unsigned),
    ensures
        forall|i: int| 0 <= i < es.len() ==> valid_utf8(#[trigger] es[i].0),
    decreases es.len(),
{
    if es.len() > 0 {
        let rest = es.subrange(1, es.len() as int);
        lemma_wf_entries_keys(rest, unsigned);
        assert forall|i: int| 0 <= i < es.len() implies valid_utf8(#[trigger] es[i].0) by {
            if i > 0 {
                assert(es[i] == rest[i - 1]);
            }
        }
    }
}

proof fn lemma_flatten_last(es: Seq<(Seq<u8>, BValue)>)
    requires
        es.len() > 0,
    ensures
        flatten(es) == flatten(es.drop_last()) + seq![BValue::Str(es.last().0), es.last().1],
    decreases es.len(),
{
    if es.len() > 1 {
        let rest = es.subrange(1, es.len() as int);
        lemma_flatten_last(rest);
        assert(rest.drop_last() =~= es.drop_last().subrange(1, es.drop_last().len() as int));
        assert(rest.last() == es.last());
    } else {
        assert(es.drop_last() =~= Seq::<(Seq<u8>, BValue)>::empty());
        assert(es.subrange(1, es.len() as int) =~= Seq::<(Seq<u8>, BValue)>::empty());
    }
}

proof fn lemma_dict_fold_flatten(
    es: Seq<(Seq<u8>, BValue)>,
    acc: Seq<(Seq<u8>, BValue)>,
    unsigned: bool,
)
    requires
        sorted_keys(es + acc),
        forall|i: int| 0 <= i < es.len() ==> valid_utf8(#[trigger] es[i].0),
    ensures
        dict_fold_in(flatten(es), acc, unsigned) == Some(es + acc),
    decreases es.len(),
{
    if es.len() == 0 {
        assert(es + acc =~= acc);
    } else {
        let n = es.len() as int;
        let k = es.last().0;
        let v = es.last().1;
        let init = es.drop_last();
        lemma_flatten_last(es);
        let items = flatten(es);
        let m = items.len() as int;
        assert(items[m - 2] == BValue::Str(k));
        assert(items[m - 1] == v);
        assert(items.subrange(0, m - 2) =~= flatten(init));
        assert(valid_utf8(es[n - 1].0));
        let acc2 = seq![(k, v)] + acc;
        if acc.len() > 0 {
            assert((es + acc)[n - 1] == es[n - 1]);
            assert((es + acc)[n] == acc[0]);
            assert(bytes_lt(k, acc[0].0));
            lemma_bytes_lt_irreflexive(k);
        }
        assert(dict_insert(acc, k, v) == acc2);
        assert(init + acc2 =~= es + acc);
        lemma_dict_fold_flatten(init, acc2, unsigned);
    }
}

/// Decoding the encoding of a well-formed value gives back the value, and
/// stops right after it, whatever precedes or follows it.
pub proof fn law_decode_encode(v: BValue, pre: Seq<u8>, post: Seq<u8>)
    requires
        wf(v),
    ensures
        parse_value(pre + encode(v) + post, pre.len() as int) == Some(
            (v, (pre.len() + encode(v).len()) as int),
        ),
{
    lemma_parse_encode(v, pre, post, false);
}

/// `decode` of an encoded well-formed value gives the value and the bytes that followed it.
pub proof fn law_decode_spec_encode(v: BValue, post: Seq<u8>)
    requires
        wf(v),
    ensures
        decode_spec(encode(v) + post) == Some((v, post)),
{
    let empty = Seq::<u8>::empty();
    lemma_parse_encode(v, empty, post, false);
    assert(empty + encode(v) + post =~= encode(v) + post);
    let b = encode(v) + post;
    assert(b.subrange(encode(v).len() as int, b.len() as int) =~= post);
}

/// The items of a list or dictionary, encoded one after another and closed
/// by an `e`, read back in order; reading stops right after that first `e`,
/// whatever follows.
pub proof fn law_items_encode(vs: Seq<BValue>, pre: Seq<u8>, post: Seq<u8>)
    requires
        forall|i: int| 0 <= i < vs.len() ==> wf(#[trigger] vs[i]),
    ensures
        parse_items(pre + encode_list(vs) + seq![101u8] + post, pre.len() as int) == Some(
            (vs, (pre.len() + encode_list(vs).len() + 1) as int),
        ),
{
    crate::model::lemma_wf_list_all(vs);
    lemma_parse_encode_list(vs, pre, post, false);
}

/// Decoding, as a `DataValue`, the encoding of a well-formed value whose
/// integers lie between zero and `usize::MAX` gives back the value and the
/// bytes that followed it.
pub proof fn law_data_decode_encode(v: BValue, post: Seq<u8>)
    requires
        wf_in(v, true),
    ensures
        data_decode_spec(encode(v) + post) == Some((v, post)),
{
    let empty = Seq::<u8>::empty();
    lemma_parse_encode(v, empty, post, true);
    assert(empty + encode(v) + post =~= encode(v) + post);
    let b = encode(v) + post;
    assert(b.subrange(encode(v).len() as int, b.len() as int) =~= post);
}

} // verus!
