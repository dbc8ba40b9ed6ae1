//! The mathematical model of bencode values, and the specifications of
//! encoding, display and decoding over it.
use vstd::prelude::*;
use vstd::utf8::*;
use crate::digits::{decimal_int, decimal_nat, is_digit, lemma_decimal_nat};
use crate::text::{is_ascii_bytes, lemma_ascii_valid};

verus! {

/// A bencode value as mathematics sees it. A dictionary is the sequence of its
/// entries; each key is the UTF-8 text of the key, as bytes.
pub enum BValue {
    Dict(Seq<(Seq<u8>, BValue)>),
    List(Seq<BValue>),
    Str(Seq<u8>),
    Int(int),
}

/// The order of `String` keys: byte-wise lexicographic order.
pub open spec fn bytes_lt(a: Seq<u8>, b: Seq<u8>) -> bool
    decreases a.len(),
{
    if b.len() == 0 {
        false
    } else if a.len() == 0 {
        true
    } else if a[0] != b[0] {
        a[0] < b[0]
    } else {
        bytes_lt(a.drop_first(), b.drop_first())
    }
}

/// Keys strictly increasing: the order in which a `BTreeMap` holds and walks them.
pub open spec fn sorted_keys(es: Seq<(Seq<u8>, BValue)>) -> bool {
    forall|i: int, j: int| 0 <= i < j < es.len() ==> bytes_lt(#[trigger] es[i].0, #[trigger] es[j].0)
}

/// `BTreeMap::insert` on the sequence of entries: the key takes its place in
/// order, and replaces the value of an equal key.
pub open spec fn dict_insert(es: Seq<(Seq<u8>, BValue)>, k: Seq<u8>, v: BValue) -> Seq<(Seq<u8>, BValue)>
    decreases es.len(),
{
    if es.len() == 0 {
        seq![(k, v)]
    } else if es[0].0 == k {
        seq![(k, v)] + es.drop_first()
    } else if bytes_lt(k, es[0].0) {
        seq![(k, v)] + es
    } else {
        seq![es[0]] + dict_insert(es.drop_first(), k, v)
    }
}

/// The value of the first entry with key `k`.
pub open spec fn dict_get(es: Seq<(Seq<u8>, BValue)>, k: Seq<u8>) -> Option<BValue>
    decreases es.len(),
{
    if es.len() == 0 {
        None
    } else if es[0].0 == k {
        Some(es[0].1)
    } else {
        dict_get(es.drop_first(), k)
    }
}

/// Well-formed values: what the decoder gives back. Dictionary keys are
/// valid UTF-8 and strictly increasing, string and key lengths fit in
/// `usize`, and integers fit in `isize`, or for a `DataValue` (`unsigned`)
/// lie between zero and `usize::MAX`.
pub open spec fn wf_in(v: BValue, unsigned: bool) -> bool
    decreases v,
{
    match v {
        BValue::Dict(es) => sorted_keys(es) && wf_entries_in(es, unsigned),
        BValue::List(vs) => wf_list_in(vs, unsigned),
        BValue::Str(s) => s.len() <= usize::MAX,
        BValue::Int(n) => if unsigned {
            0 <= n <= usize::MAX
        } else {
            isize::MIN <= n <= isize::MAX
        },
    }
}

pub open spec fn wf_list_in(vs: Seq<BValue>, unsigned: bool) -> bool
    decreases vs,
{
    if vs.len() == 0 {
        true
    } else {
        wf_in(vs[0], unsigned) && wf_list_in(vs.subrange(1, vs.len() as int), unsigned)
    }
}

pub open spec fn wf_entries_in(es: Seq<(Seq<u8>, BValue)>, unsigned: bool) -> bool
    decreases es,
{
    if es.len() == 0 {
        true
    } else {
        valid_utf8(es[0].0) && es[0].0.len() <= usize::MAX && wf_in(es[0].1, unsigned)
            && wf_entries_in(es.subrange(1, es.len() as int), unsigned)
    }
}

/// A well-formed `Bencode` value.
pub open spec fn wf(v: BValue) -> bool {
    wf_in(v, false)
}

pub open spec fn wf_list(vs: Seq<BValue>) -> bool {
    wf_list_in(vs, false)
}

pub open spec fn wf_entries(es: Seq<(Seq<u8>, BValue)>) -> bool {
    wf_entries_in(es, false)
}

/// One well-formed dictionary entry: a UTF-8 key whose length fits in
/// `usize`, and a well-formed value.
pub open spec fn wf_entry_in(e: (Seq<u8>, BValue), unsigned: bool) -> bool {
    valid_utf8(e.0) && e.0.len() <= usize::MAX && wf_in(e.1, unsigned)
}

pub open spec fn wf_entry(e: (Seq<u8>, BValue)) -> bool {
    wf_entry_in(e, false)
}

pub proof fn lemma_wf_list_all_in(vs: Seq<BValue>, unsigned: bool)
    ensures
        wf_list_in(vs, unsigned) == forall|i: int| 0 <= i < vs.len() ==> wf_in(#[trigger] vs[i], unsigned),
    decreases vs.len(),
{
    if vs.len() > 0 {
        let rest = vs.subrange(1, vs.len() as int);
        lemma_wf_list_all_in(rest, unsigned);
        if forall|i: int| 0 <= i < vs.len() ==> wf_in(#[trigger] vs[i], unsigned) {
            assert forall|i: int| 0 <= i < rest.len() implies wf_in(#[trigger] rest[i], unsigned) by {
                assert(rest[i] == vs[i + 1]);
            }
        }
        if wf_list_in(vs, unsigned) {
            assert forall|i: int| 0 <= i < vs.len() implies wf_in(#[trigger] vs[i], unsigned) by {
                if i > 0 {
                    assert(vs[i] == rest[i - 1]);
                }
            }
        }
    }
}

pub proof fn lemma_wf_list_all(vs: Seq<BValue>)
    ensures
        wf_list(vs) == forall|i: int| 0 <= i < vs.len() ==> wf(#[trigger] vs[i]),
{
    lemma_wf_list_all_in(vs, false);
}

pub proof fn lemma_wf_entries_all_in(es: Seq<(Seq<u8>, BValue)>, unsigned: bool)
    ensures
        wf_entries_in(es, unsigned) == forall|i: int|
            0 <= i < es.len() ==> wf_entry_in(#[trigger] es[i], unsigned),
    decreases es.len(),
{
    if es.len() > 0 {
        let rest = es.subrange(1, es.len() as int);
        lemma_wf_entries_all_in(rest, unsigned);
        if forall|i: int| 0 <= i < es.len() ==> wf_entry_in(#[trigger] es[i], unsigned) {
            assert forall|i: int| 0 <= i < rest.len() implies wf_entry_in(#[trigger] rest[i], unsigned) by {
                assert(rest[i] == es[i + 1]);
            }
            assert(wf_entry_in(es[0], unsigned));
        }
        if wf_entries_in(es, unsigned) {
            assert forall|i: int| 0 <= i < es.len() implies wf_entry_in(#[trigger] es[i], unsigned) by {
                if i > 0 {
                    assert(es[i] == rest[i - 1]);
                    assert(wf_entry_in(rest[i - 1], unsigned));
                }
            }
        }
    }
}

pub proof fn lemma_wf_entries_all(es: Seq<(Seq<u8>, BValue)>)
    ensures
        wf_entries(es) == forall|i: int| 0 <= i < es.len() ==> wf_entry(#[trigger] es[i]),
{
    lemma_wf_entries_all_in(es, false);
}

/// The bencoding of a value.
pub open spec fn encode(v: BValue) -> Seq<u8>
    decreases v,
{
    match v {
        BValue::Dict(es) => seq![100u8] + encode_entries(es) + seq![101u8],
        BValue::List(vs) => seq![108u8] + encode_list(vs) + seq![101u8],
        BValue::Str(s) => decimal_nat(s.len()) + seq![58u8] + s,
        BValue::Int(n) => seq![105u8] + decimal_int(n) + seq![101u8],
    }
}

pub open spec fn encode_list(vs: Seq<BValue>) -> Seq<u8>
    decreases vs,
{
    if vs.len() == 0 {
        seq![]
    } else {
        encode(vs[0]) + encode_list(vs.subrange(1, vs.len() as int))
    }
}

/// The bencoding of a string: its length, a colon, its bytes.
pub open spec fn encode_str(s: Seq<u8>) -> Seq<u8> {
    decimal_nat(s.len()) + seq![58u8] + s
}

pub open spec fn encode_entries(es: Seq<(Seq<u8>, BValue)>) -> Seq<u8>
    decreases es,
{
    if es.len() == 0 {
        seq![]
    } else {
        encode_str(es[0].0) + encode(es[0].1) + encode_entries(es.subrange(1, es.len() as int))
    }
}

/// One entry as `Display` writes it, `"key":value`, once the value is written.
pub open spec fn display_entry(k: Seq<u8>, shown: Seq<u8>) -> Seq<u8> {
    seq![34u8] + k + seq![34u8, 58u8] + shown
}

/// The text that `Display` writes for a value, as UTF-8 bytes: strings in
/// quotes, integers in decimal, lists in brackets and dictionaries in braces,
/// the items separated by commas.
pub open spec fn display(v: BValue) -> Seq<u8>
    decreases v,
{
    match v {
        BValue::Dict(es) => seq![123u8] + display_entries(es) + seq![125u8],
        BValue::List(vs) => seq![91u8] + display_list(vs) + seq![93u8],
        BValue::Str(s) => seq![34u8] + s + seq![34u8],
        BValue::Int(n) => decimal_int(n),
    }
}

pub open spec fn display_list(vs: Seq<BValue>) -> Seq<u8>
    decreases vs,
{
    if vs.len() == 0 {
        seq![]
    } else if vs.len() == 1 {
        display(vs[0])
    } else {
        display(vs[0]) + seq![44u8] + display_list(vs.subrange(1, vs.len() as int))
    }
}

pub open spec fn display_entries(es: Seq<(Seq<u8>, BValue)>) -> Seq<u8>
    decreases es,
{
    if es.len() == 0 {
        seq![]
    } else if es.len() == 1 {
        display_entry(es[0].0, display(es[0].1))
    } else {
        display_entry(es[0].0, display(es[0].1)) + seq![44u8] + display_entries(
            es.subrange(1, es.len() as int),
        )
    }
}

/// `Display` succeeds (does not panic) exactly when every string in the value is UTF-8.
pub open spec fn display_ok(v: BValue) -> bool
    decreases v,
{
    match v {
        BValue::Dict(es) => display_ok_entries(es),
        BValue::List(vs) => display_ok_list(vs),
        BValue::Str(s) => valid_utf8(s),
        BValue::Int(n) => true,
    }
}

pub open spec fn display_ok_list(vs: Seq<BValue>) -> bool
    decreases vs,
{
    if vs.len() == 0 {
        true
    } else {
        display_ok(vs[0]) && display_ok_list(vs.subrange(1, vs.len() as int))
    }
}

pub open spec fn display_ok_entries(es: Seq<(Seq<u8>, BValue)>) -> bool
    decreases es,
{
    if es.len() == 0 {
        true
    } else {
        valid_utf8(es[0].0) && display_ok(es[0].1) && display_ok_entries(
            es.subrange(1, es.len() as int),
        )
    }
}

/// The text that `Bencode::value` gives: the bytes of a string, else what `Display` writes.
pub open spec fn text(v: BValue) -> Seq<u8> {
    match v {
        BValue::Str(s) => s,
        _ => display(v),
    }
}

pub open spec fn text_ok(v: BValue) -> bool {
    match v {
        BValue::Str(s) => valid_utf8(s),
        _ => display_ok(v),
    }
}

/// The dictionary key that the decoder makes of a value: a string's own text,
/// else the text that `Display` writes; `None` where that panics.
pub open spec fn key_text(v: BValue) -> Option<Seq<u8>> {
    match v {
        BValue::Str(s) => if valid_utf8(s) {
            Some(s)
        } else {
            None
        },
        _ => if display_ok(v) {
            Some(display(v))
        } else {
            None
        },
    }
}


pub proof fn lemma_encode_list_push(vs: Seq<BValue>, x: BValue)
    ensures
        encode_list(vs.push(x)) == encode_list(vs) + encode(x),
    decreases vs.len(),
{
    let ws = vs.push(x);
    if vs.len() == 0 {
        assert(ws.subrange(1, ws.len() as int) =~= Seq::<BValue>::empty());
        assert(encode_list(vs) =~= Seq::<u8>::empty());
        assert(encode_list(ws.subrange(1, ws.len() as int)) =~= Seq::<u8>::empty());
        assert(ws[0] == x);
        assert(encode(x) + Seq::<u8>::empty() =~= encode(x));
    } else {
        let rest = vs.subrange(1, vs.len() as int);
        lemma_encode_list_push(rest, x);
        assert(ws.subrange(1, ws.len() as int) =~= rest.push(x));
        assert(ws[0] == vs[0]);
        assert(encode_list(ws) =~= encode(vs[0]) + (encode_list(rest) + encode(x)));
    }
}

pub proof fn lemma_encode_entries_push(es: Seq<(Seq<u8>, BValue)>, k: Seq<u8>, v: BValue)
    ensures
        encode_entries(es.push((k, v))) == encode_entries(es) + encode_str(k) + encode(v),
    decreases es.len(),
{
    let ws = es.push((k, v));
    if es.len() == 0 {
        assert(ws.subrange(1, ws.len() as int) =~= Seq::<(Seq<u8>, BValue)>::empty());
        assert(encode_entries(es) =~= Seq::<u8>::empty());
        assert(encode_entries(ws.subrange(1, ws.len() as int)) =~= Seq::<u8>::empty());
        assert(ws[0] == (k, v));
        assert(encode_entries(ws) =~= encode_str(k) + encode(v));
    } else {
        let rest = es.subrange(1, es.len() as int);
        lemma_encode_entries_push(rest, k, v);
        assert(ws.subrange(1, ws.len() as int) =~= rest.push((k, v)));
        assert(ws[0] == es[0]);
        assert(encode_entries(ws) =~= encode_str(es[0].0) + encode(es[0].1) + (encode_entries(rest)
            + encode_str(k) + encode(v)));
    }
}

pub proof fn lemma_display_list_push(vs: Seq<BValue>, x: BValue)
    ensures
        display_list(vs.push(x)) == if vs.len() == 0 {
            display(x)
        } else {
            display_list(vs) + seq![44u8] + display(x)
        },
        display_ok_list(vs.push(x)) == (display_ok_list(vs) && display_ok(x)),
    decreases vs.len(),
{
    let ws = vs.push(x);
    if vs.len() == 0 {
        assert(ws.subrange(1, ws.len() as int) =~= Seq::<BValue>::empty());
        assert(display_ok_list(ws.subrange(1, ws.len() as int)));
        assert(ws[0] == x);
    } else {
        let rest = vs.subrange(1, vs.len() as int);
        lemma_display_list_push(rest, x);
        assert(ws.subrange(1, ws.len() as int) =~= rest.push(x));
        assert(ws[0] == vs[0]);
        if vs.len() == 1 {
            assert(rest =~= Seq::<BValue>::empty());
            assert(display_list(vs) == display(vs[0]));
        } else {
            assert(display_list(ws) =~= display(vs[0]) + seq![44u8] + (display_list(rest) + seq![
                44u8,
            ] + display(x)));
        }
    }
}

pub proof fn lemma_display_entries_push(es: Seq<(Seq<u8>, BValue)>, k: Seq<u8>, v: BValue)
    ensures
        display_entries(es.push((k, v))) == if es.len() == 0 {
            display_entry(k, display(v))
        } else {
            display_entries(es) + seq![44u8] + display_entry(k, display(v))
        },
        display_ok_entries(es.push((k, v))) == (display_ok_entries(es) && valid_utf8(k)
            && display_ok(v)),
    decreases es.len(),
{
    let ws = es.push((k, v));
    if es.len() == 0 {
        assert(ws.subrange(1, ws.len() as int) =~= Seq::<(Seq<u8>, BValue)>::empty());
        assert(display_ok_entries(ws.subrange(1, ws.len() as int)));
        assert(ws[0] == (k, v));
    } else {
        let rest = es.subrange(1, es.len() as int);
        lemma_display_entries_push(rest, k, v);
        assert(ws.subrange(1, ws.len() as int) =~= rest.push((k, v)));
        assert(ws[0] == es[0]);
        if es.len() == 1 {
            assert(rest =~= Seq::<(Seq<u8>, BValue)>::empty());
        } else {
            assert(display_entries(ws) =~= display_entry(es[0].0, display(es[0].1)) + seq![44u8]
                + (display_entries(rest) + seq![44u8] + display_entry(k, display(v))));
        }
    }
}


proof fn lemma_decimal_int_ascii(n: int)
    ensures
        is_ascii_bytes(decimal_int(n)),
{
    if n < 0 {
        lemma_decimal_nat((-n) as nat);
        let d = decimal_int(n);
        assert forall|i: int| 0 <= i < d.len() implies #[trigger] d[i] < 128 by {
            if i > 0 {
                assert(d[i] == decimal_nat((-n) as nat)[i - 1]);
                assert(is_digit(decimal_nat((-n) as nat)[i - 1]));
            }
        }
    } else {
        lemma_decimal_nat(n as nat);
        let d = decimal_int(n);
        assert forall|i: int| 0 <= i < d.len() implies #[trigger] d[i] < 128 by {
            assert(is_digit(d[i]));
        }
    }
}

/// What `Display` writes of a value whose strings are all UTF-8 is UTF-8.
pub proof fn lemma_display_valid(v: BValue)
    requires
        display_ok(v),
    ensures
        valid_utf8(display(v)),
    decreases v,
{
    broadcast use valid_utf8_concat;

    match v {
        BValue::Str(s) => {
            lemma_ascii_valid(seq![34u8]);
            assert(valid_utf8(seq![34u8] + s));
        },
        BValue::Int(n) => {
            lemma_decimal_int_ascii(n);
            lemma_ascii_valid(decimal_int(n));
        },
        BValue::List(vs) => {
            lemma_ascii_valid(seq![91u8]);
            lemma_ascii_valid(seq![93u8]);
            lemma_display_list_valid(vs);
            assert(valid_utf8(seq![91u8] + display_list(vs)));
        },
        BValue::Dict(es) => {
            lemma_ascii_valid(seq![123u8]);
            lemma_ascii_valid(seq![125u8]);
            lemma_display_entries_valid(es);
            assert(valid_utf8(seq![123u8] + display_entries(es)));
        },
    }
}

proof fn lemma_display_list_valid(vs: Seq<BValue>)
    requires
        display_ok_list(vs),
    ensures
        valid_utf8(display_list(vs)),
    decreases vs,
{
    broadcast use valid_utf8_concat;

    if vs.len() == 0 {
        lemma_ascii_valid(Seq::<u8>::empty());
    } else if vs.len() == 1 {
        lemma_display_valid(vs[0]);
    } else {
        lemma_display_valid(vs[0]);
        lemma_display_list_valid(vs.subrange(1, vs.len() as int));
        lemma_ascii_valid(seq![44u8]);
        assert(valid_utf8(display(vs[0]) + seq![44u8]));
    }
}

proof fn lemma_display_entries_valid(es: Seq<(Seq<u8>, BValue)>)
    requires
        display_ok_entries(es),
    ensures
        valid_utf8(display_entries(es)),
    decreases es,
{
    broadcast use valid_utf8_concat;

    if es.len() == 0 {
        lemma_ascii_valid(Seq::<u8>::empty());
    } else {
        lemma_display_valid(es[0].1);
        lemma_ascii_valid(seq![34u8]);
        lemma_ascii_valid(seq![34u8, 58u8]);
        assert(valid_utf8(seq![34u8] + es[0].0));
        assert(valid_utf8(seq![34u8] + es[0].0 + seq![34u8, 58u8]));
        assert(valid_utf8(display_entry(es[0].0, display(es[0].1))));
        if es.len() > 1 {
            lemma_display_entries_valid(es.subrange(1, es.len() as int));
            lemma_ascii_valid(seq![44u8]);
            assert(valid_utf8(display_entry(es[0].0, display(es[0].1)) + seq![44u8]));
        }
    }
}


pub proof fn lemma_display_ok_list_all(vs: Seq<BValue>)
    ensures
        display_ok_list(vs) == forall|i: int| 0 <= i < vs.len() ==> display_ok(#[trigger] vs[i]),
    decreases vs.len(),
{
    if vs.len() > 0 {
        let rest = vs.subrange(1, vs.len() as int);
        lemma_display_ok_list_all(rest);
        if forall|i: int| 0 <= i < vs.len() ==> display_ok(#[trigger] vs[i]) {
            assert forall|i: int| 0 <= i < rest.len() implies display_ok(#[trigger] rest[i]) by {
                assert(rest[i] == vs[i + 1]);
            }
        }
        if display_ok_list(vs) {
            assert forall|i: int| 0 <= i < vs.len() implies display_ok(#[trigger] vs[i]) by {
                if i > 0 {
                    assert(vs[i] == rest[i - 1]);
                }
            }
        }
    }
}

pub proof fn lemma_display_ok_entries_all(es: Seq<(Seq<u8>, BValue)>)
    ensures
        display_ok_entries(es) == forall|i: int|
            0 <= i < es.len() ==> valid_utf8(#[trigger] es[i].0) && display_ok(es[i].1),
    decreases es.len(),
{
    if es.len() > 0 {
        let rest = es.subrange(1, es.len() as int);
        lemma_display_ok_entries_all(rest);
        if forall|i: int| 0 <= i < es.len() ==> valid_utf8(#[trigger] es[i].0) && display_ok(
            es[i].1,
        ) {
            assert forall|i: int| 0 <= i < rest.len() implies valid_utf8(#[trigger] rest[i].0)
                && display_ok(rest[i].1) by {
                assert(rest[i] == es[i + 1]);
                assert(valid_utf8(es[i + 1].0));
            }
            assert(valid_utf8(es[0].0));
        }
        if display_ok_entries(es) {
            assert forall|i: int| 0 <= i < es.len() implies valid_utf8(#[trigger] es[i].0)
                && display_ok(es[i].1) by {
                if i > 0 {
                    assert(es[i] == rest[i - 1]);
                    assert(valid_utf8(rest[i - 1].0));
                }
            }
        }
    }
}

/// Looking a key up past entries with other keys.
pub proof fn lemma_dict_get_skip(es: Seq<(Seq<u8>, BValue)>, k: Seq<u8>, i: int)
    requires
        0 <= i <= es.len(),
        forall|j: int| 0 <= j < i ==> #[trigger] es[j].0 != k,
    ensures
        dict_get(es, k) == dict_get(es.subrange(i, es.len() as int), k),
    decreases i,
{
    if i > 0 {
        let rest = es.subrange(1, es.len() as int);
        assert(rest == es.drop_first());
        assert forall|j: int| 0 <= j < i - 1 implies #[trigger] rest[j].0 != k by {
            assert(rest[j] == es[j + 1]);
        }
        lemma_dict_get_skip(rest, k, i - 1);
        assert(rest.subrange(i - 1, rest.len() as int) =~= es.subrange(i, es.len() as int));
    } else {
        assert(es.subrange(0, es.len() as int) =~= es);
    }
}


pub proof fn lemma_display_ok_entries_at(es: Seq<(Seq<u8>, BValue)>, i: int)
    requires
        display_ok_entries(es),
        0 <= i < es.len(),
    ensures
        valid_utf8(es[i].0),
        display_ok(es[i].1),
{
    lemma_display_ok_entries_all(es);
    assert(valid_utf8(es[i].0));
}


/// `get` may be asked for `key`: the value is no dictionary, or holds `key`.
pub open spec fn lookup_ok(v: BValue, key: Seq<u8>) -> bool {
    v is Dict ==> dict_get(v->Dict_0, key) is Some
}

/// What `get` answers: the value of `key` in a dictionary, else the value itself.
pub open spec fn lookup(v: BValue, key: Seq<u8>) -> BValue {
    match v {
        BValue::Dict(es) => dict_get(es, key).unwrap(),
        _ => v,
    }
}

/// The bytes of a string; empty for any other value.
pub open spec fn str_bytes(v: BValue) -> Seq<u8> {
    match v {
        BValue::Str(s) => s,
        _ => Seq::<u8>::empty(),
    }
}

/// The text that `value` gives is UTF-8.
pub proof fn lemma_text_valid(v: BValue)
    requires
        text_ok(v),
    ensures
        valid_utf8(text(v)),
{
    match v {
        BValue::Str(s) => {},
        _ => {
            lemma_display_valid(v);
        },
    }
}


/// What `Display` writes for a `DataValue`: a string's own text, an
/// integer in decimal, `List` for a list and `{}` for a dictionary.
pub open spec fn data_display(v: BValue) -> Seq<u8> {
    match v {
        BValue::Str(s) => s,
        BValue::Int(n) => decimal_int(n),
        BValue::List(_) => seq![76u8, 105u8, 115u8, 116u8],
        BValue::Dict(_) => seq![123u8, 125u8],
    }
}

/// `Display` of a `DataValue` succeeds unless it is a string that is not UTF-8.
pub open spec fn data_display_ok(v: BValue) -> bool {
    match v {
        BValue::Str(s) => valid_utf8(s),
        _ => true,
    }
}

pub proof fn lemma_data_display_valid(v: BValue)
    requires
        data_display_ok(v),
    ensures
        valid_utf8(data_display(v)),
{
    match v {
        BValue::Str(s) => {},
        BValue::Int(n) => {
            lemma_decimal_int_ascii(n);
            lemma_ascii_valid(decimal_int(n));
        },
        BValue::List(_) => {
            lemma_ascii_valid(seq![76u8, 105u8, 115u8, 116u8]);
        },
        BValue::Dict(_) => {
            lemma_ascii_valid(seq![123u8, 125u8]);
        },
    }
}

/// Every dictionary in the value, at any depth, has strictly increasing keys.
pub open spec fn sorted_deep(v: BValue) -> bool
    decreases v,
{
    match v {
        BValue::Dict(es) => sorted_keys(es) && sorted_deep_entries(es),
        BValue::List(vs) => sorted_deep_list(vs),
        _ => true,
    }
}

pub open spec fn sorted_deep_list(vs: Seq<BValue>) -> bool
    decreases vs,
{
    if vs.len() == 0 {
        true
    } else {
        sorted_deep(vs[0]) && sorted_deep_list(vs.subrange(1, vs.len() as int))
    }
}

pub open spec fn sorted_deep_entries(es: Seq<(Seq<u8>, BValue)>) -> bool
    decreases es,
{
    if es.len() == 0 {
        true
    } else {
        sorted_deep(es[0].1) && sorted_deep_entries(es.subrange(1, es.len() as int))
    }
}

pub proof fn lemma_sorted_deep_list_all(vs: Seq<BValue>)
    ensures
        sorted_deep_list(vs) == forall|i: int| 0 <= i < vs.len() ==> sorted_deep(#[trigger] vs[i]),
    decreases vs.len(),
{
    if vs.len() > 0 {
        let rest = vs.subrange(1, vs.len() as int);
        lemma_sorted_deep_list_all(rest);
        if forall|i: int| 0 <= i < vs.len() ==> sorted_deep(#[trigger] vs[i]) {
            assert forall|i: int| 0 <= i < rest.len() implies sorted_deep(#[trigger] rest[i]) by {
                assert(rest[i] == vs[i + 1]);
            }
        }
        if sorted_deep_list(vs) {
            assert forall|i: int| 0 <= i < vs.len() implies sorted_deep(#[trigger] vs[i]) by {
                if i > 0 {
                    assert(vs[i] == rest[i - 1]);
                }
            }
        }
    }
}

pub proof fn lemma_sorted_deep_entries_all(es: Seq<(Seq<u8>, BValue)>)
    ensures
        sorted_deep_entries(es) == forall|i: int|
            0 <= i < es.len() ==> sorted_deep(#[trigger] es[i].1),
    decreases es.len(),
{
    if es.len() > 0 {
        let rest = es.subrange(1, es.len() as int);
        lemma_sorted_deep_entries_all(rest);
        if forall|i: int| 0 <= i < es.len() ==> sorted_deep(#[trigger] es[i].1) {
            assert forall|i: int| 0 <= i < rest.len() implies sorted_deep(#[trigger] rest[i].1) by {
                assert(rest[i] == es[i + 1]);
            }
            assert(sorted_deep(es[0].1));
        }
        if sorted_deep_entries(es) {
            assert forall|i: int| 0 <= i < es.len() implies sorted_deep(#[trigger] es[i].1) by {
                if i > 0 {
                    assert(es[i] == rest[i - 1]);
                    assert(sorted_deep(rest[i - 1].1));
                }
            }
        }
    }
}

/// Each item's encoding is a part of the list's encoding.
pub proof fn lemma_encode_list_parts(vs: Seq<BValue>)
    ensures
        forall|i: int| 0 <= i < vs.len() ==> #[trigger] encode(vs[i]).len() <= encode_list(vs).len(),
    decreases vs.len(),
{
    if vs.len() > 0 {
        let rest = vs.subrange(1, vs.len() as int);
        lemma_encode_list_parts(rest);
        assert forall|i: int| 0 <= i < vs.len() implies #[trigger] encode(vs[i]).len()
            <= encode_list(vs).len() by {
            if i > 0 {
                assert(vs[i] == rest[i - 1]);
            }
        }
    }
}

/// Each entry's key and value are parts of the dictionary's encoding.
pub proof fn lemma_encode_entries_parts(es: Seq<(Seq<u8>, BValue)>)
    ensures
        forall|i: int|
            0 <= i < es.len() ==> #[trigger] es[i].0.len() + encode(es[i].1).len()
                <= encode_entries(es).len(),
    decreases es.len(),
{
    if es.len() > 0 {
        let rest = es.subrange(1, es.len() as int);
        lemma_encode_entries_parts(rest);
        assert forall|i: int| 0 <= i < es.len() implies #[trigger] es[i].0.len() + encode(
            es[i].1,
        ).len() <= encode_entries(es).len() by {
            if i > 0 {
                assert(es[i] == rest[i - 1]);
            }
        }
    }
}

} // verus!
