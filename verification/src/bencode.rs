//! Bencode values: the type, its encoding, its text, and access to its parts.
use vstd::prelude::*;
use vstd::utf8::{decode_utf8, encode_utf8, valid_utf8};
use crate::digits::{decimal_int, decimal_nat};
use crate::grammar::decode_spec;
use crate::roundtrip::law_decode_spec_encode;
use crate::model::{
    display, display_entries, display_entry, display_list, display_ok, display_ok_entries,
    display_ok_list, encode, encode_entries, encode_list, encode_str, lemma_display_entries_push,
    lemma_display_list_push, lemma_display_ok_entries_all, lemma_display_ok_list_all,
    lemma_encode_entries_parts, lemma_encode_entries_push, lemma_encode_list_parts,
    lemma_encode_list_push, lemma_sorted_deep_entries_all, lemma_sorted_deep_list_all,
    lemma_wf_entries_all, lemma_wf_list_all, lookup, lookup_ok, sorted_deep, wf, wf_entry, BValue,
};

verus! {

/// A bencoded value. A dictionary holds its entries in increasing order of
/// key, each key once, as a `BTreeMap<String, Bencode>` walks them: the
/// decoder makes them so, and the functions whose output follows that order
/// ask for it (`sorted_deep`).
pub enum Bencode {
    Dictionary(Vec<(String, Bencode)>),
    List(Vec<Bencode>),
    String(Vec<u8>),
    Integer(isize),
}

impl Bencode {
    /// The value that this `Bencode` stands for.
    pub open spec fn model(self) -> BValue
        decreases self,
    {
        match self {
            Bencode::Dictionary(es) => BValue::Dict(model_entries(es@)),
            Bencode::List(vs) => BValue::List(model_list(vs@)),
            Bencode::String(s) => BValue::Str(s@),
            Bencode::Integer(n) => BValue::Int(n as int),
        }
    }
}

pub open spec fn model_list(vs: Seq<Bencode>) -> Seq<BValue>
    decreases vs,
{
    if vs.len() == 0 {
        seq![]
    } else {
        model_list(vs.subrange(0, vs.len() - 1)).push(vs[vs.len() - 1].model())
    }
}

/// The key of an entry, as the bytes of its UTF-8 text.
pub open spec fn key_bytes(k: String) -> Seq<u8> {
    encode_utf8(k@)
}

pub open spec fn model_entries(es: Seq<(String, Bencode)>) -> Seq<(Seq<u8>, BValue)>
    decreases es,
{
    if es.len() == 0 {
        seq![]
    } else {
        model_entries(es.subrange(0, es.len() - 1)).push(
            (key_bytes(es[es.len() - 1].0), es[es.len() - 1].1.model()),
        )
    }
}

impl View for Bencode {
    type V = BValue;

    open spec fn view(&self) -> BValue {
        self.model()
    }
}

pub proof fn lemma_model_list(vs: Seq<Bencode>)
    ensures
        model_list(vs).len() == vs.len(),
        forall|i: int| 0 <= i < vs.len() ==> #[trigger] model_list(vs)[i] == vs[i].model(),
    decreases vs.len(),
{
    if vs.len() > 0 {
        let init = vs.subrange(0, vs.len() - 1);
        lemma_model_list(init);
        assert forall|i: int| 0 <= i < vs.len() implies #[trigger] model_list(vs)[i]
            == vs[i].model() by {
            if i < vs.len() - 1 {
                assert(init[i] == vs[i]);
            }
        }
    }
}

pub proof fn lemma_model_entries(es: Seq<(String, Bencode)>)
    ensures
        model_entries(es).len() == es.len(),
        forall|i: int|
            0 <= i < es.len() ==> #[trigger] model_entries(es)[i] == (
                key_bytes(es[i].0),
                es[i].1.model(),
            ),
    decreases es.len(),
{
    if es.len() > 0 {
        let init = es.subrange(0, es.len() - 1);
        lemma_model_entries(init);
        assert forall|i: int| 0 <= i < es.len() implies #[trigger] model_entries(es)[i] == (
            key_bytes(es[i].0),
            es[i].1.model(),
        ) by {
            if i < es.len() - 1 {
                assert(init[i] == es[i]);
            }
        }
    }
}

/// Appends the decimal numeral of `n`.
pub fn push_decimal(out: &mut Vec<u8>, n: u64)
    ensures
        final(out)@ == old(out)@ + decimal_nat(n as nat),
    decreases n,
{
    if n >= 10 {
        push_decimal(out, n / 10);
    }
    out.push((n % 10 + 48) as u8);
    proof {
        if n >= 10 {
            assert(decimal_nat(n as nat) == decimal_nat((n / 10) as nat).push((n % 10 + 48) as u8));
        } else {
            assert(decimal_nat(n as nat) == seq![(n + 48) as u8]);
        }
    }
}

/// Appends the decimal numeral of `n`, with a `-` when it is negative.
pub fn push_decimal_signed(out: &mut Vec<u8>, n: isize)
    ensures
        final(out)@ == old(out)@ + decimal_int(n as int),
{
    if n < 0 {
        out.push(45u8);
        let m: i128 = -(n as i128);
        push_decimal(out, m as u64);
        assert(final(out)@ =~= old(out)@ + decimal_int(n as int));
    } else {
        push_decimal(out, n as u64);
    }
}

/// Appends the bytes of a slice.
pub fn push_bytes(out: &mut Vec<u8>, bytes: &[u8])
    ensures
        final(out)@ == old(out)@ + bytes@,
{
    let ghost start = out@;
    let mut i: usize = 0;
    while i < bytes.len()
        invariant
            i <= bytes@.len(),
            out@ == start + bytes@.subrange(0, i as int),
        decreases bytes@.len() - i,
    {
        out.push(bytes[i]);
        i = i + 1;
        assert(out@ =~= start + bytes@.subrange(0, i as int));
    }
    assert(bytes@.subrange(0, i as int) =~= bytes@);
}

/// Appends the bencoding of a string: its length, a colon, its bytes.
pub(crate) fn push_encoded_str(out: &mut Vec<u8>, bytes: &[u8])
    ensures
        final(out)@ == old(out)@ + encode_str(bytes@),
{
    push_decimal(out, bytes.len() as u64);
    out.push(58u8);
    push_bytes(out, bytes);
    assert(final(out)@ =~= old(out)@ + encode_str(bytes@));
}

/// A `Bencode` value whose dictionaries keep their keys in order, and whose
/// encoding fits in memory, is well-formed: its keys are UTF-8 by being
/// `String`s, its integers fit in `isize`, and every key and string is a
/// part of the encoding.
pub proof fn lemma_bencode_wf(b: Bencode)
    requires
        sorted_deep(b@),
        encode(b@).len() <= usize::MAX,
    ensures
        wf(b@),
    decreases b,
{
    match b {
        Bencode::List(vs) => {
            let ml = model_list(vs@);
            lemma_model_list(vs@);
            lemma_sorted_deep_list_all(ml);
            lemma_encode_list_parts(ml);
            lemma_wf_list_all(ml);
            assert forall|i: int| 0 <= i < ml.len() implies wf(#[trigger] ml[i]) by {
                assert(ml[i] == vs@[i]@);
                assert(decreases_to!(b => vs));
                assert(decreases_to!(vs => vs@));
                assert(decreases_to!(vs@ => vs@[i]));
                lemma_bencode_wf(vs@[i]);
            }
        },
        Bencode::Dictionary(es) => {
            let me = model_entries(es@);
            lemma_model_entries(es@);
            lemma_sorted_deep_entries_all(me);
            lemma_encode_entries_parts(me);
            lemma_wf_entries_all(me);
            assert forall|i: int| 0 <= i < me.len() implies wf_entry(#[trigger] me[i]) by {
                assert(me[i] == (key_bytes(es@[i].0), es@[i].1@));
                vstd::utf8::encode_utf8_valid_utf8(es@[i].0@);
                assert(decreases_to!(b => es));
                assert(decreases_to!(es => es@));
                assert(decreases_to!(es@ => es@[i]));
                assert(decreases_to!(es@[i] => es@[i].1));
                lemma_bencode_wf(es@[i].1);
            }
        },
        _ => {},
    }
}

impl Bencode {
    /// The bencoding of this value, each dictionary's entries in increasing
    /// order of key.
    pub fn encode(&self) -> (res: Vec<u8>)
        requires
            sorted_deep(self@),
        ensures
            res@ == encode(self@),
            forall|rest: Seq<u8>| #[trigger] decode_spec(res@ + rest) == Some((self@, rest)),
    {
        let mut out = Vec::new();
        self.encode_into(&mut out);
        assert(out@ =~= encode(self@));
        proof {
            assert(out@.len() == out.len());
            lemma_bencode_wf(*self);
            assert forall|rest: Seq<u8>| #[trigger] decode_spec(out@ + rest) == Some(
                (self@, rest),
            ) by {
                law_decode_spec_encode(self@, rest);
            }
        }
        out
    }

    fn encode_into(&self, out: &mut Vec<u8>)
        ensures
            final(out)@ == old(out)@ + encode(self@),
        decreases self,
    {
        match self {
            Bencode::Dictionary(entries) => {
                let ghost start = out@;
                out.push(100u8);
                let mut i: usize = 0;
                while i < entries.len()
                    invariant
                        *self == Bencode::Dictionary(*entries),
                        i <= entries@.len(),
                        out@ == start + seq![100u8] + encode_entries(
                            model_entries(entries@.subrange(0, i as int)),
                        ),
                    decreases entries@.len() - i,
                {
                    let ghost before = out@;
                    let key = entries[i].0.as_str().as_bytes();
                    push_encoded_str(out, key);
                    proof {
                        assert(*self == Bencode::Dictionary(*entries));
                        assert(decreases_to!(*self => (*self)->Dictionary_0));
                        assert(decreases_to!(entries => entries@));
                        assert(decreases_to!(entries@ => entries@[i as int]));
                        assert(decreases_to!(entries@[i as int] => entries@[i as int].1));
                    }
                    entries[i].1.encode_into(out);
                    proof {
                        let es = entries@.subrange(0, i + 1);
                        assert(es.subrange(0, es.len() - 1) =~= entries@.subrange(0, i as int));
                        assert(es[es.len() - 1] == entries@[i as int]);
                        lemma_encode_entries_push(
                            model_entries(entries@.subrange(0, i as int)),
                            key_bytes(entries@[i as int].0),
                            entries@[i as int].1.model(),
                        );
                    }
                    i = i + 1;
                    assert(out@ =~= start + seq![100u8] + encode_entries(
                        model_entries(entries@.subrange(0, i as int)),
                    ));
                }
                out.push(101u8);
                assert(entries@.subrange(0, i as int) =~= entries@);
                assert(out@ =~= start + encode(self@));
            },
            Bencode::List(values) => {
                let ghost start = out@;
                out.push(108u8);
                let mut i: usize = 0;
                while i < values.len()
                    invariant
                        *self == Bencode::List(*values),
                        i <= values@.len(),
                        out@ == start + seq![108u8] + encode_list(
                            model_list(values@.subrange(0, i as int)),
                        ),
                    decreases values@.len() - i,
                {
                    proof {
                        assert(*self == Bencode::List(*values));
                        assert(decreases_to!(*self => (*self)->List_0));
                        assert(decreases_to!(values => values@));
                        assert(decreases_to!(values@ => values@[i as int]));
                    }
                    values[i].encode_into(out);
                    proof {
                        let vs = values@.subrange(0, i + 1);
                        assert(vs.subrange(0, vs.len() - 1) =~= values@.subrange(0, i as int));
                        assert(vs[vs.len() - 1] == values@[i as int]);
                        lemma_encode_list_push(
                            model_list(values@.subrange(0, i as int)),
                            values@[i as int].model(),
                        );
                    }
                    i = i + 1;
                    assert(out@ =~= start + seq![108u8] + encode_list(
                        model_list(values@.subrange(0, i as int)),
                    ));
                }
                out.push(101u8);
                assert(values@.subrange(0, i as int) =~= values@);
                assert(out@ =~= start + encode(self@));
            },
            Bencode::String(bytes) => {
                push_encoded_str(out, bytes.as_slice());
            },
            Bencode::Integer(number) => {
                let ghost start = out@;
                out.push(105u8);
                push_decimal_signed(out, *number);
                out.push(101u8);
                assert(out@ =~= start + encode(self@));
            },
        }
    }
}


/// Whether two byte slices are equal.
pub fn bytes_equal(a: &[u8], b: &[u8]) -> (res: bool)
    ensures
        res == (a@ == b@),
{
    if a.len() != b.len() {
        return false;
    }
    let mut i: usize = 0;
    while i < a.len()
        invariant
            a@.len() == b@.len(),
            i <= a@.len(),
            a@.subrange(0, i as int) == b@.subrange(0, i as int),
        decreases a@.len() - i,
    {
        if a[i] != b[i] {
            return false;
        }
        i = i + 1;
        assert(a@.subrange(0, i as int) =~= a@.subrange(0, i - 1).push(a@[i - 1]));
        assert(b@.subrange(0, i as int) =~= b@.subrange(0, i - 1).push(b@[i - 1]));
    }
    assert(a@ =~= a@.subrange(0, i as int));
    assert(b@ =~= b@.subrange(0, i as int));
    true
}

impl Bencode {
    /// Appends what `Display` writes for this value; `false`, with `out` in
    /// an unspecified state, where `Display` would panic on a string that is
    /// not UTF-8.
    pub(crate) fn display_into(&self, out: &mut Vec<u8>) -> (ok: bool)
        ensures
            ok == display_ok(self@),
            ok ==> final(out)@ == old(out)@ + display(self@),
        decreases self,
    {
        match self {
            Bencode::String(bytes) => {
                if crate::boundary::str_from_utf8(bytes.as_slice()).is_none() {
                    return false;
                }
                let ghost start = out@;
                out.push(34u8);
                push_bytes(out, bytes.as_slice());
                out.push(34u8);
                assert(out@ =~= start + display(self@));
                true
            },
            Bencode::Integer(number) => {
                push_decimal_signed(out, *number);
                true
            },
            Bencode::List(values) => {
                let ghost start = out@;
                out.push(91u8);
                let mut i: usize = 0;
                while i < values.len()
                    invariant
                        *self == Bencode::List(*values),
                        i <= values@.len(),
                        display_ok_list(model_list(values@.subrange(0, i as int))),
                        out@ == start + seq![91u8] + display_list(
                            model_list(values@.subrange(0, i as int)),
                        ),
                    decreases values@.len() - i,
                {
                    let ghost before = model_list(values@.subrange(0, i as int));
                    if i > 0 {
                        out.push(44u8);
                    }
                    proof {
                        assert(decreases_to!(*self => (*self)->List_0));
                        assert(decreases_to!(values => values@));
                        assert(decreases_to!(values@ => values@[i as int]));
                    }
                    let ok = values[i].display_into(out);
                    proof {
                        let vs = values@.subrange(0, i + 1);
                        assert(vs.subrange(0, vs.len() - 1) =~= values@.subrange(0, i as int));
                        assert(vs[vs.len() - 1] == values@[i as int]);
                        lemma_display_list_push(before, values@[i as int].model());
                        lemma_model_list(values@);
                        lemma_display_ok_list_all(model_list(values@));
                    }
                    if !ok {
                        assert(model_list(values@)[i as int] == values@[i as int].model());
                        assert(!display_ok(model_list(values@)[i as int]));
                        assert(!display_ok_list(model_list(values@)));
                        return false;
                    }
                    i = i + 1;
                    assert(out@ =~= start + seq![91u8] + display_list(
                        model_list(values@.subrange(0, i as int)),
                    ));
                }
                out.push(93u8);
                assert(values@.subrange(0, i as int) =~= values@);
                assert(out@ =~= start + display(self@));
                true
            },
            Bencode::Dictionary(entries) => {
                let ghost start = out@;
                out.push(123u8);
                let mut i: usize = 0;
                while i < entries.len()
                    invariant
                        *self == Bencode::Dictionary(*entries),
                        i <= entries@.len(),
                        display_ok_entries(model_entries(entries@.subrange(0, i as int))),
                        out@ == start + seq![123u8] + display_entries(
                            model_entries(entries@.subrange(0, i as int)),
                        ),
                    decreases entries@.len() - i,
                {
                    let ghost before = model_entries(entries@.subrange(0, i as int));
                    let ghost out0 = out@;
                    if i > 0 {
                        out.push(44u8);
                    }
                    let ghost out1 = out@;
                    out.push(34u8);
                    push_bytes(out, entries[i].0.as_str().as_bytes());
                    out.push(34u8);
                    out.push(58u8);
                    let ghost out2 = out@;
                    proof {
                        assert(decreases_to!(*self => (*self)->Dictionary_0));
                        assert(decreases_to!(entries => entries@));
                        assert(decreases_to!(entries@ => entries@[i as int]));
                        assert(decreases_to!(entries@[i as int] => entries@[i as int].1));
                    }
                    let ok = entries[i].1.display_into(out);
                    proof {
                        let es = entries@.subrange(0, i + 1);
                        let k = key_bytes(entries@[i as int].0);
                        let v = entries@[i as int].1.model();
                        assert(es.subrange(0, es.len() - 1) =~= entries@.subrange(0, i as int));
                        assert(es[es.len() - 1] == entries@[i as int]);
                        lemma_display_entries_push(before, k, v);
                        lemma_model_entries(entries@);
                        lemma_display_ok_entries_all(model_entries(entries@));
                        vstd::utf8::encode_utf8_valid_utf8(entries@[i as int].0@);
                        if ok {
                            assert(out2 =~= out1 + seq![34u8] + k + seq![34u8, 58u8]);
                            assert(out@ =~= out1 + display_entry(k, display(v)));
                        }
                    }
                    if !ok {
                        assert(model_entries(entries@)[i as int].1 == entries@[i as int].1.model());
                        proof {
                            if display_ok_entries(model_entries(entries@)) {
                                crate::model::lemma_display_ok_entries_at(
                                    model_entries(entries@),
                                    i as int,
                                );
                            }
                        }
                        assert(!display_ok_entries(model_entries(entries@)));
                        return false;
                    }
                    i = i + 1;
                    assert(out@ =~= start + seq![123u8] + display_entries(
                        model_entries(entries@.subrange(0, i as int)),
                    ));
                }
                out.push(125u8);
                assert(entries@.subrange(0, i as int) =~= entries@);
                assert(out@ =~= start + display(self@));
                true
            },
        }
    }

    /// The text that `Display` writes for this value: strings in quotes,
    /// integers in decimal, `[a,b]` for lists and `{"k":v}` for dictionaries.
    pub fn to_string(&self) -> (res: String)
        requires
            sorted_deep(self@),
            display_ok(self@),
        ensures
            res@ == decode_utf8(display(self@)),
    {
        let mut out = Vec::new();
        let ok = self.display_into(&mut out);
        proof {
            crate::model::lemma_display_valid(self@);
        }
        let s = crate::boundary::str_from_utf8(out.as_slice());
        match s {
            Some(s) => s.to_owned(),
            None => {
                assert(false);
                String::new()
            },
        }
    }

    /// What `Display` writes, or `None` where a string in the value is not
    /// UTF-8 and `Display` would panic.
    pub fn try_to_string(&self) -> (res: Option<String>)
        requires
            sorted_deep(self@),
        ensures
            match res {
                Some(t) => display_ok(self@) && t@ == decode_utf8(display(self@)),
                None => !display_ok(self@),
            },
    {
        let mut out = Vec::new();
        if !self.display_into(&mut out) {
            return None;
        }
        proof {
            crate::model::lemma_display_valid(self@);
        }
        match crate::boundary::str_from_utf8(out.as_slice()) {
            Some(s) => Some(s.to_owned()),
            None => None,
        }
    }

    /// What `value` gives, or `None` where it would panic.
    pub fn try_value(&self) -> (res: Option<String>)
        requires
            sorted_deep(self@),
        ensures
            match res {
                Some(t) => crate::model::text_ok(self@) && t@ == decode_utf8(
                    crate::model::text(self@),
                ),
                None => !crate::model::text_ok(self@),
            },
    {
        match self {
            Bencode::String(bytes) => match crate::boundary::str_from_utf8(bytes.as_slice()) {
                Some(s) => Some(s.to_owned()),
                None => None,
            },
            _ => self.try_to_string(),
        }
    }

    /// A string's own text, or else what `Display` writes.
    pub fn value(&self) -> (res: String)
        requires
            sorted_deep(self@),
            crate::model::text_ok(self@),
        ensures
            res@ == decode_utf8(crate::model::text(self@)),
    {
        match self {
            Bencode::String(bytes) => {
                match crate::boundary::str_from_utf8(bytes.as_slice()) {
                    Some(s) => s.to_owned(),
                    None => {
                        assert(false);
                        String::new()
                    },
                }
            },
            _ => self.to_string(),
        }
    }

    /// The bytes of a string; empty for any other value.
    pub fn bytes(&self) -> (res: &[u8])
        ensures
            res@ == match self@ {
                BValue::Str(s) => s,
                _ => Seq::<u8>::empty(),
            },
    {
        match self {
            Bencode::String(bytes) => bytes.as_slice(),
            _ => &[],
        }
    }

    /// The value of `key` in a dictionary, or `None` where the dictionary
    /// lacks it; any other value is its own answer.
    pub fn try_get(&self, key: &str) -> (res: Option<&Bencode>)
        ensures
            match res {
                Some(r) => lookup_ok(self@, encode_utf8(key@)) && r@ == lookup(
                    self@,
                    encode_utf8(key@),
                ) && (!(self@ is Dict) ==> r == self),
                None => !lookup_ok(self@, encode_utf8(key@)),
            },
    {
        match self {
            Bencode::Dictionary(entries) => {
                let k = key.as_bytes();
                let ghost es = model_entries(entries@);
                proof {
                    lemma_model_entries(entries@);
                }
                let mut i: usize = 0;
                while i < entries.len()
                    invariant
                        *self == Bencode::Dictionary(*entries),
                        es == model_entries(entries@),
                        es.len() == entries@.len(),
                        forall|j: int|
                            0 <= j < entries@.len() ==> #[trigger] es[j] == (
                                key_bytes(entries@[j].0),
                                entries@[j].1.model(),
                            ),
                        i <= entries@.len(),
                        k@ == encode_utf8(key@),
                        forall|j: int| 0 <= j < i ==> #[trigger] es[j].0 != k@,
                    decreases entries@.len() - i,
                {
                    if bytes_equal(entries[i].0.as_str().as_bytes(), k) {
                        proof {
                            crate::model::lemma_dict_get_skip(es, k@, i as int);
                            assert(es.subrange(i as int, es.len() as int)[0] == es[i as int]);
                        }
                        return Some(&entries[i].1);
                    }
                    assert(es[i as int].0 != k@);
                    i = i + 1;
                }
                proof {
                    crate::model::lemma_dict_get_skip(es, k@, i as int);
                    assert(es.subrange(i as int, es.len() as int).len() == 0);
                }
                None
            },
            _ => Some(self),
        }
    }

    /// The value of `key` in a dictionary; any other value is its own answer.
    pub fn get(&self, key: &str) -> (res: &Bencode)
        requires
            lookup_ok(self@, encode_utf8(key@)),
        ensures
            res@ == lookup(self@, encode_utf8(key@)),
            !(self@ is Dict) ==> res == self,
    {
        match self.try_get(key) {
            Some(r) => r,
            None => {
                assert(false);
                self
            },
        }
    }
}


impl Bencode {
    /// Decodes the value at the start of `bencoded_value`.
    pub fn decode(bencoded_value: Vec<u8>) -> (res: Bencode)
        requires
            crate::grammar::decode_spec(bencoded_value@) is Some,
        ensures
            res@ == crate::grammar::decode_spec(bencoded_value@).unwrap().0,
            crate::model::wf(res@),
            sorted_deep(res@),
    {
        crate::decoder::decode(bencoded_value).0
    }

    /// A copy of this value.
    pub fn duplicate(&self) -> (res: Bencode)
        ensures
            res@ == self@,
        decreases self,
    {
        match self {
            Bencode::String(bytes) => {
                let mut copy: Vec<u8> = Vec::new();
                push_bytes(&mut copy, bytes.as_slice());
                assert(copy@ =~= bytes@);
                Bencode::String(copy)
            },
            Bencode::Integer(n) => Bencode::Integer(*n),
            Bencode::List(values) => {
                let mut copy: Vec<Bencode> = Vec::new();
                let mut i: usize = 0;
                while i < values.len()
                    invariant
                        *self == Bencode::List(*values),
                        i <= values@.len(),
                        model_list(copy@) == model_list(values@.subrange(0, i as int)),
                    decreases values@.len() - i,
                {
                    proof {
                        assert(decreases_to!(*self => (*self)->List_0));
                        assert(decreases_to!(values => values@));
                        assert(decreases_to!(values@ => values@[i as int]));
                    }
                    let item = values[i].duplicate();
                    let ghost old_copy = copy@;
                    copy.push(item);
                    proof {
                        let vs = values@.subrange(0, i + 1);
                        assert(vs.subrange(0, vs.len() - 1) =~= values@.subrange(0, i as int));
                        assert(copy@.subrange(0, copy@.len() - 1) =~= old_copy);
                    }
                    i = i + 1;
                }
                assert(values@.subrange(0, i as int) =~= values@);
                Bencode::List(copy)
            },
            Bencode::Dictionary(entries) => {
                let mut copy: Vec<(String, Bencode)> = Vec::new();
                let mut i: usize = 0;
                while i < entries.len()
                    invariant
                        *self == Bencode::Dictionary(*entries),
                        i <= entries@.len(),
                        model_entries(copy@) == model_entries(entries@.subrange(0, i as int)),
                    decreases entries@.len() - i,
                {
                    proof {
                        assert(decreases_to!(*self => (*self)->Dictionary_0));
                        assert(decreases_to!(entries => entries@));
                        assert(decreases_to!(entries@ => entries@[i as int]));
                        assert(decreases_to!(entries@[i as int] => entries@[i as int].1));
                    }
                    let key = entries[i].0.clone();
                    let item = entries[i].1.duplicate();
                    let ghost old_copy = copy@;
                    copy.push((key, item));
                    proof {
                        let es = entries@.subrange(0, i + 1);
                        assert(es.subrange(0, es.len() - 1) =~= entries@.subrange(0, i as int));
                        assert(copy@.subrange(0, copy@.len() - 1) =~= old_copy);
                    }
                    i = i + 1;
                }
                assert(entries@.subrange(0, i as int) =~= entries@);
                Bencode::Dictionary(copy)
            },
        }
    }
}

impl Clone for Bencode {
    fn clone(&self) -> (res: Self)
        ensures
            res@ == self@,
    {
        self.duplicate()
    }
}


/// The decimal numeral of `n` as text.
pub fn decimal_text(n: u64) -> (res: String)
    ensures
        res@ == decode_utf8(decimal_nat(n as nat)),
{
    let mut out: Vec<u8> = Vec::new();
    push_decimal(&mut out, n);
    proof {
        crate::digits::lemma_decimal_nat(n as nat);
        let d = decimal_nat(n as nat);
        assert(out@ =~= d);
        assert forall|i: int| 0 <= i < d.len() implies #[trigger] d[i] < 128 by {
            assert(crate::digits::is_digit(d[i]));
        }
        crate::text::lemma_ascii_valid(d);
    }
    match crate::boundary::str_from_utf8(out.as_slice()) {
        Some(s) => s.to_owned(),
        None => {
            assert(false);
            String::new()
        },
    }
}

} // verus!
