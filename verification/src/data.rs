//! `DataValue`: bencoded values whose integers are natural numbers.
use vstd::prelude::*;
use vstd::utf8::{decode_utf8, encode_utf8};
use crate::bencode::{bytes_equal, key_bytes, push_bytes, push_decimal, push_encoded_str};
use crate::grammar::data_decode_spec;
use crate::roundtrip::law_data_decode_encode;
use crate::model::{
    data_display, data_display_ok, dict_get, encode, encode_entries, encode_list,
    lemma_data_display_valid, lemma_dict_get_skip, lemma_encode_entries_push,
    lemma_encode_entries_parts, lemma_encode_list_parts, lemma_encode_list_push,
    lemma_sorted_deep_entries_all, lemma_sorted_deep_list_all, lemma_wf_entries_all_in,
    lemma_wf_list_all_in, lookup, lookup_ok, sorted_deep, wf_entry_in, wf_in, BValue,
};

verus! {

/// A bencoded value whose integers are natural numbers.
pub enum DataValue {
    Dictionary(Vec<(String, DataValue)>),
    List(Vec<DataValue>),
    String(Vec<u8>),
    Integer(usize),
}

impl DataValue {
    pub open spec fn model(self) -> BValue
        decreases self,
    {
        match self {
            DataValue::Dictionary(es) => BValue::Dict(data_entries(es@)),
            DataValue::List(vs) => BValue::List(data_list(vs@)),
            DataValue::String(s) => BValue::Str(s@),
            DataValue::Integer(n) => BValue::Int(n as int),
        }
    }
}

pub open spec fn data_list(vs: Seq<DataValue>) -> Seq<BValue>
    decreases vs,
{
    if vs.len() == 0 {
        seq![]
    } else {
        data_list(vs.subrange(0, vs.len() - 1)).push(vs[vs.len() - 1].model())
    }
}

pub open spec fn data_entries(es: Seq<(String, DataValue)>) -> Seq<(Seq<u8>, BValue)>
    decreases es,
{
    if es.len() == 0 {
        seq![]
    } else {
        data_entries(es.subrange(0, es.len() - 1)).push(
            (key_bytes(es[es.len() - 1].0), es[es.len() - 1].1.model()),
        )
    }
}

impl View for DataValue {
    type V = BValue;

    open spec fn view(&self) -> BValue {
        self.model()
    }
}

pub proof fn lemma_data_list(vs: Seq<DataValue>)
    ensures
        data_list(vs).len() == vs.len(),
        forall|i: int| 0 <= i < vs.len() ==> #[trigger] data_list(vs)[i] == vs[i].model(),
    decreases vs.len(),
{
    if vs.len() > 0 {
        let init = vs.subrange(0, vs.len() - 1);
        lemma_data_list(init);
        assert forall|i: int| 0 <= i < vs.len() implies #[trigger] data_list(vs)[i]
            == vs[i].model() by {
            if i < vs.len() - 1 {
                assert(init[i] == vs[i]);
            }
        }
    }
}

pub proof fn lemma_data_entries(es: Seq<(String, DataValue)>)
    ensures
        data_entries(es).len() == es.len(),
        forall|i: int|
            0 <= i < es.len() ==> #[trigger] data_entries(es)[i] == (
                key_bytes(es[i].0),
                es[i].1.model(),
            ),
    decreases es.len(),
{
    if es.len() > 0 {
        let init = es.subrange(0, es.len() - 1);
        lemma_data_entries(init);
        assert forall|i: int| 0 <= i < es.len() implies #[trigger] data_entries(es)[i] == (
            key_bytes(es[i].0),
            es[i].1.model(),
        ) by {
            if i < es.len() - 1 {
                assert(init[i] == es[i]);
            }
        }
    }
}

/// A `DataValue` whose dictionaries keep their keys in order, and whose
/// encoding fits in memory, is well-formed with integers read as `usize`.
pub proof fn lemma_data_wf(d: DataValue)
    requires
        sorted_deep(d@),
        encode(d@).len() <= usize::MAX,
    ensures
        wf_in(d@, true),
    decreases d,
{
    match d {
        DataValue::List(vs) => {
            let ml = data_list(vs@);
            lemma_data_list(vs@);
            lemma_sorted_deep_list_all(ml);
            lemma_encode_list_parts(ml);
            lemma_wf_list_all_in(ml, true);
            assert forall|i: int| 0 <= i < ml.len() implies wf_in(#[trigger] ml[i], true) by {
                assert(ml[i] == vs@[i]@);
                assert(decreases_to!(d => vs));
                assert(decreases_to!(vs => vs@));
                assert(decreases_to!(vs@ => vs@[i]));
                lemma_data_wf(vs@[i]);
            }
        },
        DataValue::Dictionary(es) => {
            let me = data_entries(es@);
            lemma_data_entries(es@);
            lemma_sorted_deep_entries_all(me);
            lemma_encode_entries_parts(me);
            lemma_wf_entries_all_in(me, true);
            assert forall|i: int| 0 <= i < me.len() implies wf_entry_in(#[trigger] me[i], true) by {
                assert(me[i] == (key_bytes(es@[i].0), es@[i].1@));
                vstd::utf8::encode_utf8_valid_utf8(es@[i].0@);
                assert(decreases_to!(d => es));
                assert(decreases_to!(es => es@));
                assert(decreases_to!(es@ => es@[i]));
                assert(decreases_to!(es@[i] => es@[i].1));
                lemma_data_wf(es@[i].1);
            }
        },
        _ => {},
    }
}

impl DataValue {
    /// Decodes the value at the start of `bencoded_value`.
    pub fn decode(bencoded_value: Vec<u8>) -> (res: DataValue)
        requires
            data_decode_spec(bencoded_value@) is Some,
        ensures
            res@ == data_decode_spec(bencoded_value@).unwrap().0,
            wf_in(res@, true),
            sorted_deep(res@),
    {
        match DataValue::try_decode(bencoded_value.as_slice()) {
            Some(d) => d,
            None => {
                assert(false);
                DataValue::Integer(0)
            },
        }
    }

    /// Decodes the value at the start of `bytes`; `None` where the bytes do
    /// not hold one and `decode` would panic. What it gives back is
    /// well-formed: its dictionaries keep their keys in increasing order.
    pub fn try_decode(bytes: &[u8]) -> (res: Option<DataValue>)
        ensures
            match res {
                Some(d) => data_decode_spec(bytes@) matches Some((v, rest)) && d@ == v,
                None => data_decode_spec(bytes@) is None,
            },
            res matches Some(d) ==> wf_in(d@, true) && sorted_deep(d@),
    {
        match crate::data_decoder::try_decode(bytes) {
            Some((v, rest)) => Some(v),
            None => None,
        }
    }

    /// The value of `key` in a dictionary, or `None` where the dictionary
    /// lacks it; any other value is its own answer.
    pub fn try_get(&self, key: &str) -> (res: Option<&DataValue>)
        ensures
            match res {
                Some(r) => lookup_ok(self@, encode_utf8(key@)) && r@ == lookup(
                    self@,
                    encode_utf8(key@),
                ),
                None => !lookup_ok(self@, encode_utf8(key@)),
            },
    {
        match self {
            DataValue::Dictionary(entries) => {
                let k = key.as_bytes();
                let ghost es = data_entries(entries@);
                proof {
                    lemma_data_entries(entries@);
                }
                let mut i: usize = 0;
                while i < entries.len()
                    invariant
                        *self == DataValue::Dictionary(*entries),
                        es == data_entries(entries@),
                        es.len() == entries@.len(),
                        forall|j: int|
                            0 <= j < entries@.len() ==> #[trigger] es[j] == (
                                key_bytes(entries@[j].0),
                                entries@[j].1.model(),
                            ),
                        i <= entries@.len(),
                        k@ == encode_utf8(key@),
                        forall|j: int| 0 <= j < i ==> #[trigger] es[j].0 != k@,
                    decreases entries@.len() - i,
                {
                    if bytes_equal(entries[i].0.as_str().as_bytes(), k) {
                        proof {
                            lemma_dict_get_skip(es, k@, i as int);
                            assert(es.subrange(i as int, es.len() as int)[0] == es[i as int]);
                        }
                        return Some(&entries[i].1);
                    }
                    assert(es[i as int].0 != k@);
                    i = i + 1;
                }
                proof {
                    lemma_dict_get_skip(es, k@, i as int);
                    assert(es.subrange(i as int, es.len() as int).len() == 0);
                }
                None
            },
            _ => Some(self),
        }
    }

    /// The value of `key` in a dictionary; any other value is its own answer.
    pub fn get(&self, key: &str) -> (res: &DataValue)
        requires
            lookup_ok(self@, encode_utf8(key@)),
        ensures
            res@ == lookup(self@, encode_utf8(key@)),
    {
        match self.try_get(key) {
            Some(r) => r,
            None => {
                assert(false);
                self
            },
        }
    }

    /// The bencoding of this value.
    pub fn encode(&self) -> (res: Vec<u8>)
        requires
            sorted_deep(self@),
        ensures
            res@ == encode(self@),
            forall|rest: Seq<u8>| #[trigger] data_decode_spec(res@ + rest) == Some((self@, rest)),
    {
        let mut out = Vec::new();
        self.encode_into(&mut out);
        assert(out@ =~= encode(self@));
        proof {
            assert(out@.len() == out.len());
            lemma_data_wf(*self);
            assert forall|rest: Seq<u8>| #[trigger] data_decode_spec(out@ + rest) == Some(
                (self@, rest),
            ) by {
                law_data_decode_encode(self@, rest);
            }
        }
        out
    }

    fn encode_into(&self, out: &mut Vec<u8>)
        ensures
            final(out)@ == old(out)@ + encode(self@),
        decreases self,
    {
        match self {
            DataValue::Dictionary(entries) => {
                let ghost start = out@;
                out.push(100u8);
                let mut i: usize = 0;
                while i < entries.len()
                    invariant
                        *self == DataValue::Dictionary(*entries),
                        i <= entries@.len(),
                        out@ == start + seq![100u8] + encode_entries(
                            data_entries(entries@.subrange(0, i as int)),
                        ),
                    decreases entries@.len() - i,
                {
                    let key = entries[i].0.as_str().as_bytes();
                    push_encoded_str(out, key);
                    proof {
                        assert(decreases_to!(*self => (*self)->Dictionary_0));
                        assert(decreases_to!(entries => entries@));
                        assert(decreases_to!(entries@ => entries@[i as int]));
                        assert(decreases_to!(entries@[i as int] => entries@[i as int].1));
                    }
                    entries[i].1.encode_into(out);
                    proof {
                        let es = entries@.subrange(0, i + 1);
                        assert(es.subrange(0, es.len() - 1) =~= entries@.subrange(0, i as int));
                        assert(es[es.len() - 1] == entries@[i as int]);
                        lemma_encode_entries_push(
                            data_entries(entries@.subrange(0, i as int)),
                            key_bytes(entries@[i as int].0),
                            entries@[i as int].1.model(),
                        );
                    }
                    i = i + 1;
                    assert(out@ =~= start + seq![100u8] + encode_entries(
                        data_entries(entries@.subrange(0, i as int)),
                    ));
                }
                out.push(101u8);
                assert(entries@.subrange(0, i as int) =~= entries@);
                assert(out@ =~= start + encode(self@));
            },
            DataValue::List(values) => {
                let ghost start = out@;
                out.push(108u8);
                let mut i: usize = 0;
                while i < values.len()
                    invariant
                        *self == DataValue::List(*values),
                        i <= values@.len(),
                        out@ == start + seq![108u8] + encode_list(
                            data_list(values@.subrange(0, i as int)),
                        ),
                    decreases values@.len() - i,
                {
                    proof {
                        assert(decreases_to!(*self => (*self)->List_0));
                        assert(decreases_to!(values => values@));
                        assert(decreases_to!(values@ => values@[i as int]));
                    }
                    values[i].encode_into(out);
                    proof {
                        let vs = values@.subrange(0, i + 1);
                        assert(vs.subrange(0, vs.len() - 1) =~= values@.subrange(0, i as int));
                        assert(vs[vs.len() - 1] == values@[i as int]);
                        lemma_encode_list_push(
                            data_list(values@.subrange(0, i as int)),
                            values@[i as int].model(),
                        );
                    }
                    i = i + 1;
                    assert(out@ =~= start + seq![108u8] + encode_list(
                        data_list(values@.subrange(0, i as int)),
                    ));
                }
                out.push(101u8);
                assert(values@.subrange(0, i as int) =~= values@);
                assert(out@ =~= start + encode(self@));
            },
            DataValue::String(bytes) => {
                push_encoded_str(out, bytes.as_slice());
            },
            DataValue::Integer(number) => {
                let ghost start = out@;
                out.push(105u8);
                push_decimal(out, *number as u64);
                out.push(101u8);
                assert(out@ =~= start + encode(self@));
            },
        }
    }

    /// What `Display` writes: a string's own text, an integer in decimal,
    /// `List` for a list and `{}` for a dictionary.
    pub fn to_string(&self) -> (res: String)
        requires
            data_display_ok(self@),
        ensures
            res@ == decode_utf8(data_display(self@)),
    {
        let mut out: Vec<u8> = Vec::new();
        match self {
            DataValue::String(bytes) => {
                push_bytes(&mut out, bytes.as_slice());
            },
            DataValue::Integer(number) => {
                push_decimal(&mut out, *number as u64);
            },
            DataValue::List(_) => {
                out.push(76u8);
                out.push(105u8);
                out.push(115u8);
                out.push(116u8);
            },
            DataValue::Dictionary(_) => {
                out.push(123u8);
                out.push(125u8);
            },
        }
        assert(out@ =~= data_display(self@));
        proof {
            lemma_data_display_valid(self@);
        }
        match crate::boundary::str_from_utf8(out.as_slice()) {
            Some(s) => s.to_owned(),
            None => {
                assert(false);
                String::new()
            },
        }
    }

    /// What `Display` writes, or `None` where this is a string that is not UTF-8.
    pub fn try_to_string(&self) -> (res: Option<String>)
        ensures
            match res {
                Some(t) => data_display_ok(self@) && t@ == decode_utf8(data_display(self@)),
                None => !data_display_ok(self@),
            },
    {
        match self {
            DataValue::String(bytes) => {
                if crate::boundary::str_from_utf8(bytes.as_slice()).is_none() {
                    return None;
                }
            },
            _ => {},
        }
        Some(self.to_string())
    }

    /// A copy of this value.
    pub fn duplicate(&self) -> (res: DataValue)
        ensures
            res@ == self@,
        decreases self,
    {
        match self {
            DataValue::String(bytes) => {
                let mut copy: Vec<u8> = Vec::new();
                push_bytes(&mut copy, bytes.as_slice());
                assert(copy@ =~= bytes@);
                DataValue::String(copy)
            },
            DataValue::Integer(n) => DataValue::Integer(*n),
            DataValue::List(values) => {
                let mut copy: Vec<DataValue> = Vec::new();
                let mut i: usize = 0;
                while i < values.len()
                    invariant
                        *self == DataValue::List(*values),
                        i <= values@.len(),
                        data_list(copy@) == data_list(values@.subrange(0, i as int)),
                    decreases values@.len() - i,
                {
                    proof {
                        assert(decreases_to!(*self => (*self)->List_0));
                        assert(decreases_to!(values => values@));
                        assert(decreases_to!(values@ => values@[i as int]));
                    }
                    let item = values[i].duplicate();
                    let ghost old_copy = copy@;
                    copy.push(item);
                    proof {
                        let vs = values@.subrange(0, i + 1);
                        assert(vs.subrange(0, vs.len() - 1) =~= values@.subrange(0, i as int));
                        assert(copy@.subrange(0, copy@.len() - 1) =~= old_copy);
                    }
                    i = i + 1;
                }
                assert(values@.subrange(0, i as int) =~= values@);
                DataValue::List(copy)
            },
            DataValue::Dictionary(entries) => {
                let mut copy: Vec<(String, DataValue)> = Vec::new();
                let mut i: usize = 0;
                while i < entries.len()
                    invariant
                        *self == DataValue::Dictionary(*entries),
                        i <= entries@.len(),
                        data_entries(copy@) == data_entries(entries@.subrange(0, i as int)),
                    decreases entries@.len() - i,
                {
                    proof {
                        assert(decreases_to!(*self => (*self)->Dictionary_0));
                        assert(decreases_to!(entries => entries@));
                        assert(decreases_to!(entries@ => entries@[i as int]));
                        assert(decreases_to!(entries@[i as int] => entries@[i as int].1));
                    }
                    let key = entries[i].0.clone();
                    let item = entries[i].1.duplicate();
                    let ghost old_copy = copy@;
                    copy.push((key, item));
                    proof {
                        let es = entries@.subrange(0, i + 1);
                        assert(es.subrange(0, es.len() - 1) =~= entries@.subrange(0, i as int));
                        assert(copy@.subrange(0, copy@.len() - 1) =~= old_copy);
                    }
                    i = i + 1;
                }
                assert(entries@.subrange(0, i as int) =~= entries@);
                DataValue::Dictionary(copy)
            },
        }
    }
}

impl Clone for DataValue {
    fn clone(&self) -> (res: Self)
        ensures
            res@ == self@,
    {
        self.duplicate()
    }
}

} // verus!
