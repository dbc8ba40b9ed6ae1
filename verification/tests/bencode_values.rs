use bittorrent::bencode::Bencode;
use bittorrent::decoder::{decode, list, try_decode};

fn parse(text: &[u8]) -> Bencode {
    Bencode::decode(text.to_vec())
}

fn shown(value: &Bencode) -> String {
    value.to_string()
}

#[test]
fn decodes_a_string() {
    let value = parse(b"5:hello");
    assert_eq!(value.bytes(), b"hello");
    assert_eq!(value.value(), "hello");
    assert_eq!(shown(&value), "\"hello\"");
}

#[test]
fn decode_returns_the_rest() {
    let (value, rest) = decode(b"5:hello world".to_vec());
    assert_eq!(value.bytes(), b"hello");
    assert_eq!(rest, b" world".to_vec());
}

#[test]
fn decodes_integers() {
    assert_eq!(shown(&parse(b"i52e")), "52");
    assert_eq!(shown(&parse(b"i-52e")), "-52");
    assert_eq!(shown(&parse(b"i+7e")), "7");
    assert_eq!(shown(&parse(b"i-0e")), "0");
    assert_eq!(shown(&parse(b"i007e")), "7");
    assert_eq!(parse(b"i42e").value(), "42");
}

#[test]
fn integer_without_end_takes_the_rest() {
    let (value, rest) = decode(b"i12".to_vec());
    assert_eq!(shown(&value), "12");
    assert!(rest.is_empty());
}

#[test]
fn zero_length_string_without_colon() {
    let (value, rest) = decode(b"0".to_vec());
    assert_eq!(value.bytes(), b"");
    assert!(rest.is_empty());
}

#[test]
fn decodes_lists() {
    let value = parse(b"l5:helloi52ee");
    assert_eq!(shown(&value), "[\"hello\",52]");
    assert_eq!(shown(&parse(b"le")), "[]");
    assert_eq!(shown(&parse(b"lli1ei2eelee")), "[[1,2],[]]");
}

#[test]
fn decodes_dictionaries_in_key_order() {
    let value = parse(b"d3:foo3:bar5:helloi52ee");
    assert_eq!(shown(&value), "{\"foo\":\"bar\",\"hello\":52}");
    let value = parse(b"d1:b1:x1:a1:ye");
    assert_eq!(shown(&value), "{\"a\":\"y\",\"b\":\"x\"}");
    assert_eq!(value.encode(), b"d1:a1:y1:b1:xe".to_vec());
}

#[test]
fn earlier_duplicate_key_wins() {
    let value = parse(b"d1:ai1e1:ai2ee");
    assert_eq!(shown(&value), "{\"a\":1}");
}

#[test]
fn odd_dictionary_drops_the_first_item() {
    let value = parse(b"d1:ai1e1:be");
    assert_eq!(shown(&value), "{\"1\":\"b\"}");
}

#[test]
fn non_string_keys_use_their_text() {
    let value = parse(b"dli1ei2ee1:xe");
    assert_eq!(shown(&value), "{\"[1,2]\":\"x\"}");
    assert_eq!(value.get("[1,2]").bytes(), b"x");
}

#[test]
fn malformed_input_is_refused() {
    for bad in [
        &b""[..],
        b"x",
        b"l",
        b"i-e",
        b"ie",
        b"i1x2e",
        b"5:ab",
        b"3",
        b"d",
        b"i99999999999999999999999e",
        b"1a:b",
    ] {
        assert!(try_decode(bad).is_none(), "{:?}", bad);
    }
}

#[test]
fn dictionary_with_invalid_utf8_key_is_refused() {
    assert!(try_decode(b"d1:\xffi1ee").is_none());
}

#[test]
fn encodes_every_kind() {
    let value = Bencode::List(vec![
        Bencode::Integer(-42),
        Bencode::String(b"spam".to_vec()),
        Bencode::Dictionary(vec![("k".to_string(), Bencode::List(vec![]))]),
    ]);
    assert_eq!(value.encode(), b"li-42e4:spamd1:kleee".to_vec());
}

#[test]
fn encode_then_decode_gives_back_the_value() {
    let text = b"d4:infod6:lengthi10e4:name3:abce4:listli-1e0:ee".to_vec();
    let value = parse(&text);
    assert_eq!(value.encode(), text);
    let again = parse(&value.encode());
    assert_eq!(shown(&again), shown(&value));
}

#[test]
fn get_finds_entries_and_passes_through_other_values() {
    let value = parse(b"d3:cow3:moo4:spam4:eggse");
    assert_eq!(value.get("cow").bytes(), b"moo");
    assert_eq!(value.get("spam").value(), "eggs");
    assert!(value.try_get("missing").is_none());
    let number = parse(b"i3e");
    assert_eq!(shown(number.get("anything")), "3");
}

#[test]
fn bytes_of_non_strings_are_empty() {
    assert_eq!(parse(b"i3e").bytes(), b"");
    assert_eq!(parse(b"le").bytes(), b"");
}

#[test]
fn text_of_invalid_utf8_is_refused() {
    let value = parse(b"1:\xff");
    assert_eq!(value.bytes(), b"\xff");
    assert!(value.try_to_string().is_none());
    assert!(value.try_value().is_none());
    let nested = parse(b"l1:\xffe");
    assert!(nested.try_to_string().is_none());
}

#[test]
fn clone_keeps_the_value() {
    let value = parse(b"d1:al1:bi2eee");
    let copy = value.clone();
    assert_eq!(copy.encode(), value.encode());
}

#[test]
fn list_reads_items_up_to_the_first_closing_e() {
    let bytes = b"li1e3:abcei9e";
    let (value, end) = list(bytes, 1).unwrap();
    assert_eq!(end, 10);
    assert_eq!(value.encode(), b"li1e3:abce".to_vec());
    assert!(list(b"li1e", 1).is_none());
}

#[test]
fn encoding_then_decoding_ignores_what_follows() {
    let value = Bencode::List(vec![Bencode::Integer(-3), Bencode::String(b"xy".to_vec())]);
    let mut bytes = value.encode();
    bytes.extend(b"trailing");
    let (again, rest) = decode(bytes);
    assert_eq!(again.encode(), value.encode());
    assert_eq!(rest, b"trailing".to_vec());
}
