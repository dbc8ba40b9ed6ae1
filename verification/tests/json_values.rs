use bittorrent::decode::{bencoded_text, decode_bencoded_value};
use bittorrent::metainfo::MetaInfo;

#[test]
fn decodes_a_bencoded_string_to_json() {
    assert_eq!(
        decode_bencoded_value("5:hello"),
        serde_json::Value::String("hello".to_string())
    );
    assert_eq!(
        decode_bencoded_value("3:abcdef"),
        serde_json::Value::String("abc".to_string())
    );
    assert_eq!(decode_bencoded_value("0:"), serde_json::Value::String(String::new()));
}

#[test]
fn refuses_what_decoding_panics_on() {
    assert_eq!(bencoded_text("10:hello"), None);
    assert_eq!(bencoded_text("hello"), None);
    assert_eq!(bencoded_text(""), None);
    assert_eq!(bencoded_text("5hello"), None);
    assert_eq!(bencoded_text("1:\u{e9}"), None);
    assert_eq!(bencoded_text("2:\u{e9}"), Some("\u{e9}".to_string()));
}

#[test]
fn metainfo_reads_announce_and_length() {
    let json: serde_json::Value = serde_json::from_str(
        "{\"announce\":\"http://t.example/announce\",\"info\":{\"length\":92063,\"name\":\"x\"}}",
    )
    .unwrap();
    let info = MetaInfo::from_json(json);
    assert_eq!(info.announce, "http://t.example/announce");
    assert_eq!(info.length, "92063");
}

#[test]
fn metainfo_length_is_json_text() {
    let json: serde_json::Value =
        serde_json::from_str("{\"announce\":\"a\",\"info\":{\"length\":\"ten\"}}").unwrap();
    let info = MetaInfo::from_json(json);
    assert_eq!(info.length, "\"ten\"");
}

#[test]
fn metainfo_is_refused_without_announce_or_length() {
    let ok: serde_json::Value =
        serde_json::from_str("{\"announce\":\"a\",\"info\":{\"length\":3}}").unwrap();
    let info = MetaInfo::try_from_json(ok).unwrap();
    assert_eq!(info.announce, "a");
    assert_eq!(info.length, "3");
    for text in [
        "{\"info\":{\"length\":3}}",
        "{\"announce\":7,\"info\":{\"length\":3}}",
        "{\"announce\":\"a\",\"info\":{}}",
        "{\"announce\":\"a\"}",
        "[]",
    ] {
        let json: serde_json::Value = serde_json::from_str(text).unwrap();
        assert!(MetaInfo::try_from_json(json).is_none());
    }
}
