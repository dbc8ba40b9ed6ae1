use bittorrent::data::DataValue;
use bittorrent::info::Info;
use bittorrent::peers::{compact_peers, reply_peers, tracker_url, Peer};

fn torrent_bytes() -> Vec<u8> {
    let mut bytes = b"d8:announce35:http://tracker.example.com/announce4:info".to_vec();
    bytes.extend(b"d6:lengthi92063e4:name10:sample.txt12:piece lengthi32768e6:pieces60:");
    bytes.extend(0u8..60);
    bytes.extend(b"ee");
    bytes
}

#[test]
fn data_values_decode_and_show() {
    let value = DataValue::decode(b"d3:cow3:moo4:listli1ee3:numi42ee".to_vec());
    assert_eq!(value.get("cow").to_string(), "moo");
    assert_eq!(value.get("list").to_string(), "List");
    assert_eq!(value.get("num").to_string(), "42");
    assert_eq!(value.to_string(), "{}");
    assert_eq!(value.encode(), b"d3:cow3:moo4:listli1ee3:numi42ee".to_vec());
    assert!(value.try_get("missing").is_none());
}

#[test]
fn negative_integers_do_not_fit_a_data_value() {
    assert!(DataValue::try_decode(b"i-1e").is_none());
    assert!(DataValue::try_decode(b"li1ei-2ee").is_none());
    assert!(DataValue::try_decode(b"x").is_none());
}

#[test]
fn data_value_encoding_and_clone() {
    let value = DataValue::List(vec![DataValue::Integer(7), DataValue::String(b"ab".to_vec())]);
    assert_eq!(value.encode(), b"li7e2:abe".to_vec());
    assert_eq!(value.clone().encode(), value.encode());
    assert!(DataValue::String(vec![0xff]).try_to_string().is_none());
}

#[test]
fn info_reads_the_torrent() {
    let data = DataValue::decode(torrent_bytes());
    let info = Info::from(&data);
    assert_eq!(hex::encode(info.info_hash()), "f519c3a24144a8649e58efc3e359b51a386054d6");
    assert_eq!(info.length(), "92063");
    let lines = info.print_lines().unwrap();
    assert_eq!(lines.len(), 8);
    assert_eq!(lines[0], "Tracker URL: http://tracker.example.com/announce");
    assert_eq!(lines[1], "Length: 92063");
    assert_eq!(lines[3], "Piece Length: 32768");
    assert_eq!(lines[7], "28292a2b2c2d2e2f303132333435363738393a3b");
}

#[test]
fn info_lists_one_empty_hash_line_for_no_pieces() {
    let data = DataValue::decode(b"d8:announce1:x4:infod6:lengthi1e12:piece lengthi1e6:pieces0:ee".to_vec());
    let info = Info::from(&data);
    assert_eq!(info.piece_hash_lines(), vec![String::new()]);
    let lines = info.print_lines().unwrap();
    assert_eq!(lines.len(), 6);
    assert_eq!(lines[5], "");
}

#[test]
fn compact_peers_are_six_bytes_each() {
    let peers = compact_peers(&[127, 0, 0, 1, 0x1A, 0xE1]).unwrap();
    assert_eq!(peers.len(), 1);
    assert_eq!(peers[0].ip, [127, 0, 0, 1]);
    assert_eq!(peers[0].port, 6881);
    assert_eq!(peers[0].address(), "127.0.0.1:6881");
    assert!(compact_peers(&[1, 2, 3, 4, 5, 6, 7]).is_none());
    assert!(compact_peers(&[]).unwrap().is_empty());
}

#[test]
fn address_writes_dotted_decimal() {
    let peer = Peer { ip: [255, 10, 0, 9], port: 65535 };
    assert_eq!(peer.address(), "255.10.0.9:65535");
}

#[test]
fn reply_peers_read_a_data_value_reply() {
    let mut reply = b"d8:intervali900e5:peers6:".to_vec();
    reply.extend([192, 168, 1, 2, 0, 80]);
    reply.push(b'e');
    let peers = reply_peers(&reply).unwrap();
    assert_eq!(peers[0].ip, [192, 168, 1, 2]);
    assert_eq!(peers[0].port, 80);
    assert!(reply_peers(b"d8:intervali-1e5:peers0:e").is_none());
}

#[test]
fn tracker_url_of_a_data_value() {
    let data = DataValue::decode(torrent_bytes());
    assert_eq!(
        tracker_url(&data).unwrap(),
        "http://tracker.example.com/announce?peer_id=12345678901234567890&port=6881&uploaded=0&downloaded=0&left=92063&compact=1&info_hash=%F5%19%C3%A2AD%A8d%9EX%EF%C3%E3Y%B5%1A8%60T%D6"
    );
    let missing = DataValue::decode(b"d4:infod6:lengthi1eee".to_vec());
    assert!(tracker_url(&missing).is_none());
}

#[test]
fn data_values_hold_integers_up_to_usize_max() {
    let text = format!("i{}e", usize::MAX);
    let value = DataValue::decode(text.as_bytes().to_vec());
    assert!(matches!(value, DataValue::Integer(n) if n == usize::MAX));
    assert_eq!(value.encode(), text.as_bytes().to_vec());
    let too_big = format!("i{}0e", usize::MAX);
    assert!(DataValue::try_decode(too_big.as_bytes()).is_none());
    assert!(DataValue::try_decode(b"i+7e").is_some());
}

#[test]
fn data_value_keys_that_are_not_strings_use_their_display_text() {
    let value = DataValue::decode(b"dli1ei2ee3:onei7e1:ae".to_vec());
    assert_eq!(value.get("List").to_string(), "one");
    assert_eq!(value.get("7").to_string(), "a");
}

#[test]
fn data_value_encoding_decodes_back() {
    let value = DataValue::Dictionary(vec![
        ("a".to_string(), DataValue::Integer(usize::MAX)),
        ("b".to_string(), DataValue::List(vec![DataValue::String(b"x".to_vec())])),
    ]);
    let again = DataValue::decode(value.encode());
    assert_eq!(again.encode(), value.encode());
}
