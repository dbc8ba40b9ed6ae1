use bittorrent::bencode::Bencode;
use bittorrent::torrent::Torrent;

fn pieces() -> Vec<u8> {
    (0u8..60).collect()
}

fn info_bytes() -> Vec<u8> {
    let mut info = b"d6:lengthi92063e4:name10:sample.txt12:piece lengthi32768e6:pieces60:".to_vec();
    info.extend(pieces());
    info.push(b'e');
    info
}

fn torrent_bytes(announce: &str) -> Vec<u8> {
    let mut bytes = format!("d8:announce{}:{}4:info", announce.len(), announce).into_bytes();
    bytes.extend(info_bytes());
    bytes.push(b'e');
    bytes
}

fn sample() -> Torrent {
    let data = Bencode::decode(torrent_bytes("http://tracker.example.com/announce"));
    Torrent::from(&data)
}

#[test]
fn reads_lengths() {
    let torrent = sample();
    assert_eq!(torrent.length(), 92063);
    assert_eq!(torrent.piece_length(), 32768);
    assert_eq!(torrent.try_length(), Some(92063));
}

#[test]
fn info_hash_is_the_sha1_of_the_encoded_info() {
    let torrent = sample();
    assert_eq!(
        hex::encode(torrent.info_hash()),
        "f519c3a24144a8649e58efc3e359b51a386054d6"
    );
}

#[test]
fn piece_hashes_are_twenty_byte_chunks_in_hex() {
    let torrent = sample();
    assert_eq!(torrent.pieces(), pieces().as_slice());
    let hashes = torrent.piece_hashes();
    assert_eq!(hashes.len(), 3);
    assert_eq!(hashes[0], hex::encode(&pieces()[0..20]));
    assert_eq!(hashes[1], "1415161718191a1b1c1d1e1f2021222324252627");
    assert_eq!(hashes[2], hex::encode(&pieces()[40..60]));
}

#[test]
fn last_piece_hash_may_be_short() {
    let data = Bencode::decode(b"d8:announce1:x4:infod6:pieces25:abcdefghijklmnopqrstuvwxyee".to_vec());
    let torrent = Torrent::from(&data);
    let hashes = torrent.piece_hashes();
    assert_eq!(hashes.len(), 2);
    assert_eq!(hashes[1], "7576777879");
}

#[test]
fn tracker_url_carries_the_query_and_the_info_hash() {
    let torrent = sample();
    assert_eq!(
        torrent.tracker_url().unwrap(),
        "http://tracker.example.com/announce?peer_id=12345678901234567890&port=6881&uploaded=0&downloaded=0&left=92063&compact=1&info_hash=%F5%19%C3%A2AD%A8d%9EX%EF%C3%E3Y%B5%1A8%60T%D6"
    );
}

#[test]
fn tracker_url_of_an_unparsable_announce_is_refused() {
    let data = Bencode::decode(torrent_bytes("not a url"));
    let torrent = Torrent::from(&data);
    assert!(torrent.tracker_url().is_none());
}

#[test]
fn length_that_does_not_read_as_u32_is_refused() {
    let data = Bencode::decode(b"d8:announce1:x4:infod6:lengthi-5e12:piece length3:abcee".to_vec());
    let torrent = Torrent::from(&data);
    assert_eq!(torrent.try_length(), None);
    assert_eq!(torrent.try_piece_length(), None);
    assert!(torrent.tracker_url().is_none());
    assert!(torrent.print_lines().is_none());
    assert!(torrent.try_piece_hashes().is_none());
}

#[test]
fn length_given_as_text_is_read() {
    let data = Bencode::decode(b"d8:announce1:x4:infod6:length3:+12ee".to_vec());
    let torrent = Torrent::from(&data);
    assert_eq!(torrent.length(), 12);
}

#[test]
fn print_lines_list_the_metadata() {
    let torrent = sample();
    let lines = torrent.print_lines().unwrap();
    assert_eq!(lines.len(), 8);
    assert_eq!(lines[0], "Tracker URL: http://tracker.example.com/announce");
    assert_eq!(lines[1], "Length: 92063");
    assert_eq!(lines[2], "Info Hash: f519c3a24144a8649e58efc3e359b51a386054d6");
    assert_eq!(lines[3], "Piece Length: 32768");
    assert_eq!(lines[4], "Piece Hashes:");
    assert_eq!(lines[6], "1415161718191a1b1c1d1e1f2021222324252627");
}

#[test]
fn peer_addresses_read_the_compact_list() {
    let mut reply = b"d8:intervali900e5:peers12:".to_vec();
    reply.extend([127, 0, 0, 1, 0x1A, 0xE1, 10, 0, 0, 2, 0, 80]);
    reply.push(b'e');
    let peers = Torrent::peer_addresses(&reply).unwrap();
    assert_eq!(peers, vec!["127.0.0.1:6881".to_string(), "10.0.0.2:80".to_string()]);
}

#[test]
fn peer_addresses_refuse_bad_replies() {
    assert!(Torrent::peer_addresses(b"d8:intervali900ee").is_none());
    assert!(Torrent::peer_addresses(b"d5:peers7:abcdefge").is_none());
    assert!(Torrent::peer_addresses(b"garbage").is_none());
    assert_eq!(Torrent::peer_addresses(b"i5e").unwrap(), Vec::<String>::new());
}

#[test]
fn clone_keeps_the_torrent() {
    let torrent = sample();
    let copy = torrent.clone();
    assert_eq!(copy.info_hash(), torrent.info_hash());
    assert_eq!(copy.length(), 92063);
}
