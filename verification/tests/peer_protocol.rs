use sha1::Digest;
use bittorrent::download::{assemble_file, PieceTable};
use bittorrent::handshake::{handshake_message, peer_id};
use bittorrent::peer::{Peer, PieceDownload, PieceStatus, BLOCK_SIZE};

#[test]
fn messages_are_framed_with_their_length() {
    assert_eq!(Peer::prepare_message(2, vec![]), vec![0, 0, 0, 1, 2]);
    assert_eq!(
        Peer::prepare_message(6, vec![9, 8, 7]),
        vec![0, 0, 0, 4, 6, 9, 8, 7]
    );
}

#[test]
fn message_length_reads_big_endian() {
    assert_eq!(Peer::message_length(&[0, 0, 1, 0]), 256);
    assert_eq!(Peer::message_length(&[1, 2, 3, 4]), 0x01020304);
}

#[test]
fn has_id_checks_the_first_byte() {
    assert!(Peer::has_id(&[5, 1, 2], 5));
    assert!(!Peer::has_id(&[1], 5));
    assert!(!Peer::has_id(&[], 5));
}

#[test]
fn handshake_message_layout() {
    let hash: Vec<u8> = (1..=20).collect();
    let message = handshake_message(&hash);
    assert_eq!(message.len(), 68);
    assert_eq!(message[0], 19);
    assert_eq!(&message[1..20], b"BitTorrent protocol");
    assert_eq!(&message[20..28], &[0u8; 8]);
    assert_eq!(&message[28..48], hash.as_slice());
    assert_eq!(&message[48..68], &[0u8; 20]);
}

#[test]
fn peer_id_is_the_last_twenty_bytes_in_hex() {
    let mut reply = vec![0u8; 48];
    reply.extend(0xa0u8..0xb4);
    assert_eq!(peer_id(&reply), "a0a1a2a3a4a5a6a7a8a9aaabacadaeafb0b1b2b3");
}

fn request(index: u32, begin: u32, length: u32) -> Vec<u8> {
    let mut payload = Vec::new();
    payload.extend(index.to_be_bytes());
    payload.extend(begin.to_be_bytes());
    payload.extend(length.to_be_bytes());
    Peer::prepare_message(6, payload)
}

#[test]
fn last_piece_is_what_is_left_of_the_file() {
    let mut download = PieceDownload::new(100000, 65536, 1);
    assert_eq!(download.size(), 34464);
    assert_eq!(download.blocks_left(), 3);
    let (messages, count) = download.next_batch();
    assert_eq!(count, 3);
    let mut expected = request(1, 0, BLOCK_SIZE);
    expected.extend(request(1, BLOCK_SIZE, BLOCK_SIZE));
    expected.extend(request(1, 2 * BLOCK_SIZE, 1696));
    assert_eq!(messages, expected);
    assert!(download.is_done());
}

#[test]
fn requests_go_out_five_at_a_time() {
    let mut download = PieceDownload::new(7 * BLOCK_SIZE, 7 * BLOCK_SIZE, 0);
    assert_eq!(download.size(), 7 * BLOCK_SIZE);
    let (first, count) = download.next_batch();
    assert_eq!(count, 5);
    assert_eq!(first.len(), 5 * 17);
    assert_eq!(&first[4 * 17..], request(0, 4 * BLOCK_SIZE, BLOCK_SIZE).as_slice());
    assert!(!download.is_done());
    let (second, count) = download.next_batch();
    assert_eq!(count, 2);
    assert_eq!(&second[..17], request(0, 5 * BLOCK_SIZE, BLOCK_SIZE).as_slice());
    assert!(download.is_done());
}

#[test]
fn received_blocks_are_appended_in_order() {
    let mut download = PieceDownload::new(20, 10, 1);
    assert_eq!(download.size(), 10);
    let (_, count) = download.next_batch();
    assert_eq!(count, 1);
    let mut message = vec![7, 0, 0, 0, 1, 0, 0, 0, 0];
    message.extend(b"abcde");
    download.receive(&message);
    let mut message = vec![7, 0, 0, 0, 1, 0, 0, 0, 5];
    message.extend(b"fghij");
    download.receive(&message);
    assert_eq!(download.into_piece(), b"abcdefghij".to_vec());
}

#[test]
fn empty_piece_needs_no_request() {
    let download = PieceDownload::new(10, 10, 1);
    assert_eq!(download.size(), 0);
    assert!(download.is_done());
}

#[test]
fn pieces_are_claimed_once_each() {
    let mut table = PieceTable::new(vec!["aa".to_string(), "bb".to_string()]);
    assert_eq!(table.len(), 2);
    assert_eq!(table.claim(), Some(0));
    assert_eq!(table.status(0), PieceStatus::Started);
    assert_eq!(table.claim(), Some(1));
    assert_eq!(table.claim(), None);
}

#[test]
fn a_piece_is_loaded_only_when_its_hash_matches() {
    let hello = "aaf4c61ddcc5e8a2dabede0f3b482cd9aea9434d".to_string();
    let mut table = PieceTable::new(vec![hello, "00".to_string()]);
    assert_eq!(table.claim(), Some(0));
    assert!(!table.complete(0, b"goodbye".to_vec()));
    assert_eq!(table.status(0), PieceStatus::Started);
    assert!(table.complete(0, b"hello".to_vec()));
    assert_eq!(table.status(0), PieceStatus::Loaded);
    assert_eq!(table.status(1), PieceStatus::Waiting);
}

#[test]
fn framed_length_reads_back() {
    let message = Peer::prepare_message(6, vec![1, 2, 3, 4, 5]);
    assert_eq!(Peer::message_length(&message[0..4]), 6);
    assert_eq!(&message[4..], &[6, 1, 2, 3, 4, 5]);
}

#[test]
fn file_is_assembled_in_piece_order() {
    let mut pieces = std::collections::HashMap::new();
    pieces.insert(1u32, b"world".to_vec());
    pieces.insert(0u32, b"hello ".to_vec());
    assert_eq!(assemble_file(&pieces, 2), Some(b"hello world".to_vec()));
    assert_eq!(assemble_file(&pieces, 3), None);
    assert_eq!(assemble_file(&pieces, 0), Some(Vec::new()));
}

#[test]
fn table_keeps_only_verified_pieces_and_assembles_the_file() {
    let hello = "aaf4c61ddcc5e8a2dabede0f3b482cd9aea9434d".to_string();
    let world = hex::encode(sha1_of(b" world"));
    let mut table = PieceTable::new(vec![hello, world]);
    assert_eq!(table.file(), None);
    assert_eq!(table.claim(), Some(0));
    assert!(!table.complete(0, b"bye".to_vec()));
    assert!(table.complete(0, b"hello".to_vec()));
    assert_eq!(table.file(), None);
    assert_eq!(table.claim(), Some(1));
    assert!(table.complete(1, b" world".to_vec()));
    assert_eq!(table.file(), Some(b"hello world".to_vec()));
}

fn sha1_of(bytes: &[u8]) -> Vec<u8> {
    sha1::Sha1::digest(bytes).to_vec()
}

#[test]
fn both_handshakes_agree() {
    let bytes = b"d8:announce1:x4:infod6:lengthi1eee".to_vec();
    let data = bittorrent::bencode::Bencode::decode(bytes);
    let torrent = bittorrent::torrent::Torrent::from(&data);
    let from_data = bittorrent::handshake::data_handshake(&data);
    assert_eq!(from_data, bittorrent::handshake::torrent_handshake(&torrent));
    assert_eq!(from_data, handshake_message(&torrent.info_hash()));
    assert_eq!(from_data.len(), 68);
}
