//! A small BitTorrent client library: bencode values, torrent metadata,
//! tracker responses and the peer wire protocol.
pub mod bencode;
pub mod boundary;
pub mod data;
pub mod data_decoder;
pub mod decode;
pub mod decoder;
pub mod digits;
pub mod download;
pub mod grammar;
pub mod handshake;
pub mod info;
pub mod json;
pub mod metainfo;
pub mod model;
pub mod ordering;
pub mod peer;
pub mod peers;
pub mod roundtrip;
pub mod text;
pub mod torrent;
