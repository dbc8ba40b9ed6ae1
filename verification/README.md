# bittorrent

A small BitTorrent client: it decodes and encodes bencoded data, reads a
torrent's metadata, asks a tracker for peers and fetches pieces from them.

The library under `src/` is written in Verus. Its functions carry contracts
over a mathematical model of bencode values (`model.rs`, `grammar.rs`), and
the main properties are stated and proved there:

- decoding what was encoded gives the value back and leaves the bytes that
  follow, for `Bencode` values and for `DataValue`s, whose integers range up
  to `usize::MAX` (`roundtrip.rs`, and the `ensures` of both `encode`s);
- decoded dictionaries hold their keys in strictly increasing order, at any
  depth, and a lookup finds the entry that holds the key (`ordering.rs`);
- the length that frames a message reads back, and the block requests of a
  piece cover every byte of it once (`peer.rs`);
- a piece's status only moves forward, waiting, started, loaded, so each
  piece is handed out once, and the table keeps a piece's bytes only when
  they match its hash (`download.rs`);
- a handshake message is 68 bytes long (`handshake.rs`).

Calls into other crates (SHA-1, hex, URL encoding, `bytes`, `serde_json`)
go through the small trusted items of `boundary.rs` and `json.rs`, each of
which states what it relies on.

`app/` is the command-line program around the library: argument handling,
files, the tracker's HTTP request and the peer connections.
