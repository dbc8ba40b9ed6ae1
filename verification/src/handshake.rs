//! The BitTorrent handshake: what is sent, and what is read from the reply.
use vstd::prelude::*;
use vstd::utf8::encode_utf8;
use crate::bencode::push_bytes;
use crate::bencode::Bencode;
use crate::boundary::{hex_encode, hex_lower, sha1_digest};
use crate::model::{encode, lookup, lookup_ok, sorted_deep, BValue};
use crate::torrent::Torrent;

verus! {

/// `n` zero bytes.
pub open spec fn zeros(n: nat) -> Seq<u8> {
    Seq::new(n, |i: int| 0u8)
}

/// The handshake: the protocol name's length and text, eight reserved zero
/// bytes, the info hash, and a peer id of twenty zero bytes.
pub open spec fn handshake_bytes(info_hash: Seq<u8>) -> Seq<u8> {
    seq![19u8] + encode_utf8("BitTorrent protocol"@) + zeros(8) + info_hash + zeros(20)
}

fn push_zeros(out: &mut Vec<u8>, n: usize)
    ensures
        final(out)@ == old(out)@ + zeros(n as nat),
{
    let ghost start = out@;
    let mut i: usize = 0;
    while i < n
        invariant
            i <= n,
            out@ == start + zeros(i as nat),
        decreases n - i,
    {
        out.push(0u8);
        i = i + 1;
        assert(out@ =~= start + zeros(i as nat));
    }
}

/// The bytes of the handshake for a torrent with this info hash.
pub fn handshake_message(info_hash: &[u8]) -> (res: Vec<u8>)
    ensures
        res@ == handshake_bytes(info_hash@),
{
    let mut buffer: Vec<u8> = Vec::new();
    buffer.push(19u8);
    push_bytes(&mut buffer, "BitTorrent protocol".as_bytes());
    push_zeros(&mut buffer, 8);
    push_bytes(&mut buffer, info_hash);
    push_zeros(&mut buffer, 20);
    assert(buffer@ =~= handshake_bytes(info_hash@));
    buffer
}

/// The remote peer's id, the last twenty bytes of its handshake, in lowercase hexadecimal.
pub fn peer_id(reply: &[u8]) -> (res: String)
    requires
        reply@.len() >= 20,
    ensures
        res@ == hex_lower(reply@.subrange(reply@.len() - 20, reply@.len() as int)),
{
    let id = &reply[reply.len() - 20..reply.len()];
    hex_encode(id)
}


/// A handshake is 48 bytes around the info hash: 68 bytes for a
/// twenty-byte SHA-1 digest, which is also what is read back.
pub proof fn law_handshake_length(info_hash: Seq<u8>)
    ensures
        handshake_bytes(info_hash).len() == 48 + info_hash.len(),
{
    reveal_strlit("BitTorrent protocol");
    let name = "BitTorrent protocol"@;
    assert(name.len() == 19);
    assert(vstd::utf8::is_ascii_chars(name)) by {
        assert forall|i: int| 0 <= i < name.len() implies (name[i] as u32) < 0x80 by {
            assert(0 <= i < 19);
        }
    }
    vstd::utf8::is_ascii_chars_encode_utf8(name);
}

/// The handshake sent to a torrent's peers: the one for its info hash.
pub fn torrent_handshake(torrent: &Torrent) -> (res: Vec<u8>)
    ensures
        res@ == handshake_bytes(sha1_digest(encode(torrent.info_value()))),
{
    handshake_message(torrent.info_hash().as_slice())
}

/// The handshake sent for a torrent file's dictionary: the one for the
/// torrent that `Torrent::from` reads from it.
pub fn data_handshake(data: &Bencode) -> (res: Vec<u8>)
    requires
        sorted_deep(data@),
        lookup_ok(data@, encode_utf8("announce"@)),
        lookup_ok(data@, encode_utf8("info"@)),
    ensures
        res@ == handshake_bytes(sha1_digest(encode(lookup(data@, encode_utf8("info"@))))),
{
    torrent_handshake(&Torrent::from(data))
}

/// Both ways into the handshake agree: the bytes sent for a dictionary are
/// those sent for any torrent whose `info` is the dictionary's, which is
/// what `Torrent::from` makes.
pub proof fn law_handshakes_agree(data: BValue, torrent: Torrent)
    requires
        torrent.info_value() == lookup(data, encode_utf8("info"@)),
    ensures
        handshake_bytes(sha1_digest(encode(torrent.info_value()))) == handshake_bytes(
            sha1_digest(encode(lookup(data, encode_utf8("info"@)))),
        ),
{
}

} // verus!
