//! The peer wire protocol: framing messages, and the requests that fetch a
//! piece block by block.
use vstd::prelude::*;
use crate::bencode::push_bytes;
use crate::boundary::{be32, put_u32, put_u8};

verus! {

/// Where a piece stands in a download.
#[derive(PartialEq, Eq, Structural, Debug, Clone, Copy)]
pub enum PieceStatus {
    Waiting,
    Started,
    Loaded,
}

/// The size of the blocks that a piece is requested in.
pub const BLOCK_SIZE: u32 = 16384;

/// How many requests are sent before their answers are read.
pub const BATCH: u32 = 5;

/// A message as sent: its length (the id's byte and the payload), the id, the payload.
pub open spec fn message_bytes(message_id: u8, payload: Seq<u8>) -> Seq<u8> {
    be32((payload.len() + 1) as u32) + seq![message_id] + payload
}

/// The number that four bytes write, most significant first.
pub open spec fn be32_value(s: Seq<u8>) -> int {
    s[0] * 0x1000000 + s[1] * 0x10000 + s[2] * 0x100 + s[3]
}

/// The length that `prepare_message` writes is what `message_length`
/// reads back from the first four bytes; the rest of the message is the id
/// and the payload.
pub proof fn law_message_length_reads_back(message_id: u8, payload: Seq<u8>)
    requires
        payload.len() + 1 <= u32::MAX,
    ensures
        message_bytes(message_id, payload).len() == payload.len() + 5,
        be32_value(message_bytes(message_id, payload).subrange(0, 4)) == payload.len() + 1,
        message_bytes(message_id, payload).subrange(4, payload.len() + 5int) == seq![message_id]
            + payload,
{
    let n = (payload.len() + 1) as u32;
    let m = message_bytes(message_id, payload);
    assert(m.subrange(0, 4) =~= be32(n));
    assert(m.subrange(4, payload.len() + 5int) =~= seq![message_id] + payload);
    assert((n / 0x1000000) as u8 * 0x1000000 + ((n / 0x10000) % 256) as u8 * 0x10000 + ((n / 256)
        % 256) as u8 * 0x100 + (n % 256) as u8 == n) by (bit_vector);
}

pub struct Peer;

impl Peer {
    /// Frames a message: the length of the id and payload as four big-endian
    /// bytes, the id, then the payload.
    pub fn prepare_message(message_id: u8, payload: Vec<u8>) -> (res: Vec<u8>)
        requires
            payload@.len() + 1 <= u32::MAX,
        ensures
            res@ == message_bytes(message_id, payload@),
    {
        let length = payload.len() + 1;
        let mut message: Vec<u8> = Vec::new();
        put_u32(&mut message, length as u32);
        put_u8(&mut message, message_id);
        push_bytes(&mut message, payload.as_slice());
        assert(message@ =~= message_bytes(message_id, payload@));
        message
    }

    /// The length that a message's four-byte prefix announces.
    pub fn message_length(prefix: &[u8]) -> (res: u32)
        requires
            prefix@.len() == 4,
        ensures
            res == be32_value(prefix@),
    {
        (prefix[0] as u32) * 0x1000000 + (prefix[1] as u32) * 0x10000 + (prefix[2] as u32) * 0x100
            + prefix[3] as u32
    }

    /// Whether a message is non-empty and carries this id.
    pub fn has_id(message: &[u8], id: u8) -> (res: bool)
        ensures
            res == (message@.len() > 0 && message@[0] == id),
    {
        message.len() > 0 && message[0] == id
    }
}

/// The size of piece `index`: the piece length, or what is left of the file
/// for the last piece.
pub open spec fn piece_size(file_length: int, piece_length: int, index: int) -> int {
    let left = file_length - piece_length * index;
    if piece_length <= left {
        piece_length
    } else {
        left
    }
}

/// The sum of the sizes of pieces `0` up to `n`.
pub open spec fn pieces_total(file_length: int, piece_length: int, n: int) -> int
    decreases n,
{
    if n <= 0 {
        0
    } else {
        pieces_total(file_length, piece_length, n - 1) + piece_size(file_length, piece_length, n - 1)
    }
}

/// A piece is never longer than the piece length, nor than what is left of
/// the file from its start; it is one or the other.
pub proof fn law_piece_size_fits_file(file_length: int, piece_length: int, index: int)
    requires
        0 <= piece_length,
        0 <= index,
        piece_length * index <= file_length,
    ensures
        0 <= piece_size(file_length, piece_length, index) <= piece_length,
        piece_size(file_length, piece_length, index) <= file_length - piece_length * index,
        piece_size(file_length, piece_length, index) == piece_length || piece_size(
            file_length,
            piece_length,
            index,
        ) == file_length - piece_length * index,
{
}

proof fn lemma_pieces_total(file_length: int, piece_length: int, n: int)
    requires
        0 <= file_length,
        0 < piece_length,
        0 <= n,
        piece_length * (n - 1) < file_length || n == 0,
    ensures
        pieces_total(file_length, piece_length, n) == if piece_length * n <= file_length {
            piece_length * n
        } else {
            file_length
        },
    decreases n,
{
    if n > 0 {
        if n > 1 {
            assert(piece_length * (n - 2) < file_length) by (nonlinear_arith)
                requires
                    piece_length * (n - 1) < file_length,
                    0 < piece_length,
                    n > 1,
            ;
        }
        lemma_pieces_total(file_length, piece_length, n - 1);
        assert(piece_length * n == piece_length * (n - 1) + piece_length) by (nonlinear_arith);
        if n == 1 {
            assert(piece_length * (n - 1) == 0) by (nonlinear_arith)
                requires
                    n == 1,
            ;
        }
    }
}

/// Every one of the `(file_length + piece_length - 1) / piece_length`
/// pieces of a file starts inside it and is not empty.
pub proof fn law_piece_starts_in_file(file_length: int, piece_length: int, i: int)
    requires
        0 <= file_length,
        0 < piece_length,
        0 <= i < (file_length + piece_length - 1) / piece_length,
    ensures
        piece_length * i < file_length,
        0 < piece_size(file_length, piece_length, i),
{
    let count = (file_length + piece_length - 1) / piece_length;
    assert(piece_length * count <= file_length + piece_length - 1) by (nonlinear_arith)
        requires
            0 <= file_length,
            0 < piece_length,
            count == (file_length + piece_length - 1) / piece_length,
    ;
    assert(piece_length * i <= piece_length * (count - 1)) by (nonlinear_arith)
        requires
            0 <= i < count,
            0 < piece_length,
    ;
    assert(piece_length * (count - 1) == piece_length * count - piece_length) by (nonlinear_arith);
}

/// The pieces of a file cover it: the sizes of its `(file_length +
/// piece_length - 1) / piece_length` pieces add up to its length.
pub proof fn law_pieces_cover_file(file_length: int, piece_length: int)
    requires
        0 <= file_length,
        0 < piece_length,
    ensures
        pieces_total(file_length, piece_length, (file_length + piece_length - 1) / piece_length)
            == file_length,
{
    let count = (file_length + piece_length - 1) / piece_length;
    assert(piece_length * count <= file_length + piece_length - 1 && file_length + piece_length
        - 1 < piece_length * (count + 1) && count >= 0) by (nonlinear_arith)
        requires
            0 <= file_length,
            0 < piece_length,
            count == (file_length + piece_length - 1) / piece_length,
    ;
    assert(file_length <= piece_length * count) by (nonlinear_arith)
        requires
            file_length + piece_length - 1 < piece_length * (count + 1),
            0 < piece_length,
    ;
    if count > 0 {
        assert(piece_length * (count - 1) == piece_length * count - piece_length) by (
        nonlinear_arith);
    }
    lemma_pieces_total(file_length, piece_length, count);
}

/// The number of blocks of a piece of this size.
pub open spec fn block_count(size: int) -> int {
    (size + BLOCK_SIZE - 1) / BLOCK_SIZE as int
}

/// The length of block `j`: a whole block, or what is left at the end.
pub open spec fn block_length(size: int, j: int) -> int {
    let left = size - j * BLOCK_SIZE;
    if BLOCK_SIZE <= left {
        BLOCK_SIZE as int
    } else {
        left
    }
}

/// The payload of a request: piece index, offset of the block, its length.
pub open spec fn request_payload(index: u32, begin: u32, length: u32) -> Seq<u8> {
    be32(index) + be32(begin) + be32(length)
}

/// The request messages for blocks `from` up to `to` of a piece.
pub open spec fn requests(index: u32, size: int, from: int, to: int) -> Seq<u8>
    decreases to - from,
{
    if to <= from {
        seq![]
    } else {
        requests(index, size, from, to - 1) + message_bytes(
            6u8,
            request_payload(index, ((to - 1) * BLOCK_SIZE) as u32, block_length(size, to - 1) as u32),
        )
    }
}

/// The sum of the lengths of blocks `0` up to `n`.
pub open spec fn blocks_total(size: int, n: int) -> int
    decreases n,
{
    if n <= 0 {
        0
    } else {
        blocks_total(size, n - 1) + block_length(size, n - 1)
    }
}

/// The requests of a whole piece ask for every byte of it exactly once:
/// block `j` starts where the blocks before it end, and together they are
/// as long as the piece.
pub proof fn law_blocks_cover_piece(size: int)
    requires
        size >= 0,
    ensures
        blocks_total(size, block_count(size)) == size,
        forall|j: int| 0 <= j <= block_count(size) ==> #[trigger] blocks_total(size, j) == if j
            * BLOCK_SIZE <= size {
            j * BLOCK_SIZE
        } else {
            size
        },
{
    assert forall|j: int| 0 <= j <= block_count(size) implies #[trigger] blocks_total(size, j)
        == if j * BLOCK_SIZE <= size {
        j * BLOCK_SIZE
    } else {
        size
    } by {
        lemma_blocks_total(size, j);
    }
}

proof fn lemma_blocks_total(size: int, j: int)
    requires
        size >= 0,
        0 <= j <= block_count(size),
    ensures
        blocks_total(size, j) == if j * BLOCK_SIZE <= size {
            j * BLOCK_SIZE
        } else {
            size
        },
    decreases j,
{
    if j > 0 {
        lemma_blocks_total(size, j - 1);
    }
}

/// The download of one piece: requests go out in batches of up to five
/// blocks, and the blocks that come back are appended in order.
pub struct PieceDownload {
    index: u32,
    piece_size: u32,
    piece_rest: u32,
    blocks: u32,
    block: u32,
    piece: Vec<u8>,
}

impl PieceDownload {
    pub closed spec fn index_spec(self) -> u32 {
        self.index
    }

    pub closed spec fn size_spec(self) -> int {
        self.piece_size as int
    }

    /// The blocks already requested.
    pub closed spec fn requested(self) -> int {
        self.block as int
    }

    /// The blocks not yet accounted for by a finished batch.
    pub closed spec fn remaining(self) -> int {
        self.blocks as int
    }

    /// The bytes received so far.
    pub closed spec fn data(self) -> Seq<u8> {
        self.piece@
    }

    pub closed spec fn wf(self) -> bool {
        &&& self.block + self.blocks == block_count(self.piece_size as int)
        &&& self.piece_rest == self.piece_size - blocks_total(self.piece_size as int, self.block as int)
        &&& self.block <= block_count(self.piece_size as int)
    }

    /// Starts the download of piece `index` of a file of `file_length`
    /// bytes cut in pieces of `piece_length`.
    pub fn new(file_length: u32, piece_length: u32, index: u32) -> (res: Self)
        requires
            piece_length * index <= file_length,
        ensures
            res.wf(),
            res.index_spec() == index,
            res.size_spec() == piece_size(file_length as int, piece_length as int, index as int),
            res.requested() == 0,
            res.remaining() == block_count(res.size_spec()),
            res.data() == Seq::<u8>::empty(),
    {
        let left = file_length - piece_length * index;
        let size = if piece_length <= left {
            piece_length
        } else {
            left
        };
        let blocks = size / BLOCK_SIZE + if size % BLOCK_SIZE != 0 {
            1u32
        } else {
            0u32
        };
        assert(blocks == block_count(size as int));
        PieceDownload {
            index,
            piece_size: size,
            piece_rest: size,
            blocks,
            block: 0,
            piece: Vec::new(),
        }
    }

    /// The size of the piece.
    pub fn size(&self) -> (res: u32)
        ensures
            res == self.size_spec(),
    {
        self.piece_size
    }

    /// The blocks not yet accounted for by a finished batch.
    pub fn blocks_left(&self) -> (res: u32)
        ensures
            res == self.remaining(),
    {
        self.blocks
    }

    /// Whether every block has been requested and received.
    pub fn is_done(&self) -> (res: bool)
        ensures
            res == (self.remaining() == 0),
    {
        self.blocks == 0
    }

    /// The next batch of requests, and how many blocks it asks for: five, or
    /// the blocks that are left when there are fewer.
    pub fn next_batch(&mut self) -> (res: (Vec<u8>, u32))
        requires
            old(self).wf(),
            old(self).remaining() > 0,
        ensures
            final(self).wf(),
            res.1 == if old(self).remaining() >= BATCH {
                BATCH as int
            } else {
                old(self).remaining()
            },
            res.0@ == requests(
                old(self).index_spec(),
                old(self).size_spec(),
                old(self).requested(),
                old(self).requested() + res.1,
            ),
            final(self).requested() == old(self).requested() + res.1,
            final(self).remaining() == old(self).remaining() - res.1,
            final(self).index_spec() == old(self).index_spec(),
            final(self).size_spec() == old(self).size_spec(),
            final(self).data() == old(self).data(),
    {
        let count = if self.blocks / BATCH >= 1 {
            BATCH
        } else {
            self.blocks
        };
        let ghost first = self.block as int;
        let ghost size = self.piece_size as int;
        let ghost blocks0 = self.blocks;
        let ghost index0 = self.index;
        let ghost data0 = self.piece@;
        let mut messages: Vec<u8> = Vec::new();
        let mut n: u32 = 0;
        while n < count
            invariant
                n <= count,
                count <= self.blocks,
                self.block == first + n,
                size == self.piece_size,
                self.blocks == blocks0,
                self.index == index0,
                self.piece@ == data0,
                first + blocks0 == block_count(size),
                self.piece_rest == size - blocks_total(size, self.block as int),
                messages@ == requests(self.index, size, first, first + n),
                messages@.len() == 17 * n,
            decreases count - n,
        {
            proof {
                lemma_blocks_total(size, self.block as int);
                lemma_blocks_total(size, self.block + 1);
            }
            let block_size = if BLOCK_SIZE <= self.piece_rest {
                BLOCK_SIZE
            } else {
                self.piece_rest
            };
            let begin = self.block * BLOCK_SIZE;
            let mut payload: Vec<u8> = Vec::new();
            put_u32(&mut payload, self.index);
            put_u32(&mut payload, begin);
            put_u32(&mut payload, block_size);
            assert(payload@ =~= request_payload(self.index, begin, block_size));
            let request = Peer::prepare_message(6, payload);
            push_bytes(&mut messages, request.as_slice());
            self.piece_rest = self.piece_rest - block_size;
            self.block = self.block + 1;
            n = n + 1;
        }
        self.blocks = self.blocks - count;
        (messages, count)
    }

    /// Appends the block that a `piece` message carries: its bytes after the
    /// id, the index and the offset.
    pub fn receive(&mut self, message: &[u8])
        requires
            message@.len() >= 9,
            message@[0] == 7,
        ensures
            final(self).data() == old(self).data() + message@.subrange(9, message@.len() as int),
            final(self).wf() == old(self).wf(),
            final(self).requested() == old(self).requested(),
            final(self).remaining() == old(self).remaining(),
            final(self).index_spec() == old(self).index_spec(),
            final(self).size_spec() == old(self).size_spec(),
    {
        push_bytes(&mut self.piece, &message[9..message.len()]);
    }

    /// The bytes received.
    pub fn into_piece(self) -> (res: Vec<u8>)
        ensures
            res@ == self.data(),
    {
        self.piece
    }
}

} // verus!
