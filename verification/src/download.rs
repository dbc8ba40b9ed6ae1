//! Which pieces of a file are waiting, being fetched, or loaded, shared
//! among the peers that fetch them.
use vstd::prelude::*;
use crate::boundary::{hex_encode, hex_lower, sha1, sha1_digest};
use crate::peer::PieceStatus;
use crate::bencode::push_bytes;
use std::collections::HashMap;

verus! {

/// A piece of the file: the hash it must have, in lowercase hexadecimal, and where it stands.
#[derive(Debug, PartialEq, Eq)]
pub struct Piece {
    pub hash: String,
    pub status: PieceStatus,
}

/// The pieces of a file by index, `0` up to their number, and the bytes
/// of each piece that was loaded and matched its hash.
#[derive(Debug)]
pub struct PieceTable {
    pieces: HashMap<u32, Piece>,
    count: u32,
    loaded: HashMap<u32, Vec<u8>>,
}

impl View for PieceTable {
    type V = Seq<(Seq<char>, PieceStatus)>;

    /// The pieces in index order, each as its hash and its status.
    closed spec fn view(&self) -> Seq<(Seq<char>, PieceStatus)> {
        Seq::new(
            self.count as nat,
            |i: int| (self.pieces@[i as u32].hash@, self.pieces@[i as u32].status),
        )
    }
}

/// The first waiting piece at or after `from`, if any.
pub open spec fn first_waiting(t: Seq<(Seq<char>, PieceStatus)>, from: int) -> Option<int>
    decreases t.len() - from,
{
    if from < 0 || from >= t.len() {
        None
    } else if t[from].1 == PieceStatus::Waiting {
        Some(from)
    } else {
        first_waiting(t, from + 1)
    }
}

/// What `first_waiting` finds is a waiting piece, at or after `from`.
proof fn lemma_first_waiting(t: Seq<(Seq<char>, PieceStatus)>, from: int)
    ensures
        first_waiting(t, from) matches Some(j) ==> from <= j < t.len() && t[j].1
            == PieceStatus::Waiting,
    decreases t.len() - from,
{
    if 0 <= from < t.len() && t[from].1 != PieceStatus::Waiting {
        lemma_first_waiting(t, from + 1);
    }
}

/// A claimed piece is one that was waiting, and once it is marked started
/// the next claim hands out another piece or none.
pub proof fn law_claim_never_repeats(t: Seq<(Seq<char>, PieceStatus)>, i: int)
    requires
        first_waiting(t, 0) == Some(i),
    ensures
        0 <= i < t.len(),
        t[i].1 == PieceStatus::Waiting,
        first_waiting(t.update(i, (t[i].0, PieceStatus::Started)), 0) != Some(i),
{
    lemma_first_waiting(t, 0);
    lemma_first_waiting(t.update(i, (t[i].0, PieceStatus::Started)), 0);
}

/// Where a piece may stand later on: where it is, or further along
/// waiting, started, loaded.
pub open spec fn status_reachable(from: PieceStatus, to: PieceStatus) -> bool {
    from == to || (from == PieceStatus::Waiting && to != PieceStatus::Waiting) || (from
        == PieceStatus::Started && to == PieceStatus::Loaded)
}

/// A table `after` that `before` can become: the same pieces with the same
/// hashes, each status the same or further along.
pub open spec fn advances(
    before: Seq<(Seq<char>, PieceStatus)>,
    after: Seq<(Seq<char>, PieceStatus)>,
) -> bool {
    &&& after.len() == before.len()
    &&& forall|i: int|
        #![trigger after[i]]
        0 <= i < before.len() ==> after[i].0 == before[i].0 && status_reachable(
            before[i].1,
            after[i].1,
        )
}

/// Statuses only move forward, whatever sequence of `claim` and `complete`
/// calls leads from one table to another.
pub proof fn law_advances_transitive(
    a: Seq<(Seq<char>, PieceStatus)>,
    b: Seq<(Seq<char>, PieceStatus)>,
    c: Seq<(Seq<char>, PieceStatus)>,
)
    requires
        advances(a, b),
        advances(b, c),
    ensures
        advances(a, c),
{
    assert forall|i: int| 0 <= i < a.len() implies #[trigger] c[i].0 == a[i].0 && status_reachable(
        a[i].1,
        c[i].1,
    ) by {
        assert(b[i].0 == a[i].0 && status_reachable(a[i].1, b[i].1));
        assert(c[i].0 == b[i].0 && status_reachable(b[i].1, c[i].1));
    }
}

/// A piece that has left `Waiting` never comes back to it, so no later
/// `claim` hands it out again: each piece is claimed at most once.
pub proof fn law_claimed_once(
    before: Seq<(Seq<char>, PieceStatus)>,
    after: Seq<(Seq<char>, PieceStatus)>,
    i: int,
)
    requires
        advances(before, after),
        0 <= i < before.len(),
        before[i].1 != PieceStatus::Waiting,
    ensures
        after[i].1 != PieceStatus::Waiting,
        first_waiting(after, 0) != Some(i),
{
    assert(after[i].0 == before[i].0 && status_reachable(before[i].1, after[i].1));
    lemma_first_waiting(after, 0);
}

impl PieceTable {
    /// The bytes of the pieces that were loaded, by index.
    pub closed spec fn results(self) -> Map<u32, Vec<u8>> {
        self.loaded@
    }

    /// The map holds exactly the indices below the number of pieces, and
    /// the bytes kept for a piece are those of a loaded piece that match
    /// its hash.
    pub closed spec fn wf(self) -> bool {
        &&& forall|k: u32| #[trigger] self.pieces@.contains_key(k) <==> k < self.count
        &&& forall|k: u32| #[trigger]
            self.loaded@.contains_key(k) ==> k < self.count && self.pieces@[k].status
                == PieceStatus::Loaded && hex_lower(sha1_digest(self.loaded@[k]@))
                == self.pieces@[k].hash@
    }

    /// Every piece waiting, with its hash.
    pub fn new(hashes: Vec<String>) -> (res: Self)
        requires
            hashes@.len() <= u32::MAX,
        ensures
            res.wf(),
            res@.len() == hashes@.len(),
            res.results() == Map::<u32, Vec<u8>>::empty(),
            forall|i: int|
                0 <= i < hashes@.len() ==> #[trigger] res@[i] == (hashes@[i]@, PieceStatus::Waiting),
    {
        broadcast use vstd::std_specs::hash::group_hash_axioms;

        let mut pieces: HashMap<u32, Piece> = HashMap::new();
        let mut i: usize = 0;
        while i < hashes.len()
            invariant
                i <= hashes@.len() <= u32::MAX,
                forall|k: u32| #[trigger] pieces@.contains_key(k) <==> k < i,
                forall|k: u32|
                    #![trigger pieces@[k]]
                    k < i ==> pieces@[k].hash@ == hashes@[k as int]@ && pieces@[k].status
                        == PieceStatus::Waiting,
            decreases hashes@.len() - i,
        {
            let hash = hashes[i].clone();
            assert(hash@ == hashes@[i as int]@);
            let ghost before = pieces@;
            pieces.insert(i as u32, Piece { hash, status: PieceStatus::Waiting });
            assert forall|k: u32| #![trigger pieces@[k]] k < i + 1 implies pieces@[k].hash@
                == hashes@[k as int]@ && pieces@[k].status == PieceStatus::Waiting by {
                if k != i as u32 {
                    assert(pieces@[k] == before[k]);
                }
            }
            i = i + 1;
        }
        let res = PieceTable { pieces, count: i as u32, loaded: HashMap::new() };
        assert forall|j: int| 0 <= j < hashes@.len() implies #[trigger] res@[j] == (
            hashes@[j]@,
            PieceStatus::Waiting,
        ) by {
            assert(res.pieces@[j as u32].hash@ == hashes@[j]@);
        }
        res
    }

    /// The number of pieces.
    pub fn len(&self) -> (res: usize)
        ensures
            res == self@.len(),
    {
        self.count as usize
    }

    /// The status of piece `index`.
    pub fn status(&self, index: u32) -> (res: PieceStatus)
        requires
            self.wf(),
            index < self@.len(),
        ensures
            res == self@[index as int].1,
    {
        broadcast use vstd::std_specs::hash::group_hash_axioms;

        match self.pieces.get(&index) {
            Some(piece) => piece.status,
            None => {
                assert(self.pieces@.contains_key(index));
                PieceStatus::Waiting
            },
        }
    }

    /// Hands out the first waiting piece and marks it started; `None` when
    /// no piece is waiting. A piece is never handed out twice.
    pub fn claim(&mut self) -> (res: Option<u32>)
        requires
            old(self).wf(),
        ensures
            final(self).wf(),
            match res {
                Some(i) => first_waiting(old(self)@, 0) == Some(i as int) && final(self)@ == old(
                    self,
                )@.update(i as int, (old(self)@[i as int].0, PieceStatus::Started)),
                None => first_waiting(old(self)@, 0) is None && final(self)@ == old(self)@,
            },
            advances(old(self)@, final(self)@),
            final(self).results() == old(self).results(),
    {
        broadcast use vstd::std_specs::hash::group_hash_axioms;

        let mut i: u32 = 0;
        while i < self.count
            invariant
                self@ == old(self)@,
                self.wf(),
                self.count == old(self).count,
                self.loaded@ == old(self).loaded@,
                i <= self.count,
                first_waiting(self@, 0) == first_waiting(self@, i as int),
            decreases self.count - i,
        {
            let (waiting, hash) = match self.pieces.get(&i) {
                Some(piece) => (piece.status == PieceStatus::Waiting, piece.hash.clone()),
                None => {
                    assert(self.pieces@.contains_key(i));
                    (false, String::new())
                },
            };
            assert(self@[i as int] == (self.pieces@[i].hash@, self.pieces@[i].status));
            if waiting {
                let ghost before = self@;
                let ghost old_pieces = self.pieces@;
                self.pieces.insert(i, Piece { hash, status: PieceStatus::Started });
                assert forall|k: u32| #[trigger] self.loaded@.contains_key(k) implies k < self.count
                    && self.pieces@[k].status == PieceStatus::Loaded && hex_lower(
                    sha1_digest(self.loaded@[k]@),
                ) == self.pieces@[k].hash@ by {
                    assert(old_pieces[k].status == PieceStatus::Loaded);
                    assert(k != i);
                    assert(self.pieces@[k] == old_pieces[k]);
                }
                assert(self@ =~= before.update(i as int, (before[i as int].0, PieceStatus::Started)));
                return Some(i);
            }
            i = i + 1;
        }
        None
    }

    /// Checks a fetched piece against its hash; when they agree the piece
    /// is marked loaded, its bytes are kept and `true` is returned, else
    /// nothing changes.
    pub fn complete(&mut self, index: u32, piece: Vec<u8>) -> (res: bool)
        requires
            old(self).wf(),
            index < old(self)@.len(),
        ensures
            final(self).wf(),
            res == (hex_lower(sha1_digest(piece@)) == old(self)@[index as int].0),
            res ==> final(self)@ == old(self)@.update(
                index as int,
                (old(self)@[index as int].0, PieceStatus::Loaded),
            ),
            !res ==> final(self)@ == old(self)@,
            advances(old(self)@, final(self)@),
            res ==> final(self).results() == old(self).results().insert(index, piece),
            !res ==> final(self).results() == old(self).results(),
    {
        broadcast use vstd::std_specs::hash::group_hash_axioms;

        let hash = hex_encode(sha1(piece.as_slice()).as_slice());
        let (matches, stored) = match self.pieces.get(&index) {
            Some(p) => (p.hash == hash, p.hash.clone()),
            None => {
                assert(self.pieces@.contains_key(index));
                (false, String::new())
            },
        };
        assert(self@[index as int] == (self.pieces@[index].hash@, self.pieces@[index].status));
        if matches {
            let ghost before = self@;
            let ghost old_pieces = self.pieces@;
            let ghost old_loaded = self.loaded@;
            self.pieces.insert(index, Piece { hash: stored, status: PieceStatus::Loaded });
            assert(self@ =~= before.update(
                index as int,
                (before[index as int].0, PieceStatus::Loaded),
            ));
            let ghost bytes = piece@;
            self.loaded.insert(index, piece);
            assert forall|k: u32| #[trigger] self.loaded@.contains_key(k) implies k < self.count
                && self.pieces@[k].status == PieceStatus::Loaded && hex_lower(
                sha1_digest(self.loaded@[k]@),
            ) == self.pieces@[k].hash@ by {
                if k != index {
                    assert(old_loaded.contains_key(k));
                    assert(self.pieces@[k] == old_pieces[k]);
                    assert(self.loaded@[k] == old_loaded[k]);
                } else {
                    assert(self.loaded@[k]@ == bytes);
                }
            }
            true
        } else {
            false
        }
    }
}

/// The file: the loaded pieces `0` up to `count`, one after another.
pub open spec fn file_bytes(pieces: Map<u32, Vec<u8>>, count: int) -> Seq<u8>
    decreases count,
{
    if count <= 0 {
        seq![]
    } else {
        file_bytes(pieces, count - 1) + pieces[(count - 1) as u32]@
    }
}

/// The bytes of the file, its pieces in index order; `None` where one of
/// the `count` pieces is missing.
pub fn assemble_file(pieces: &HashMap<u32, Vec<u8>>, count: u32) -> (res: Option<Vec<u8>>)
    ensures
        match res {
            Some(file) => (forall|i: u32| i < count ==> #[trigger] pieces@.contains_key(i))
                && file@ == file_bytes(pieces@, count as int),
            None => exists|i: u32| i < count && !#[trigger] pieces@.contains_key(i),
        },
{
    broadcast use vstd::std_specs::hash::group_hash_axioms;

    let mut file: Vec<u8> = Vec::new();
    let mut index: u32 = 0;
    while index < count
        invariant
            index <= count,
            forall|i: u32| i < index ==> #[trigger] pieces@.contains_key(i),
            file@ == file_bytes(pieces@, index as int),
        decreases count - index,
    {
        match pieces.get(&index) {
            Some(piece) => {
                push_bytes(&mut file, piece.as_slice());
                index = index + 1;
            },
            None => {
                return None;
            },
        }
    }
    Some(file)
}

impl PieceTable {
    /// The bytes of the file: every piece's kept bytes, in index order;
    /// `None` where a piece has not been loaded.
    pub fn file(&self) -> (res: Option<Vec<u8>>)
        ensures
            res matches Some(file) ==> file@ == file_bytes(self.results(), self@.len() as int),
            res is Some <==> forall|i: u32| i < self@.len() ==> #[trigger] self.results().contains_key(i),
    {
        assert(self@.len() == self.count);
        let res = assemble_file(&self.loaded, self.count);
        proof {
            if res is None {
                let j = choose|j: u32| j < self.count && !#[trigger] self.loaded@.contains_key(j);
                assert(!self.results().contains_key(j));
            }
        }
        res
    }
}

/// The table keeps bytes only for a piece that is loaded, and they are
/// bytes whose SHA-1 digest, in lowercase hexadecimal, is the piece's hash.
pub proof fn law_results_are_verified(t: PieceTable)
    requires
        t.wf(),
    ensures
        forall|k: u32| #[trigger]
            t.results().contains_key(k) ==> k < t@.len() && t@[k as int].1 == PieceStatus::Loaded
                && hex_lower(sha1_digest(t.results()[k]@)) == t@[k as int].0,
{
}

} // verus!
