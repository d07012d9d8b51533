//! The whole download: one `Piece` per torrent piece, sized so that
//! the pieces together cover exactly the torrent's length.

use vstd::prelude::*;

use crate::piece::Piece;
use crate::torrent::Torrent;
use crate::torrent::lemma_piece_sizes_sum_to_length;
use crate::torrent::spec_piece_size;
use crate::torrent::spec_size_sum;

verus! {

#[derive(Debug, Clone)]
pub struct FileInfo {
    pub path: String,
    pub pieces: Vec<Piece>,
}

/// The total number of data bytes in the first `k` pieces.
pub open spec fn spec_total_data(pieces: Seq<Piece>, k: int) -> int
    decreases k,
{
    if k <= 0 {
        0
    } else {
        spec_total_data(pieces, k - 1) + pieces[k - 1].data@.len()
    }
}

impl FileInfo {
    /// Every piece carries its completion bits and fits the wire
    /// protocol's 32-bit offsets.
    pub open spec fn wf(&self) -> bool {
        forall|i: int|
            0 <= i < self.pieces@.len() ==> (#[trigger] self.pieces@[i]).wf()
                && self.pieces@[i].data@.len() <= u32::MAX
    }

    /// Lays out one zeroed piece per digest of the torrent: all pieces
    /// are `piece_length` long except the last, which holds the
    /// remainder of the torrent's length.
    #[verifier::loop_isolation(false)]
    pub fn new(path: String, torrent: &Torrent) -> (r: Self)
        requires
            torrent.wf(),
        ensures
            r.wf(),
            r.path@ == path@,
            r.pieces@.len() == torrent.piece_hashes@.len(),
            forall|i: int|
                0 <= i < r.pieces@.len() ==> {
                    &&& (#[trigger] r.pieces@[i]).data@.len() == spec_piece_size(*torrent, i)
                    &&& r.pieces@[i].hash@ == torrent.piece_hashes@[i]@
                    &&& forall|j: int|
                        0 <= j < r.pieces@[i].completed@.len() ==> !r.pieces@[i].completed@[j]
                    &&& forall|j: int|
                        0 <= j < r.pieces@[i].data@.len() ==> r.pieces@[i].data@[j] == 0u8
                },
    {
        let n = torrent.piece_hashes.len();
        let remainder: i64 = if torrent.length % torrent.piece_length == 0 {
            torrent.piece_length
        } else {
            torrent.length % torrent.piece_length
        };
        proof {
            if n > 0 {
                let l = torrent.length as int;
                let pl = torrent.piece_length as int;
                assert(remainder as int == l - (n - 1) * pl) by (nonlinear_arith)
                    requires
                        0 <= l,
                        0 < pl,
                        n == (l + pl - 1) / pl,
                        n > 0,
                        remainder as int == if l % pl == 0 {
                            pl
                        } else {
                            l % pl
                        },
                ;
            }
        }
        let mut pieces: Vec<Piece> = Vec::new();
        let mut i: usize = 0;
        while i < n
            invariant
                i <= n,
                n == torrent.piece_hashes@.len(),
                torrent.wf(),
                n > 0 ==> remainder as int == torrent.length - (n - 1) * torrent.piece_length,
                pieces@.len() == i,
                forall|k: int|
                    0 <= k < i ==> {
                        &&& (#[trigger] pieces@[k]).wf()
                        &&& pieces@[k].data@.len() <= u32::MAX
                        &&& pieces@[k].data@.len() == spec_piece_size(*torrent, k)
                        &&& pieces@[k].hash@ == torrent.piece_hashes@[k]@
                        &&& forall|j: int|
                            0 <= j < pieces@[k].completed@.len() ==> !pieces@[k].completed@[j]
                        &&& forall|j: int|
                            0 <= j < pieces@[k].data@.len() ==> pieces@[k].data@[j] == 0u8
                    },
            decreases n - i,
        {
            let length: i64 = if i == n - 1 {
                remainder
            } else {
                torrent.piece_length
            };
            proof {
                if i < n - 1 {
                    assert(spec_piece_size(*torrent, i as int) == torrent.piece_length as int);
                }
                assert(0 <= length as int <= u32::MAX);
            }
            let piece = Piece::new(length as usize, torrent.piece_hashes[i].as_str());
            pieces.push(piece);
            i = i + 1;
        }
        FileInfo { path, pieces }
    }

    /// Whether every block of every piece has been received.
    pub fn is_complete(&self) -> (r: bool)
        ensures
            r == forall|i: int|
                0 <= i < self.pieces@.len() ==> (#[trigger] self.pieces@[i]).spec_complete(),
    {
        let mut i: usize = 0;
        while i < self.pieces.len()
            invariant
                i <= self.pieces@.len(),
                forall|j: int| 0 <= j < i ==> (#[trigger] self.pieces@[j]).spec_complete(),
            decreases self.pieces@.len() - i,
        {
            if !self.pieces[i].is_complete() {
                return false;
            }
            i = i + 1;
        }
        true
    }

    /// Whether every piece hashes to its expected digest.
    pub fn is_valid(&self) -> (r: bool)
        ensures
            r == forall|i: int|
                0 <= i < self.pieces@.len() ==> (#[trigger] self.pieces@[i]).spec_valid(),
    {
        let mut i: usize = 0;
        while i < self.pieces.len()
            invariant
                i <= self.pieces@.len(),
                forall|j: int| 0 <= j < i ==> (#[trigger] self.pieces@[j]).spec_valid(),
            decreases self.pieces@.len() - i,
        {
            if !self.pieces[i].is_valid() {
                return false;
            }
            i = i + 1;
        }
        true
    }
}

/// The pieces of a `FileInfo` laid out for a well-formed torrent hold
/// exactly `torrent.length` bytes between them.
pub proof fn lemma_pieces_cover_length(f: FileInfo, t: Torrent)
    requires
        t.wf(),
        f.pieces@.len() == t.piece_hashes@.len(),
        forall|i: int|
            0 <= i < f.pieces@.len() ==> (#[trigger] f.pieces@[i]).data@.len() == spec_piece_size(
                t,
                i,
            ),
    ensures
        spec_total_data(f.pieces@, f.pieces@.len() as int) == t.length,
{
    lemma_total_matches(f.pieces@, t, f.pieces@.len() as int);
    lemma_piece_sizes_sum_to_length(t);
}

/// Pointwise equal piece sizes give equal running totals.
proof fn lemma_total_matches(pieces: Seq<Piece>, t: Torrent, k: int)
    requires
        k <= pieces.len(),
        forall|i: int|
            0 <= i < pieces.len() ==> (#[trigger] pieces[i]).data@.len() == spec_piece_size(t, i),
    ensures
        spec_total_data(pieces, k) == spec_size_sum(t, k),
    decreases k,
{
    if k > 0 {
        lemma_total_matches(pieces, t, k - 1);
    }
}

} // verus!
