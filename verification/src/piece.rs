//! One piece of the torrent payload: its expected SHA-1 digest, its
//! data buffer, and one completion bit per 16 KiB block.

use vstd::prelude::*;

use crate::hash::calculate_hash;
use crate::hash::sha1_hex_of;

verus! {

/// Bytes per block: the fixed transfer unit of Request and Piece
/// messages.
pub const BLOCK_SIZE: usize = 16384;

/// How many blocks a piece of `size` bytes has: one per started
/// 16 KiB.
pub open spec fn spec_num_blocks(size: nat) -> nat {
    (size + 16383) / 16384
}

/// The byte length of block `k` of a piece of `size` bytes: a full
/// 16 KiB except for a possibly shorter trailing block.
pub open spec fn spec_block_len(size: nat, k: int) -> int {
    if size - k * 16384 < 16384 {
        size - k * 16384
    } else {
        16384
    }
}

#[derive(Debug, Clone, PartialEq, Eq)]
pub struct Piece {
    pub hash: String,
    pub data: Vec<u8>,
    pub completed: Vec<bool>,
}

impl Piece {
    /// The completion bits cover the data: one per started block.
    pub open spec fn wf(&self) -> bool {
        self.completed@.len() == spec_num_blocks(self.data@.len())
    }

    /// Every block has been written.
    pub open spec fn spec_complete(&self) -> bool {
        forall|i: int| 0 <= i < self.completed@.len() ==> self.completed@[i]
    }

    /// The data hashes to the expected digest.
    pub open spec fn spec_valid(&self) -> bool {
        sha1_hex_of(self.data@) == self.hash@
    }

    /// A zeroed piece of `length` bytes expecting digest `hash`, with
    /// no block completed.
    pub fn new(length: usize, hash: &str) -> (r: Self)
        ensures
            r.wf(),
            r.data@.len() == length,
            forall|i: int| 0 <= i < length ==> r.data@[i] == 0u8,
            r.completed@.len() == spec_num_blocks(length as nat),
            forall|i: int| 0 <= i < r.completed@.len() ==> !r.completed@[i],
            r.hash@ == hash@,
    {
        let mut data: Vec<u8> = Vec::new();
        while data.len() < length
            invariant
                data@.len() <= length,
                forall|i: int| 0 <= i < data@.len() ==> data@[i] == 0u8,
            decreases length - data@.len(),
        {
            data.push(0);
        }
        let num_blocks = if length % BLOCK_SIZE == 0 {
            length / BLOCK_SIZE
        } else {
            length / BLOCK_SIZE + 1
        };
        proof {
            assert(num_blocks == spec_num_blocks(length as nat)) by (nonlinear_arith)
                requires
                    num_blocks == if length % 16384 == 0 {
                        length as int / 16384
                    } else {
                        length as int / 16384 + 1
                    },
            ;
        }
        let mut completed: Vec<bool> = Vec::new();
        while completed.len() < num_blocks
            invariant
                completed@.len() <= num_blocks,
                forall|i: int| 0 <= i < completed@.len() ==> !completed@[i],
            decreases num_blocks - completed@.len(),
        {
            completed.push(false);
        }
        Piece { hash: String::from_str(hash), data, completed }
    }

    /// The `(offset, length)` of every block of this piece, in order:
    /// offsets climb by 16 KiB and only the last block may be short.
    #[verifier::loop_isolation(false)]
    pub fn block_details(&self) -> (r: Vec<(u32, u32)>)
        requires
            self.data@.len() <= u32::MAX,
        ensures
            r@.len() == spec_num_blocks(self.data@.len()),
            forall|k: int|
                0 <= k < r@.len() ==> (#[trigger] r@[k]).0 == k * 16384 && r@[k].1
                    == spec_block_len(self.data@.len(), k),
    {
        let length = self.data.len();
        let mut r: Vec<(u32, u32)> = Vec::new();
        let mut index: usize = 0;
        while index < length
            invariant
                index == if r@.len() * 16384 <= length {
                    (r@.len() * 16384) as int
                } else {
                    length as int
                },
                r@.len() == 0 || (r@.len() - 1) * 16384 < length,
                forall|k: int|
                    0 <= k < r@.len() ==> (#[trigger] r@[k]).0 == k * 16384 && r@[k].1
                        == spec_block_len(length as nat, k),
            decreases length - index,
        {
            let block_size = if BLOCK_SIZE < length - index {
                BLOCK_SIZE
            } else {
                length - index
            };
            proof {
                assert(index == r@.len() * 16384);
                assert(block_size == spec_block_len(length as nat, r@.len() as int));
            }
            r.push((index as u32, block_size as u32));
            index = index + block_size;
        }
        proof {
            let n = r@.len() as int;
            if length > 0 {
                assert(n * 16384 >= length);
                assert((n - 1) * 16384 < length);
                assert(n == (length + 16383) / 16384) by (nonlinear_arith)
                    requires
                        n * 16384 >= length,
                        (n - 1) * 16384 < length,
                        length > 0,
                ;
            } else {
                assert(n == 0);
            }
        }
        r
    }

    /// Writes a block of bytes at `index` and marks its block done.
    pub fn update_block(&mut self, index: usize, data: Vec<u8>)
        requires
            old(self).wf(),
            index + data@.len() <= old(self).data@.len(),
            index / 16384 < old(self).completed@.len(),
        ensures
            final(self).wf(),
            final(self).hash == old(self).hash,
            final(self).data@.len() == old(self).data@.len(),
            forall|i: int|
                0 <= i < final(self).data@.len() ==> final(self).data@[i] == (if index <= i < index
                    + data@.len() {
                    data@[i - index]
                } else {
                    old(self).data@[i]
                }),
            final(self).completed@ == old(self).completed@.update(index as int / 16384, true),
    {
        let total = self.data.len();
        let mut j: usize = 0;
        while j < data.len()
            invariant
                j <= data@.len(),
                index + data@.len() <= total,
                total == self.data@.len(),
                self.data@.len() == old(self).data@.len(),
                self.completed == old(self).completed,
                self.hash == old(self).hash,
                forall|i: int|
                    0 <= i < self.data@.len() ==> self.data@[i] == (if index <= i < index + j {
                        data@[i - index]
                    } else {
                        old(self).data@[i]
                    }),
            decreases data@.len() - j,
        {
            self.data[index + j] = data[j];
            j = j + 1;
        }
        let block = index / BLOCK_SIZE;
        self.completed[block] = true;
    }

    /// Whether every block of this piece has been received.
    pub fn is_complete(&self) -> (r: bool)
        ensures
            r == self.spec_complete(),
    {
        let mut i: usize = 0;
        while i < self.completed.len()
            invariant
                i <= self.completed@.len(),
                forall|j: int| 0 <= j < i ==> self.completed@[j],
            decreases self.completed@.len() - i,
        {
            if !self.completed[i] {
                return false;
            }
            i = i + 1;
        }
        true
    }

    /// Whether the data hashes to the expected digest.
    pub fn is_valid(&self) -> (r: bool)
        ensures
            r == self.spec_valid(),
    {
        let computed = calculate_hash(self.data.as_slice());
        computed == self.hash
    }
}

/// A piece whose size is an exact multiple of 16 KiB has no short
/// trailing block: every one of its blocks is a full 16 KiB.
pub proof fn lemma_no_short_trailing_block(size: nat)
    requires
        size % 16384 == 0,
    ensures
        forall|k: int| 0 <= k < spec_num_blocks(size) ==> spec_block_len(size, k) == 16384,
{
    assert forall|k: int| 0 <= k < spec_num_blocks(size) implies spec_block_len(size, k)
        == 16384 by {
        assert(size == (size / 16384) * 16384) by (nonlinear_arith)
            requires
                size % 16384 == 0,
        ;
        assert(spec_num_blocks(size) == size / 16384) by (nonlinear_arith)
            requires
                size % 16384 == 0,
        ;
        assert(size - k * 16384 >= 16384) by (nonlinear_arith)
            requires
                size == (size / 16384) * 16384,
                k < size / 16384,
        ;
    }
}

} // verus!
