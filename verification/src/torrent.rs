//! The metainfo model: announce URL, total length, piece length, the
//! per-piece SHA-1 digests, and the infohash of the `info` dictionary.

use vstd::prelude::*;

use crate::bencode;
use crate::bencode::Bencode;
use crate::bencode::BencodeView;
use crate::bencode::bview_entries;
use crate::bencode::dict_lookup;
use crate::bencode::spec_decode;
use crate::bencode::spec_encode;
use crate::error::BtError;
use crate::error::MetaField;
use crate::hash::calculate_hash;
use crate::hash::sha1_hex_of;
use crate::hexutil::const_hex_encode;
use crate::hexutil::spec_hex;
use crate::text::utf8_lossy;
use crate::text::utf8_lossy_of;

verus! {

/// The bytes of the key `announce`.
pub open spec fn key_announce() -> Seq<u8> {
    seq![97u8, 110u8, 110u8, 111u8, 117u8, 110u8, 99u8, 101u8]
}

/// The bytes of the key `info`.
pub open spec fn key_info() -> Seq<u8> {
    seq![105u8, 110u8, 102u8, 111u8]
}

/// The bytes of the key `length`.
pub open spec fn key_length() -> Seq<u8> {
    seq![108u8, 101u8, 110u8, 103u8, 116u8, 104u8]
}

/// The bytes of the key `piece length`.
pub open spec fn key_piece_length() -> Seq<u8> {
    seq![112u8, 105u8, 101u8, 99u8, 101u8, 32u8, 108u8, 101u8, 110u8, 103u8, 116u8, 104u8]
}

/// The bytes of the key `pieces`.
pub open spec fn key_pieces() -> Seq<u8> {
    seq![112u8, 105u8, 101u8, 99u8, 101u8, 115u8]
}

/// The announce byte string of a decoded metainfo value, if it has
/// one.
pub open spec fn meta_announce(v: BencodeView) -> Option<Seq<u8>> {
    if v is Dict {
        match dict_lookup(v->Dict_0, key_announce()) {
            Some(BencodeView::Bytes(b)) => Some(b),
            _ => None,
        }
    } else {
        None
    }
}

/// The entries of the `info` dictionary of a decoded metainfo value,
/// if it has one.
pub open spec fn meta_info(v: BencodeView) -> Option<Seq<(Seq<u8>, BencodeView)>> {
    if v is Dict {
        match dict_lookup(v->Dict_0, key_info()) {
            Some(BencodeView::Dict(d)) => Some(d),
            _ => None,
        }
    } else {
        None
    }
}

/// The `length` entry of an `info` dictionary.
pub open spec fn info_length(info: Seq<(Seq<u8>, BencodeView)>) -> Option<int> {
    match dict_lookup(info, key_length()) {
        Some(BencodeView::Int(l)) => Some(l),
        _ => None,
    }
}

/// The `piece length` entry of an `info` dictionary.
pub open spec fn info_piece_length(info: Seq<(Seq<u8>, BencodeView)>) -> Option<int> {
    match dict_lookup(info, key_piece_length()) {
        Some(BencodeView::Int(l)) => Some(l),
        _ => None,
    }
}

/// The `pieces` entry of an `info` dictionary.
pub open spec fn info_pieces(info: Seq<(Seq<u8>, BencodeView)>) -> Option<Seq<u8>> {
    match dict_lookup(info, key_pieces()) {
        Some(BencodeView::Bytes(b)) => Some(b),
        _ => None,
    }
}

/// How many pieces a torrent of `length` bytes cut into pieces of
/// `piece_length` bytes has.
pub open spec fn spec_num_pieces(length: int, piece_length: int) -> int {
    (length + piece_length - 1) / piece_length
}

/// The first thing wrong with the fields of an `info` dictionary, in
/// the order they are read, or nothing.
pub open spec fn spec_info_error(info: Seq<(Seq<u8>, BencodeView)>) -> Option<MetaField> {
    if !(info_length(info) matches Some(l) && 0 <= l) {
        Some(MetaField::Length)
    } else if !(info_piece_length(info) matches Some(p) && 0 < p <= u32::MAX) {
        Some(MetaField::PieceLength)
    } else if !(info_pieces(info) matches Some(b) && b.len() % 20 == 0 && b.len() / 20
        == spec_num_pieces(info_length(info)->Some_0, info_piece_length(info)->Some_0)) {
        Some(MetaField::Pieces)
    } else {
        None
    }
}

/// The first thing wrong with a decoded metainfo value, in the order
/// its fields are read, or nothing.
pub open spec fn spec_meta_error(v: BencodeView) -> Option<MetaField> {
    if !(v is Dict) {
        Some(MetaField::TopLevel)
    } else if meta_announce(v) is None {
        Some(MetaField::Announce)
    } else if meta_info(v) is None {
        Some(MetaField::Info)
    } else {
        spec_info_error(meta_info(v)->Some_0)
    }
}

#[derive(Debug, Clone, PartialEq)]
pub struct Torrent {
    pub announce: String,
    pub length: i64,
    pub hash: String,
    pub piece_length: i64,
    pub piece_hashes: Vec<String>,
}

impl Torrent {
    /// The invariants of a loaded torrent: nonnegative length, a piece
    /// length that fits the wire protocol, and one digest per piece.
    pub open spec fn wf(&self) -> bool {
        &&& 0 <= self.length
        &&& 0 < self.piece_length <= u32::MAX
        &&& self.piece_hashes@.len() == spec_num_pieces(
            self.length as int,
            self.piece_length as int,
        )
    }

    /// What the fields of a torrent built from `info` entries with
    /// announce characters `announce` and infohash source `hash_src`
    /// must be.
    pub open spec fn matches_meta(
        &self,
        announce: Seq<char>,
        info: Seq<(Seq<u8>, BencodeView)>,
        hash_src: Seq<u8>,
    ) -> bool {
        &&& self.announce@ == announce
        &&& self.length as int == info_length(info)->Some_0
        &&& self.piece_length as int == info_piece_length(info)->Some_0
        &&& self.hash@ == sha1_hex_of(hash_src)
        &&& self.piece_hashes@.len() == info_pieces(info)->Some_0.len() / 20
        &&& forall|i: int|
            0 <= i < self.piece_hashes@.len() ==> (#[trigger] self.piece_hashes@[i])@ == spec_hex(
                info_pieces(info)->Some_0.subrange(20 * i, 20 * i + 20),
            )
        &&& self.wf()
    }

    /// Loads a torrent from metainfo bytes.  The top level must be a
    /// dictionary with an `announce` byte string and an `info`
    /// dictionary holding `length`, `piece length` and `pieces`; the
    /// counts must agree.  The infohash is the SHA-1 digest of the
    /// `info` dictionary's own encoding.
    pub fn new(contents: &[u8]) -> (r: Result<Torrent, BtError>)
        ensures
            match r {
                Ok(t) => {
                    &&& spec_decode(contents@) is Some
                    &&& spec_meta_error(spec_decode(contents@)->Some_0) is None
                    &&& t.matches_meta(
                        utf8_lossy_of(meta_announce(spec_decode(contents@)->Some_0)->Some_0),
                        meta_info(spec_decode(contents@)->Some_0)->Some_0,
                        spec_encode(
                            BencodeView::Dict(meta_info(spec_decode(contents@)->Some_0)->Some_0),
                        ),
                    )
                    &&& ({
                        let ab = meta_announce(spec_decode(contents@)->Some_0)->Some_0;
                        (forall|i: int| 0 <= i < ab.len() ==> ab[i] < 128) ==> (t.announce@.len()
                            == ab.len() && forall|i: int|
                            0 <= i < ab.len() ==> t.announce@[i] == #[trigger] ab[i] as char)
                    })
                },
                Err(BtError::Malformed) => spec_decode(contents@) is None,
                Err(BtError::InvalidMetainfo(f)) => spec_decode(contents@) matches Some(v)
                    && spec_meta_error(v) == Some(f),
                Err(_) => false,
            },
    {
        let top = match bencode::decode(contents) {
            Ok(v) => v,
            Err(_) => {
                return Err(BtError::Malformed);
            },
        };
        let entries = match &top {
            Bencode::Dict(d) => d,
            _ => {
                return Err(BtError::InvalidMetainfo(MetaField::TopLevel));
            },
        };
        let announce_key: [u8; 8] = [97, 110, 110, 111, 117, 110, 99, 101];
        proof {
            assert(announce_key@ =~= key_announce());
            assert(top@ == BencodeView::Dict(bview_entries(entries@)));
        }
        let announce_bytes = match bencode::dict_get(entries, announce_key.as_slice()) {
            Some(Bencode::Bytes(b)) => b,
            _ => {
                return Err(BtError::InvalidMetainfo(MetaField::Announce));
            },
        };
        let info_key: [u8; 4] = [105, 110, 102, 111];
        proof {
            assert(info_key@ =~= key_info());
        }
        let info_entries = match bencode::dict_get(entries, info_key.as_slice()) {
            Some(Bencode::Dict(d)) => d,
            _ => {
                return Err(BtError::InvalidMetainfo(MetaField::Info));
            },
        };
        let announce = utf8_lossy(announce_bytes.as_slice());
        let encoded_info = bencode::encode_dict(info_entries);
        proof {
            bencode::lemma_encode_of_decode(contents@);
            let v = spec_decode(contents@)->Some_0;
            assert(bencode::canonical(v));
            bencode::lemma_lookup_canonical(v->Dict_0, key_info());
            assert(bencode::canonical(BencodeView::Dict(bview_entries(info_entries@))));
            bencode::lemma_normalize_canonical_id(
                BencodeView::Dict(bview_entries(info_entries@)),
            );
        }
        let hash = calculate_hash(encoded_info.as_slice());
        Self::from_info_entries(announce, hash, info_entries)
    }

    /// Builds a torrent from an `info` dictionary given as raw bytes,
    /// as the metadata extension delivers it.  The infohash is the
    /// SHA-1 digest of exactly those bytes.
    pub fn from_info_bytes(announce: String, info_bytes: &[u8]) -> (r: Result<Torrent, BtError>)
        ensures
            match r {
                Ok(t) => {
                    &&& spec_decode(info_bytes@) matches Some(iv)
                    &&& iv is Dict
                    &&& spec_info_error(iv->Dict_0) is None
                    &&& t.matches_meta(
                        announce@,
                        spec_decode(info_bytes@)->Some_0->Dict_0,
                        info_bytes@,
                    )
                },
                Err(BtError::Malformed) => spec_decode(info_bytes@) is None,
                Err(BtError::InvalidMetainfo(MetaField::Info)) => spec_decode(info_bytes@)
                    matches Some(iv) && !(iv is Dict),
                Err(BtError::InvalidMetainfo(f)) => spec_decode(info_bytes@) matches Some(iv) && iv
                    is Dict && spec_info_error(iv->Dict_0) == Some(f),
                Err(_) => false,
            },
    {
        let top = match bencode::decode(info_bytes) {
            Ok(v) => v,
            Err(_) => {
                return Err(BtError::Malformed);
            },
        };
        let info_entries = match &top {
            Bencode::Dict(d) => d,
            _ => {
                return Err(BtError::InvalidMetainfo(MetaField::Info));
            },
        };
        proof {
            assert(top@ == BencodeView::Dict(bview_entries(info_entries@)));
        }
        let hash = calculate_hash(info_bytes);
        Self::from_info_entries(announce, hash, info_entries)
    }

    /// Reads `length`, `piece length` and `pieces` out of decoded
    /// `info` entries and assembles the torrent.
    fn from_info_entries(announce: String, hash: String, info_entries: &Vec<(Vec<u8>, Bencode)>) -> (r:
        Result<Torrent, BtError>)
        ensures
            match r {
                Ok(t) => {
                    &&& spec_info_error(bview_entries(info_entries@)) is None
                    &&& t.announce@ == announce@
                    &&& t.hash@ == hash@
                    &&& t.length as int == info_length(bview_entries(info_entries@))->Some_0
                    &&& t.piece_length as int == info_piece_length(
                        bview_entries(info_entries@),
                    )->Some_0
                    &&& t.piece_hashes@.len() == info_pieces(bview_entries(info_entries@))->Some_0.len() / 20
                    &&& forall|i: int|
                        0 <= i < t.piece_hashes@.len() ==> (#[trigger] t.piece_hashes@[i])@
                            == spec_hex(
                            info_pieces(bview_entries(info_entries@))->Some_0.subrange(
                                20 * i,
                                20 * i + 20,
                            ),
                        )
                    &&& t.wf()
                },
                Err(BtError::InvalidMetainfo(f)) => spec_info_error(bview_entries(info_entries@))
                    == Some(f),
                Err(_) => false,
            },
    {
        let length_key: [u8; 6] = [108, 101, 110, 103, 116, 104];
        proof {
            assert(length_key@ =~= key_length());
        }
        let length = match bencode::dict_get(info_entries, length_key.as_slice()) {
            Some(Bencode::Int(l)) => *l,
            _ => {
                return Err(BtError::InvalidMetainfo(MetaField::Length));
            },
        };
        if length < 0 {
            return Err(BtError::InvalidMetainfo(MetaField::Length));
        }
        let piece_length_key: [u8; 12] = [112, 105, 101, 99, 101, 32, 108, 101, 110, 103, 116, 104];
        proof {
            assert(piece_length_key@ =~= key_piece_length());
        }
        let piece_length = match bencode::dict_get(info_entries, piece_length_key.as_slice()) {
            Some(Bencode::Int(l)) => *l,
            _ => {
                return Err(BtError::InvalidMetainfo(MetaField::PieceLength));
            },
        };
        if piece_length < 1 || piece_length > 4294967295 {
            return Err(BtError::InvalidMetainfo(MetaField::PieceLength));
        }
        let pieces_key: [u8; 6] = [112, 105, 101, 99, 101, 115];
        proof {
            assert(pieces_key@ =~= key_pieces());
        }
        let pieces_bytes = match bencode::dict_get(info_entries, pieces_key.as_slice()) {
            Some(Bencode::Bytes(b)) => b,
            _ => {
                return Err(BtError::InvalidMetainfo(MetaField::Pieces));
            },
        };
        if pieces_bytes.len() % 20 != 0 {
            return Err(BtError::InvalidMetainfo(MetaField::Pieces));
        }
        let n = pieces_bytes.len() / 20;
        let expected = ((length as u64) + (piece_length as u64) - 1) / (piece_length as u64);
        if n as u64 != expected {
            return Err(BtError::InvalidMetainfo(MetaField::Pieces));
        }
        assert(n as int == spec_num_pieces(length as int, piece_length as int));
        let mut piece_hashes: Vec<String> = Vec::new();
        let ghost pb = pieces_bytes@;
        let total = pieces_bytes.len();
        let mut i: usize = 0;
        while i < n
            invariant
                i <= n,
                n == pb.len() / 20,
                pb.len() % 20 == 0,
                total == pb.len(),
                pb == pieces_bytes@,
                piece_hashes@.len() == i,
                forall|j: int|
                    0 <= j < i ==> (#[trigger] piece_hashes@[j])@ == spec_hex(
                        pb.subrange(20 * j, 20 * j + 20),
                    ),
            decreases n - i,
        {
            proof {
                assert(20 * (i as int) + 20 <= 20 * (pb.len() / 20)) by (nonlinear_arith)
                    requires
                        i < pb.len() / 20,
                ;
                assert(20 * (pb.len() / 20) <= pb.len()) by (nonlinear_arith)
                    requires
                        pb.len() % 20 == 0,
                ;
            }
            let start = 20 * i;
            let chunk = vstd::slice::slice_subrange(pieces_bytes.as_slice(), start, start + 20);
            let h = const_hex_encode(chunk);
            piece_hashes.push(h);
            i = i + 1;
        }
        Ok(Torrent { announce, length, hash, piece_length, piece_hashes })
    }
}

/// Re-encoding a decoded metainfo reproduces its bytes exactly, so
/// every field read from it — the infohash among them — is unchanged
/// by a decode/encode round trip of the outer dictionary.
pub proof fn lemma_metainfo_reencoding_stable(m: Seq<u8>)
    requires
        spec_decode(m) is Some,
    ensures
        spec_encode(spec_decode(m)->Some_0) == m,
{
    crate::bencode::lemma_encode_of_decode(m);
}

/// The encoding of the value bound to `key` sits contiguously inside
/// the encoding of the entries.
proof fn lemma_lookup_encoding_in_entries(d: Seq<(Seq<u8>, BencodeView)>, key: Seq<u8>)
    requires
        dict_lookup(d, key) is Some,
    ensures
        exists|a: int, b: int|
            0 <= a <= b <= bencode::spec_encode_entries(d).len()
                && bencode::spec_encode_entries(d).subrange(a, b) == spec_encode(
                dict_lookup(d, key)->Some_0,
            ),
    decreases d.len(),
{
    let e = bencode::spec_encode_entries(d);
    let kb = bencode::spec_encode_bytes(d[0].0);
    let v0 = spec_encode(d[0].1);
    let rest = bencode::spec_encode_entries(d.drop_first());
    assert(e == kb + v0 + rest);
    if d[0].0 == key {
        let a = kb.len() as int;
        let b = a + v0.len();
        assert(e.subrange(a, b) =~= v0);
    } else {
        lemma_lookup_encoding_in_entries(d.drop_first(), key);
        let (a2, b2): (int, int) = choose|a2: int, b2: int|
            0 <= a2 <= b2 <= rest.len() && rest.subrange(a2, b2) == spec_encode(
                dict_lookup(d.drop_first(), key)->Some_0,
            );
        let off = kb.len() + v0.len();
        assert(e.subrange(off + a2, off + b2) =~= rest.subrange(a2, b2));
    }
}

/// The `info` dictionary's own encoding — the bytes the infohash is
/// computed over — is a contiguous slice of the metainfo bytes as
/// they appeared in the source.
pub proof fn lemma_info_bytes_in_source(m: Seq<u8>)
    requires
        spec_decode(m) is Some,
        meta_info(spec_decode(m)->Some_0) is Some,
    ensures
        exists|a: int, b: int|
            0 <= a <= b <= m.len() && m.subrange(a, b) == spec_encode(
                BencodeView::Dict(meta_info(spec_decode(m)->Some_0)->Some_0),
            ),
{
    crate::bencode::lemma_encode_of_decode(m);
    let v = spec_decode(m)->Some_0;
    let d = v->Dict_0;
    let e = bencode::spec_encode_entries(d);
    assert(m == seq![100u8] + e + seq![101u8]);
    lemma_lookup_encoding_in_entries(d, key_info());
    let (a2, b2): (int, int) = choose|a2: int, b2: int|
        0 <= a2 <= b2 <= e.len() && e.subrange(a2, b2) == spec_encode(
            dict_lookup(d, key_info())->Some_0,
        );
    assert(m.subrange(1 + a2, 1 + b2) =~= e.subrange(a2, b2));
    assert(spec_encode(dict_lookup(d, key_info())->Some_0) == spec_encode(
        BencodeView::Dict(meta_info(v)->Some_0),
    ));
}

/// The infohash is a function of the decoded `info` value alone: two
/// metainfo byte strings whose `info` entries decode equal — however
/// their outer dictionaries differ or were re-encoded — get the same
/// infohash.
pub proof fn lemma_infohash_from_info_only(m1: Seq<u8>, m2: Seq<u8>)
    requires
        spec_decode(m1) is Some,
        spec_decode(m2) is Some,
        meta_info(spec_decode(m1)->Some_0) is Some,
        meta_info(spec_decode(m1)->Some_0) == meta_info(spec_decode(m2)->Some_0),
    ensures
        sha1_hex_of(spec_encode(BencodeView::Dict(meta_info(spec_decode(m1)->Some_0)->Some_0)))
            == sha1_hex_of(
            spec_encode(BencodeView::Dict(meta_info(spec_decode(m2)->Some_0)->Some_0)),
        ),
{
}

/// The byte length of piece `i`: every piece is `piece_length` long
/// except the last, which holds whatever remains of `length`.
pub open spec fn spec_piece_size(t: Torrent, i: int) -> int {
    if i == t.piece_hashes@.len() - 1 {
        t.length - (t.piece_hashes@.len() - 1) * t.piece_length
    } else {
        t.piece_length as int
    }
}

/// The total size of the first `k` pieces.
pub open spec fn spec_size_sum(t: Torrent, k: int) -> int
    decreases k,
{
    if k <= 0 {
        0
    } else {
        spec_size_sum(t, k - 1) + spec_piece_size(t, k - 1)
    }
}

/// The piece sizes of a well-formed torrent sum to its length.
pub proof fn lemma_piece_sizes_sum_to_length(t: Torrent)
    requires
        t.wf(),
    ensures
        spec_size_sum(t, t.piece_hashes@.len() as int) == t.length,
{
    let n = t.piece_hashes@.len() as int;
    let pl = t.piece_length as int;
    let l = t.length as int;
    if n == 0 {
        assert(l == 0) by (nonlinear_arith)
            requires
                0 <= l,
                0 < pl,
                (l + pl - 1) / pl == 0,
        ;
    } else {
        lemma_size_sum_full(t, n - 1);
        assert(spec_size_sum(t, n) == (n - 1) * pl + spec_piece_size(t, n - 1));
        assert(spec_piece_size(t, n - 1) == l - (n - 1) * pl);
    }
}

/// Every piece before the last is a full `piece_length`, so the first
/// `k` pieces hold `k * piece_length` bytes.
proof fn lemma_size_sum_full(t: Torrent, k: int)
    requires
        t.wf(),
        0 <= k < t.piece_hashes@.len(),
    ensures
        spec_size_sum(t, k) == k * t.piece_length,
    decreases k,
{
    if k == 0 {
    } else {
        lemma_size_sum_full(t, k - 1);
        assert(spec_piece_size(t, k - 1) == t.piece_length as int);
        assert(k * t.piece_length == (k - 1) * t.piece_length + t.piece_length) by (nonlinear_arith);
    }
}

/// A torrent whose length is an exact multiple of its piece length has
/// a full-size last piece.
pub proof fn lemma_full_last_piece(t: Torrent)
    requires
        t.wf(),
        t.piece_hashes@.len() > 0,
        t.length as int % t.piece_length as int == 0,
    ensures
        spec_piece_size(t, t.piece_hashes@.len() - 1) == t.piece_length,
{
    let n = t.piece_hashes@.len() as int;
    let pl = t.piece_length as int;
    let l = t.length as int;
    assert(n == l / pl) by (nonlinear_arith)
        requires
            l % pl == 0,
            0 < pl,
            0 <= l,
            n == (l + pl - 1) / pl,
            n > 0,
    ;
    assert(l - (n - 1) * pl == pl) by (nonlinear_arith)
        requires
            l % pl == 0,
            0 < pl,
            n == l / pl,
    ;
}

} // verus!
