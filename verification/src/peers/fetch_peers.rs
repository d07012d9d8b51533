//! The tracker exchange: the announce URL with its fixed query order,
//! and the compact peer list in the response.

use vstd::prelude::*;

use crate::bencode;
use crate::bencode::Bencode;
use crate::bencode::BencodeView;
use crate::bencode::dict_lookup;
use crate::bencode::spec_decode;
use crate::error::BtError;
use crate::ip_address::IpAddress;
use crate::text::spec_decimal;
use crate::text::u64_to_string;
use crate::torrent::Torrent;

verus! {

/// A `%` before every pair of characters; a trailing lone character
/// gets its own `%`.
pub open spec fn spec_prepare(s: Seq<char>) -> Seq<char>
    decreases s.len(),
{
    if s.len() == 0 {
        Seq::empty()
    } else if s.len() == 1 {
        seq!['%', s[0]]
    } else {
        seq!['%', s[0], s[1]] + spec_prepare(s.skip(2))
    }
}

/// Appends `spec_prepare` of the characters of `hash` from `i` on.
fn prepare_from(hash: &str, n: usize, i: usize, out: &mut String)
    requires
        n == hash@.len(),
        i <= n,
    ensures
        final(out)@ == old(out)@ + spec_prepare(hash@.skip(i as int)),
    decreases n - i,
{
    if i >= n {
        assert(out@ =~= old(out)@ + spec_prepare(hash@.skip(i as int)));
    } else if i + 1 == n {
        out.append("%");
        let c = hash.substring_char(i, n);
        out.append(c);
        proof {
            reveal_strlit("%");
            assert(hash@.skip(i as int).len() == 1);
            assert(hash@.skip(i as int)[0] == hash@[i as int]);
            assert(c@ =~= hash@.subrange(i as int, n as int));
            assert(out@ =~= old(out)@ + spec_prepare(hash@.skip(i as int)));
        }
    } else {
        out.append("%");
        let c = hash.substring_char(i, i + 2);
        out.append(c);
        proof {
            reveal_strlit("%");
            assert(c@ =~= hash@.subrange(i as int, i + 2));
            assert(hash@.skip(i as int).skip(2) =~= hash@.skip(i + 2));
            assert(hash@.skip(i as int)[0] == hash@[i as int]);
            assert(hash@.skip(i as int)[1] == hash@[i + 1]);
        }
        prepare_from(hash, n, i + 2, out);
        proof {
            assert(out@ =~= old(out)@ + spec_prepare(hash@.skip(i as int)));
        }
    }
}

/// Puts a `%` in front of every pair of hex digits, turning a hex
/// digest into the percent-encoded form trackers expect.
pub fn prepare_hash(hash: &str) -> (r: String)
    ensures
        r@ == spec_prepare(hash@),
{
    let n = hash.unicode_len();
    let mut out = String::new();
    prepare_from(hash, n, 0, &mut out);
    proof {
        assert(hash@.skip(0) =~= hash@);
    }
    out
}

/// The announce GET with the query parameters in their required
/// order: `info_hash`, `peer_id`, `port`, `uploaded`, `downloaded`,
/// `left`, `compact`.
pub fn tracker_url(torrent: &Torrent, peer_id: &str) -> (r: String)
    requires
        0 <= torrent.length,
    ensures
        r@ == torrent.announce@ + "?info_hash="@ + spec_prepare(torrent.hash@) + "&peer_id="@
            + peer_id@ + "&port=6881&uploaded=0&downloaded=0&left="@ + spec_decimal(
            torrent.length as nat,
        ) + "&compact=1"@,
{
    let mut out = torrent.announce.clone();
    out.append("?info_hash=");
    let ih = prepare_hash(torrent.hash.as_str());
    out.append(ih.as_str());
    out.append("&peer_id=");
    out.append(peer_id);
    out.append("&port=6881&uploaded=0&downloaded=0&left=");
    let left = u64_to_string(torrent.length as u64);
    out.append(left.as_str());
    out.append("&compact=1");
    out
}

/// The bytes of the key `peers`.
pub open spec fn key_peers() -> Seq<u8> {
    seq![112u8, 101u8, 101u8, 114u8, 115u8]
}

/// The compact peer blob of a decoded tracker response.
pub open spec fn peers_blob(v: BencodeView) -> Option<Seq<u8>> {
    if v is Dict {
        match dict_lookup(v->Dict_0, key_peers()) {
            Some(BencodeView::Bytes(b)) => Some(b),
            _ => None,
        }
    } else {
        None
    }
}

/// Reads the peer endpoints out of a bencoded tracker response: the
/// `peers` byte string, six bytes per peer.
#[verifier::loop_isolation(false)]
pub fn parse_peers(body: &[u8]) -> (r: Result<Vec<IpAddress>, BtError>)
    ensures
        match r {
            Ok(v) => {
                &&& spec_decode(body@) matches Some(bv)
                &&& peers_blob(spec_decode(body@)->Some_0) matches Some(pb)
                &&& pb.len() % 6 == 0
                &&& v@.len() == pb.len() / 6
                &&& forall|i: int|
                    0 <= i < v@.len() ==> (#[trigger] v@[i]).address@ == pb.subrange(
                        6 * i,
                        6 * i + 4,
                    ) && v@[i].port == pb[6 * i + 4] * 256 + pb[6 * i + 5]
            },
            Err(BtError::Malformed) => spec_decode(body@) is None,
            Err(BtError::BadTrackerResponse) => spec_decode(body@) matches Some(bv) && (peers_blob(
                bv,
            ) is None || peers_blob(bv)->Some_0.len() % 6 != 0),
            Err(_) => false,
        },
{
    let top = match bencode::decode(body) {
        Ok(v) => v,
        Err(_) => {
            return Err(BtError::Malformed);
        },
    };
    let entries = match &top {
        Bencode::Dict(d) => d,
        _ => {
            return Err(BtError::BadTrackerResponse);
        },
    };
    proof {
        assert(top@ == BencodeView::Dict(bencode::bview_entries(entries@)));
    }
    let peers_key: [u8; 5] = [112, 101, 101, 114, 115];
    proof {
        assert(peers_key@ =~= key_peers());
    }
    let blob = match bencode::dict_get(entries, peers_key.as_slice()) {
        Some(Bencode::Bytes(b)) => b,
        _ => {
            return Err(BtError::BadTrackerResponse);
        },
    };
    if blob.len() % 6 != 0 {
        return Err(BtError::BadTrackerResponse);
    }
    let n = blob.len() / 6;
    let ghost pb = blob@;
    let mut peers: Vec<IpAddress> = Vec::new();
    let mut i: usize = 0;
    while i < n
        invariant
            i <= n,
            n == pb.len() / 6,
            pb.len() % 6 == 0,
            pb == blob@,
            peers@.len() == i,
            forall|j: int|
                0 <= j < i ==> (#[trigger] peers@[j]).address@ == pb.subrange(6 * j, 6 * j + 4)
                    && peers@[j].port == pb[6 * j + 4] * 256 + pb[6 * j + 5],
        decreases n - i,
    {
        proof {
            assert(6 * (i as int) + 6 <= 6 * (pb.len() / 6)) by (nonlinear_arith)
                requires
                    i < pb.len() / 6,
            ;
            assert(6 * (pb.len() / 6) <= pb.len()) by (nonlinear_arith)
                requires
                    pb.len() % 6 == 0,
            ;
        }
        let base = 6 * i;
        let chunk: [u8; 6] = [
            blob[base],
            blob[base + 1],
            blob[base + 2],
            blob[base + 3],
            blob[base + 4],
            blob[base + 5],
        ];
        let peer = IpAddress::from_bytes(&chunk);
        proof {
            assert(chunk@.subrange(0, 4) =~= pb.subrange(6 * (i as int), 6 * (i as int) + 4));
            assert(chunk@[4] == pb[6 * (i as int) + 4] && chunk@[5] == pb[6 * (i as int) + 5]);
        }
        peers.push(peer);
        i = i + 1;
    }
    Ok(peers)
}

} // verus!
