//! The extended handshake of the extension protocol: a bencoded
//! dictionary `{"m": {"ut_metadata": <id>}}` wrapped in an Extension
//! message whose first payload byte is zero.

use vstd::prelude::*;

use crate::bencode;
use crate::bencode::Bencode;
use crate::bencode::BencodeView;
use crate::bencode::dict_lookup;
use crate::bencode::spec_decode;
use crate::bencode::spec_encode;
use crate::error::BtError;
use crate::peers::wire::push_u32_be;
use crate::peers::wire::spec_u32_be;

verus! {

/// The peer's extension ids for the extensions this client knows: only
/// ut_metadata.
#[derive(Clone, Copy, Debug, PartialEq, Eq)]
pub struct SupportedExtensions {
    pub ut_metadata: Option<u8>,
}

impl SupportedExtensions {
    /// No extension offered.
    pub fn all_unsupported() -> (r: Self)
        ensures
            r.ut_metadata is None,
    {
        SupportedExtensions { ut_metadata: None }
    }

    /// What this client offers: ut_metadata under local id 1.
    pub fn my_supported() -> (r: Self)
        ensures
            r.ut_metadata == Some(1u8),
    {
        SupportedExtensions { ut_metadata: Some(1) }
    }
}

/// The bytes of the key `m`.
pub open spec fn key_m() -> Seq<u8> {
    seq![109u8]
}

/// The bytes of the key `ut_metadata`.
pub open spec fn key_ut_metadata() -> Seq<u8> {
    seq![117u8, 116u8, 95u8, 109u8, 101u8, 116u8, 97u8, 100u8, 97u8, 116u8, 97u8]
}

/// The dictionary this client sends: `{"m": {"ut_metadata": 1}}`.
pub open spec fn ext_handshake_view() -> BencodeView {
    BencodeView::Dict(
        seq![
            (
                key_m(),
                BencodeView::Dict(seq![(key_ut_metadata(), BencodeView::Int(1))]),
            ),
        ],
    )
}

/// Builds the full extended-handshake frame: big-endian length, the
/// Extension id byte 20, the handshake extension id byte 0, and the
/// bencoded dictionary.
pub fn build_extension_handshake() -> (r: Vec<u8>)
    ensures
        r@ == spec_u32_be((spec_encode(ext_handshake_view()).len() + 2) as u32) + seq![20u8, 0u8]
            + spec_encode(ext_handshake_view()),
{
    let mut ut_key: Vec<u8> = Vec::new();
    ut_key.push(117);
    ut_key.push(116);
    ut_key.push(95);
    ut_key.push(109);
    ut_key.push(101);
    ut_key.push(116);
    ut_key.push(97);
    ut_key.push(100);
    ut_key.push(97);
    ut_key.push(116);
    ut_key.push(97);
    proof {
        assert(ut_key@ =~= key_ut_metadata());
    }
    let mut inner: Vec<(Vec<u8>, Bencode)> = Vec::new();
    inner.push((ut_key, Bencode::Int(1)));
    let mut m_key: Vec<u8> = Vec::new();
    m_key.push(109);
    proof {
        assert(m_key@ =~= key_m());
    }
    let mut outer: Vec<(Vec<u8>, Bencode)> = Vec::new();
    outer.push((m_key, Bencode::Dict(inner)));
    let payload = bencode::encode_dict(&outer);
    proof {
        bencode::lemma_bview_entries(inner@);
        bencode::lemma_bview_entries(outer@);
        assert(bencode::bview_entries(inner@) =~= seq![(key_ut_metadata(), BencodeView::Int(1))]);
        assert(bencode::bview(outer@[0].1) == BencodeView::Dict(
            seq![(key_ut_metadata(), BencodeView::Int(1))],
        ));
        assert(bencode::bview_entries(outer@) =~= ext_handshake_view()->Dict_0);
        let inner_entries = seq![(key_ut_metadata(), BencodeView::Int(1))];
        assert(inner_entries[0].1 == BencodeView::Int(1));
        assert(bencode::canonical(BencodeView::Int(1)));
        assert forall|t: int| 0 <= t < inner_entries.len() implies bencode::canonical(
            #[trigger] inner_entries[t].1,
        ) by {}
        assert(bencode::entries_sorted(inner_entries));
        assert(bencode::canonical(BencodeView::Dict(inner_entries)));
        let outer_entries = ext_handshake_view()->Dict_0;
        assert(outer_entries[0].1 == BencodeView::Dict(inner_entries));
        assert forall|t: int| 0 <= t < outer_entries.len() implies bencode::canonical(
            #[trigger] outer_entries[t].1,
        ) by {}
        assert(bencode::entries_sorted(outer_entries));
        assert(bencode::canonical(ext_handshake_view()));
        bencode::lemma_normalize_canonical_id(ext_handshake_view());
        assert(payload@ == spec_encode(ext_handshake_view()));
        assert(payload@.len() <= 0xffff_fffd) by {
            lemma_ext_handshake_len();
        }
    }
    let mut out: Vec<u8> = Vec::new();
    push_u32_be(&mut out, (payload.len() as u32) + 2);
    out.push(20);
    out.push(0);
    out.extend_from_slice(payload.as_slice());
    proof {
        assert(out@ =~= spec_u32_be((spec_encode(ext_handshake_view()).len() + 2) as u32) + seq![
            20u8,
            0u8,
        ] + spec_encode(ext_handshake_view()));
    }
    out
}

/// The handshake dictionary encodes to 24 bytes.
proof fn lemma_ext_handshake_len()
    ensures
        spec_encode(ext_handshake_view()).len() == 24,
{
    reveal_with_fuel(bencode::spec_digits, 3);
    reveal_with_fuel(bencode::spec_encode_entries, 3);
    let inner = seq![(key_ut_metadata(), BencodeView::Int(1))];
    let outer = ext_handshake_view()->Dict_0;
    assert(bencode::spec_digits(1) =~= seq![49u8]);
    assert(bencode::spec_digits(11) =~= seq![49u8, 49u8]);
    assert(bencode::spec_int_bytes(1) =~= seq![49u8]);
    assert(inner.drop_first() =~= Seq::<(Seq<u8>, BencodeView)>::empty());
    assert(bencode::spec_encode_entries(inner.drop_first()).len() == 0);
    assert(bencode::spec_encode_bytes(key_ut_metadata()).len() == 14);
    assert(spec_encode(BencodeView::Int(1)).len() == 3);
    assert(bencode::spec_encode_entries(inner).len() == 17);
    assert(spec_encode(BencodeView::Dict(inner)).len() == 19);
    assert(bencode::spec_encode_bytes(key_m()).len() == 3);
    assert(outer.drop_first() =~= Seq::<(Seq<u8>, BencodeView)>::empty());
    assert(outer[0] == (key_m(), BencodeView::Dict(inner)));
    assert(bencode::spec_encode_entries(outer).len() == 22);
}

/// The entries of the dictionary inside an extended-handshake payload
/// (id byte, extension id byte, then bencode).
pub open spec fn ext_entries(payload: Seq<u8>) -> Option<Seq<(Seq<u8>, BencodeView)>> {
    if payload.len() >= 2 {
        match spec_decode(payload.skip(2)) {
            Some(BencodeView::Dict(d)) => Some(d),
            _ => None,
        }
    } else {
        None
    }
}

/// The entries of the `m` dictionary.
pub open spec fn m_entries(d: Seq<(Seq<u8>, BencodeView)>) -> Option<Seq<(Seq<u8>, BencodeView)>> {
    match dict_lookup(d, key_m()) {
        Some(BencodeView::Dict(m)) => Some(m),
        _ => None,
    }
}

/// The `ut_metadata` entry of an `m` dictionary: `Some(None)` when
/// absent, `Some(Some(i))` when an integer, `None` when present with
/// another type.
pub open spec fn ut_metadata_entry(m: Seq<(Seq<u8>, BencodeView)>) -> Option<Option<int>> {
    match dict_lookup(m, key_ut_metadata()) {
        None => Some(None),
        Some(BencodeView::Int(i)) => Some(Some(i)),
        Some(_) => None,
    }
}

/// Reads the peer's extended handshake: the payload after the length
/// prefix, so the Extension id byte, the extension id byte, and the
/// bencoded dictionary.  Succeeds exactly when the dictionary decodes,
/// holds an `m` dictionary, and its `ut_metadata`, if present, is an
/// integer fitting one byte.
pub fn parse_extension_handshake(payload: &[u8]) -> (r: Result<SupportedExtensions, BtError>)
    ensures
        r is Ok <==> (ext_entries(payload@) matches Some(d) && m_entries(d) matches Some(m)
            && ut_metadata_entry(m) matches Some(u) && (u matches Some(i) ==> 0 <= i <= 255)),
        r matches Ok(se) ==> {
            let m = m_entries(ext_entries(payload@)->Some_0)->Some_0;
            &&& (ut_metadata_entry(m)->Some_0 matches Some(i) ==> se.ut_metadata == Some(i as u8))
            &&& (ut_metadata_entry(m)->Some_0 is None ==> se.ut_metadata is None)
        },
        r matches Err(e) ==> e == BtError::Malformed,
{
    if payload.len() < 2 {
        return Err(BtError::Malformed);
    }
    let rest = vstd::slice::slice_subrange(payload, 2, payload.len());
    let top = match bencode::decode(rest) {
        Ok(v) => v,
        Err(_) => {
            return Err(BtError::Malformed);
        },
    };
    let entries = match &top {
        Bencode::Dict(d) => d,
        _ => {
            return Err(BtError::Malformed);
        },
    };
    proof {
        assert(top@ == BencodeView::Dict(bencode::bview_entries(entries@)));
    }
    let m_key: [u8; 1] = [109];
    proof {
        assert(m_key@ =~= key_m());
    }
    let m = match bencode::dict_get(entries, m_key.as_slice()) {
        Some(Bencode::Dict(m)) => m,
        _ => {
            return Err(BtError::Malformed);
        },
    };
    let ut_key: [u8; 11] = [117, 116, 95, 109, 101, 116, 97, 100, 97, 116, 97];
    proof {
        assert(ut_key@ =~= key_ut_metadata());
    }
    match bencode::dict_get(m, ut_key.as_slice()) {
        None => Ok(SupportedExtensions { ut_metadata: None }),
        Some(Bencode::Int(i)) => {
            if *i < 0 || *i > 255 {
                Err(BtError::Malformed)
            } else {
                Ok(SupportedExtensions { ut_metadata: Some(*i as u8) })
            }
        },
        Some(_) => Err(BtError::Malformed),
    }
}

} // verus!
