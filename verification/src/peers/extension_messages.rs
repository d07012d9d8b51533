//! The ut_metadata messages: the bencoded request for a metadata
//! piece, and the response whose payload ends with the raw bytes of
//! the `info` dictionary.

use vstd::prelude::*;

use crate::bencode;
use crate::bencode::Bencode;
use crate::bencode::BencodeView;
use crate::bencode::dict_lookup;
use crate::bencode::sp_value;
use crate::bencode::spec_encode;
use crate::error::BtError;
use crate::hash::calculate_hash;
use crate::hash::sha1_hex_of;
use crate::hexutil::hex_digits_match;
use crate::hexutil::hex_str_matches;

verus! {

/// The two ut_metadata message types this client handles.
#[derive(Clone, Copy, Debug, PartialEq, Eq, Structural)]
pub enum ExtensionMessageId {
    MetadataRequest,
    MetadataResponse,
}

/// The wire value of a ut_metadata message type.
pub open spec fn spec_ext_id_byte(id: ExtensionMessageId) -> u8 {
    match id {
        ExtensionMessageId::MetadataRequest => 0,
        ExtensionMessageId::MetadataResponse => 1,
    }
}

/// The `msg_type` and `piece` fields every ut_metadata dictionary
/// carries.
#[derive(Clone, Copy, Debug, PartialEq, Eq, Structural)]
pub struct MetadataRequestDictionary {
    pub msg_type: u32,
    pub piece: u32,
}

/// A decoded ut_metadata message header.
#[derive(Clone, Copy, Debug, PartialEq, Eq, Structural)]
pub struct ExtensionMessage {
    pub id: ExtensionMessageId,
    pub dictionary: MetadataRequestDictionary,
}

/// The bytes of the key `msg_type`.
pub open spec fn key_msg_type() -> Seq<u8> {
    seq![109u8, 115u8, 103u8, 95u8, 116u8, 121u8, 112u8, 101u8]
}

/// The bytes of the key `piece`.
pub open spec fn key_piece() -> Seq<u8> {
    seq![112u8, 105u8, 101u8, 99u8, 101u8]
}

/// The bytes of the key `total_size`.
pub open spec fn key_total_size() -> Seq<u8> {
    seq![116u8, 111u8, 116u8, 97u8, 108u8, 95u8, 115u8, 105u8, 122u8, 101u8]
}

/// An integer entry of a dictionary.
pub open spec fn dict_int(d: Seq<(Seq<u8>, BencodeView)>, key: Seq<u8>) -> Option<int> {
    match dict_lookup(d, key) {
        Some(BencodeView::Int(i)) => Some(i),
        _ => None,
    }
}

/// The dictionary `{"msg_type": 0, "piece": <piece>}` of a metadata
/// request.
pub open spec fn metadata_request_view(piece: u32) -> BencodeView {
    BencodeView::Dict(
        seq![
            (key_msg_type(), BencodeView::Int(0)),
            (key_piece(), BencodeView::Int(piece as int)),
        ],
    )
}

/// Builds the payload of the Extension message that requests metadata
/// piece `piece`: the peer's ut_metadata id byte, then the bencoded
/// request dictionary.
pub fn build_metadata_request(peer_ext_id: u8, piece: u32) -> (r: Vec<u8>)
    ensures
        r@ == seq![peer_ext_id] + spec_encode(metadata_request_view(piece)),
{
    let mut mt_key: Vec<u8> = Vec::new();
    mt_key.push(109);
    mt_key.push(115);
    mt_key.push(103);
    mt_key.push(95);
    mt_key.push(116);
    mt_key.push(121);
    mt_key.push(112);
    mt_key.push(101);
    proof {
        assert(mt_key@ =~= key_msg_type());
    }
    let mut p_key: Vec<u8> = Vec::new();
    p_key.push(112);
    p_key.push(105);
    p_key.push(101);
    p_key.push(99);
    p_key.push(101);
    proof {
        assert(p_key@ =~= key_piece());
    }
    let mut entries: Vec<(Vec<u8>, Bencode)> = Vec::new();
    entries.push((mt_key, Bencode::Int(0)));
    entries.push((p_key, Bencode::Int(piece as i64)));
    let payload = bencode::encode_dict(&entries);
    proof {
        bencode::lemma_bview_entries(entries@);
        assert(entries@[0].0@ == key_msg_type());
        assert(entries@[1].0@ == key_piece());
        assert(bencode::bview_entries(entries@)[0] == (
            entries@[0].0@,
            bencode::bview(entries@[0].1),
        ));
        assert(bencode::bview_entries(entries@)[1] == (
            entries@[1].0@,
            bencode::bview(entries@[1].1),
        ));
        assert(bencode::bview_entries(entries@) =~= metadata_request_view(piece)->Dict_0);
        assert(key_msg_type()[0] == 109u8 && key_piece()[0] == 112u8);
        assert(bencode::lex_less(key_msg_type(), key_piece()));
        let req_entries = metadata_request_view(piece)->Dict_0;
        assert(req_entries[0].1 == BencodeView::Int(0));
        assert(req_entries[1].1 == BencodeView::Int(piece as int));
        assert(bencode::canonical(BencodeView::Int(0)));
        assert(bencode::canonical(BencodeView::Int(piece as int)));
        assert forall|t: int| 0 <= t < req_entries.len() implies bencode::canonical(
            #[trigger] req_entries[t].1,
        ) by {}
        assert(req_entries[0].0 == key_msg_type() && req_entries[1].0 == key_piece());
        assert(bencode::entries_sorted(req_entries));
        assert(bencode::canonical(metadata_request_view(piece)));
        bencode::lemma_normalize_canonical_id(metadata_request_view(piece));
    }
    let mut out: Vec<u8> = Vec::new();
    out.push(peer_ext_id);
    out.extend_from_slice(payload.as_slice());
    proof {
        assert(out@ =~= seq![peer_ext_id] + spec_encode(metadata_request_view(piece)));
    }
    out
}

impl ExtensionMessage {
    /// Reads the header of a ut_metadata message: the extension id
    /// byte, then the bencoded dictionary with `msg_type` and `piece`.
    /// Bytes after the dictionary are left alone.
    pub fn from_bytes(bytes: &[u8]) -> (r: Result<ExtensionMessage, BtError>)
        ensures
            r is Ok <==> ({
                &&& bytes@.len() >= 1
                &&& (bytes@[0] == 0 || bytes@[0] == 1)
                &&& (sp_value(bytes@.skip(1)) matches Some(p) && p.0 is Dict)
                &&& (dict_int(sp_value(bytes@.skip(1))->Some_0.0->Dict_0, key_msg_type())
                    matches Some(mt) && 0 <= mt <= u32::MAX)
                &&& (dict_int(sp_value(bytes@.skip(1))->Some_0.0->Dict_0, key_piece())
                    matches Some(pc) && 0 <= pc <= u32::MAX)
            }),
            r matches Ok(m) ==> {
                &&& bytes@.len() >= 1
                &&& spec_ext_id_byte(m.id) == bytes@[0]
                &&& sp_value(bytes@.skip(1)) matches Some(p) && p.0 is Dict
                &&& dict_int(sp_value(bytes@.skip(1))->Some_0.0->Dict_0, key_msg_type()) == Some(
                    m.dictionary.msg_type as int,
                )
                &&& dict_int(sp_value(bytes@.skip(1))->Some_0.0->Dict_0, key_piece()) == Some(
                    m.dictionary.piece as int,
                )
            },
            r matches Err(e) ==> e == BtError::Malformed,
    {
        if bytes.len() < 1 {
            return Err(BtError::Malformed);
        }
        let id = if bytes[0] == 0 {
            ExtensionMessageId::MetadataRequest
        } else if bytes[0] == 1 {
            ExtensionMessageId::MetadataResponse
        } else {
            return Err(BtError::Malformed);
        };
        let rest = vstd::slice::slice_subrange(bytes, 1, bytes.len());
        let dict = match parse_metadata_dict(rest) {
            Ok(d) => d,
            Err(e) => {
                return Err(e);
            },
        };
        Ok(ExtensionMessage { id, dictionary: dict })
    }
}

/// Reads the `msg_type` and `piece` fields of the bencoded dictionary
/// at the head of `bytes`.
fn parse_metadata_dict(bytes: &[u8]) -> (r: Result<MetadataRequestDictionary, BtError>)
    ensures
        r is Ok <==> ({
            &&& (sp_value(bytes@) matches Some(p) && p.0 is Dict)
            &&& (dict_int(sp_value(bytes@)->Some_0.0->Dict_0, key_msg_type()) matches Some(mt) && 0
                <= mt <= u32::MAX)
            &&& (dict_int(sp_value(bytes@)->Some_0.0->Dict_0, key_piece()) matches Some(pc) && 0
                <= pc <= u32::MAX)
        }),
        r matches Ok(d) ==> {
            &&& sp_value(bytes@) matches Some(p) && p.0 is Dict
            &&& dict_int(sp_value(bytes@)->Some_0.0->Dict_0, key_msg_type()) == Some(
                d.msg_type as int,
            )
            &&& dict_int(sp_value(bytes@)->Some_0.0->Dict_0, key_piece()) == Some(d.piece as int)
        },
        r matches Err(e) ==> e == BtError::Malformed,
{
    let head = match bencode::decode_prefix(bytes) {
        Ok(p) => p.0,
        Err(_) => {
            return Err(BtError::Malformed);
        },
    };
    let entries = match &head {
        Bencode::Dict(d) => d,
        _ => {
            return Err(BtError::Malformed);
        },
    };
    proof {
        assert(head@ == BencodeView::Dict(bencode::bview_entries(entries@)));
    }
    let mt_key: [u8; 8] = [109, 115, 103, 95, 116, 121, 112, 101];
    proof {
        assert(mt_key@ =~= key_msg_type());
    }
    let msg_type = match bencode::dict_get(entries, mt_key.as_slice()) {
        Some(Bencode::Int(i)) => *i,
        _ => {
            return Err(BtError::Malformed);
        },
    };
    if msg_type < 0 || msg_type > 4294967295 {
        return Err(BtError::Malformed);
    }
    let p_key: [u8; 5] = [112, 105, 101, 99, 101];
    proof {
        assert(p_key@ =~= key_piece());
    }
    let piece = match bencode::dict_get(entries, p_key.as_slice()) {
        Some(Bencode::Int(i)) => *i,
        _ => {
            return Err(BtError::Malformed);
        },
    };
    if piece < 0 || piece > 4294967295 {
        return Err(BtError::Malformed);
    }
    Ok(MetadataRequestDictionary { msg_type: msg_type as u32, piece: piece as u32 })
}

/// Splits a metadata-response payload (extension id byte, bencoded
/// dictionary, raw bytes) into its header fields and the raw `info`
/// piece: the last `total_size` bytes, as the protocol defines the
/// boundary.
pub fn parse_metadata_response(bytes: &[u8]) -> (r: Result<(u32, Vec<u8>), BtError>)
    ensures
        r is Ok <==> ({
            &&& bytes@.len() >= 1
            &&& bytes@[0] == 1
            &&& (sp_value(bytes@.skip(1)) matches Some(h) && h.0 is Dict)
            &&& dict_int(sp_value(bytes@.skip(1))->Some_0.0->Dict_0, key_msg_type()) == Some(1int)
            &&& (dict_int(sp_value(bytes@.skip(1))->Some_0.0->Dict_0, key_piece()) matches Some(pc)
                && 0 <= pc <= u32::MAX)
            &&& (dict_int(sp_value(bytes@.skip(1))->Some_0.0->Dict_0, key_total_size())
                matches Some(ts) && 0 <= ts <= bytes@.len())
        }),
        r matches Ok(p) ==> {
            &&& bytes@.len() >= 1
            &&& bytes@[0] == 1
            &&& sp_value(bytes@.skip(1)) matches Some(d) && d.0 is Dict
            &&& ({
                let dict = sp_value(bytes@.skip(1))->Some_0.0->Dict_0;
                &&& dict_int(dict, key_msg_type()) == Some(1int)
                &&& dict_int(dict, key_piece()) == Some(p.0 as int)
                &&& dict_int(dict, key_total_size()) == Some(p.1@.len() as int)
                &&& p.1@ == bytes@.skip(bytes@.len() - p.1@.len())
            })
        },
        r matches Err(e) ==> e == BtError::Malformed,
{
    if bytes.len() < 1 {
        return Err(BtError::Malformed);
    }
    if bytes[0] != 1 {
        return Err(BtError::Malformed);
    }
    let rest = vstd::slice::slice_subrange(bytes, 1, bytes.len());
    let head = match bencode::decode_prefix(rest) {
        Ok(p) => p.0,
        Err(_) => {
            return Err(BtError::Malformed);
        },
    };
    let entries = match &head {
        Bencode::Dict(d) => d,
        _ => {
            return Err(BtError::Malformed);
        },
    };
    proof {
        assert(head@ == BencodeView::Dict(bencode::bview_entries(entries@)));
    }
    let mt_key: [u8; 8] = [109, 115, 103, 95, 116, 121, 112, 101];
    proof {
        assert(mt_key@ =~= key_msg_type());
    }
    let msg_type = match bencode::dict_get(entries, mt_key.as_slice()) {
        Some(Bencode::Int(i)) => *i,
        _ => {
            return Err(BtError::Malformed);
        },
    };
    if msg_type != 1 {
        return Err(BtError::Malformed);
    }
    let p_key: [u8; 5] = [112, 105, 101, 99, 101];
    proof {
        assert(p_key@ =~= key_piece());
    }
    let piece = match bencode::dict_get(entries, p_key.as_slice()) {
        Some(Bencode::Int(i)) => *i,
        _ => {
            return Err(BtError::Malformed);
        },
    };
    if piece < 0 || piece > 4294967295 {
        return Err(BtError::Malformed);
    }
    let ts_key: [u8; 10] = [116, 111, 116, 97, 108, 95, 115, 105, 122, 101];
    proof {
        assert(ts_key@ =~= key_total_size());
    }
    let total_size = match bencode::dict_get(entries, ts_key.as_slice()) {
        Some(Bencode::Int(i)) => *i,
        _ => {
            return Err(BtError::Malformed);
        },
    };
    if total_size < 0 || (total_size as u64) > (bytes.len() as u64) {
        return Err(BtError::Malformed);
    }
    let n = total_size as usize;
    let start = bytes.len() - n;
    let info = vstd::slice::slice_to_vec(vstd::slice::slice_subrange(bytes, start, bytes.len()));
    proof {
        assert(info@ =~= bytes@.skip(bytes@.len() - n));
    }
    Ok((piece as u32, info))
}

/// Whether raw `info` bytes hash to an expected infohash, given as
/// forty hexadecimal digits of either case: digests compare digit by
/// digit, blind to case.
pub fn metadata_matches(info_bytes: &[u8], expected_hex: &str) -> (r: bool)
    ensures
        r == hex_digits_match(sha1_hex_of(info_bytes@), expected_hex@),
{
    let computed = calculate_hash(info_bytes);
    hex_str_matches(computed.as_str(), expected_hex)
}

} // verus!
