//! The 68-byte base handshake: length-prefixed protocol name, eight
//! reserved bytes, the infohash, and the peer id.

use vstd::prelude::*;

use crate::error::BtError;
use crate::hexutil::hex_decode;
use crate::hexutil::hex_encode;
use crate::hexutil::hex_val;
use crate::hexutil::is_hex_digit;
use crate::hexutil::spec_hex;
use crate::peers::wire::push_u64_be;
use crate::peers::wire::be64_val;
use crate::peers::wire::spec_u64_be;
use crate::peers::wire::spec_be64_val;

verus! {

/// The reserved-byte field of the handshake, as a plain 64-bit flag
/// word.  Bit 20 signals support for the extension protocol.
#[derive(Clone, Copy, Debug, PartialEq, Eq, Structural)]
pub struct HandshakeReservedBytes {
    pub bits: u64,
}

impl HandshakeReservedBytes {
    /// No reserved bit set.
    pub fn empty() -> (r: Self)
        ensures
            r.bits == 0,
    {
        HandshakeReservedBytes { bits: 0 }
    }

    /// Only the extension-protocol bit set.
    pub fn extensions_enabled() -> (r: Self)
        ensures
            r.bits == 0x10_0000u64,
    {
        HandshakeReservedBytes { bits: 0x10_0000 }
    }

    /// The raw flag word.
    pub fn bits(&self) -> (r: u64)
        ensures
            r == self.bits,
    {
        self.bits
    }

    /// Whether the extension-protocol bit is set.
    pub fn contains_extensions(&self) -> (r: bool)
        ensures
            r == (self.bits & 0x10_0000u64 == 0x10_0000u64),
    {
        self.bits & 0x10_0000u64 == 0x10_0000u64
    }
}

/// What the peer answered: its peer id, hex-encoded, and its reserved
/// flag word.
#[derive(Clone, Debug, PartialEq, Eq)]
pub struct HandshakeResponse {
    pub encoded_peer_id: String,
    pub reserved_bytes: HandshakeReservedBytes,
}

/// The 19 bytes of `BitTorrent protocol`.
pub open spec fn protocol_bytes() -> Seq<u8> {
    seq![
        66u8,
        105u8,
        116u8,
        84u8,
        111u8,
        114u8,
        114u8,
        101u8,
        110u8,
        116u8,
        32u8,
        112u8,
        114u8,
        111u8,
        116u8,
        111u8,
        99u8,
        111u8,
        108u8,
    ]
}

/// The bytes denoted by a string of hexadecimal digit pairs.
pub open spec fn spec_hex_bytes(s: Seq<char>) -> Seq<u8> {
    Seq::new(s.len() / 2, |i: int| (hex_val(s[2 * i]) * 16 + hex_val(s[2 * i + 1])) as u8)
}

/// The whole 68-byte handshake for a given infohash, reserved word
/// and peer id.
pub open spec fn spec_handshake(hash: Seq<u8>, reserved: u64, peer_id: Seq<u8>) -> Seq<u8> {
    seq![19u8] + protocol_bytes() + spec_u64_be(reserved) + hash + peer_id
}

/// Builds the handshake to send: `[19]` and the protocol name, the
/// reserved bytes, the twenty infohash bytes decoded from `hash_hex`,
/// and the twenty peer-id bytes.
pub fn build_handshake(hash_hex: &str, peer_id: &str, reserved: HandshakeReservedBytes) -> (r:
    Result<Vec<u8>, BtError>)
    requires
        peer_id@.len() == 20,
        peer_id.is_ascii(),
    ensures
        r is Ok <==> (hash_hex@.len() == 40 && forall|i: int|
            0 <= i < 40 ==> is_hex_digit(#[trigger] hash_hex@[i])),
        r matches Ok(v) ==> {
            &&& v@ == spec_handshake(
                spec_hex_bytes(hash_hex@),
                reserved.bits,
                Seq::new(20, |i: int| peer_id@[i] as u8),
            )
            &&& v@.len() == 68
        },
        r matches Err(e) ==> e == BtError::Malformed,
{
    broadcast use vstd::string::is_ascii_spec_bytes;

    let hash = match hex_decode(hash_hex) {
        Some(h) => h,
        None => {
            return Err(BtError::Malformed);
        },
    };
    if hash.len() != 20 {
        return Err(BtError::Malformed);
    }
    proof {
        assert(hash@ =~= spec_hex_bytes(hash_hex@));
    }
    let mut out: Vec<u8> = Vec::new();
    out.push(19);
    out.push(66);
    out.push(105);
    out.push(116);
    out.push(84);
    out.push(111);
    out.push(114);
    out.push(114);
    out.push(101);
    out.push(110);
    out.push(116);
    out.push(32);
    out.push(112);
    out.push(114);
    out.push(111);
    out.push(116);
    out.push(111);
    out.push(99);
    out.push(111);
    out.push(108);
    proof {
        assert(out@ =~= seq![19u8] + protocol_bytes());
    }
    push_u64_be(&mut out, reserved.bits);
    out.extend_from_slice(hash.as_slice());
    let pid = peer_id.as_bytes();
    proof {
        assert(pid@ =~= Seq::new(20, |i: int| peer_id@[i] as u8));
    }
    out.extend_from_slice(pid);
    proof {
        assert(out@ =~= spec_handshake(
            spec_hex_bytes(hash_hex@),
            reserved.bits,
            Seq::new(20, |i: int| peer_id@[i] as u8),
        ));
    }
    Ok(out)
}

/// Reads the peer's answer: exactly 68 bytes, of which bytes 20 to 27
/// carry the reserved word and the last twenty the peer id, returned
/// hex-encoded.  Anything shorter or longer is a short handshake.
pub fn parse_handshake(buffer: &[u8]) -> (r: Result<HandshakeResponse, BtError>)
    ensures
        r is Ok <==> buffer@.len() == 68,
        r matches Ok(h) ==> {
            &&& h.encoded_peer_id@ == spec_hex(buffer@.subrange(48, 68))
            &&& h.reserved_bytes.bits as int == spec_be64_val(buffer@.subrange(20, 28))
        },
        r matches Err(e) ==> e == BtError::ShortHandshake,
{
    if buffer.len() != 68 {
        return Err(BtError::ShortHandshake);
    }
    let peer_id_slice = vstd::slice::slice_subrange(buffer, 48, 68);
    let encoded_peer_id = hex_encode(peer_id_slice);
    let bits = be64_val(
        buffer[20],
        buffer[21],
        buffer[22],
        buffer[23],
        buffer[24],
        buffer[25],
        buffer[26],
        buffer[27],
    );
    proof {
        assert(buffer@.subrange(20, 28) =~= seq![
            buffer@[20],
            buffer@[21],
            buffer@[22],
            buffer@[23],
            buffer@[24],
            buffer@[25],
            buffer@[26],
            buffer@[27],
        ]);
    }
    Ok(HandshakeResponse { encoded_peer_id, reserved_bytes: HandshakeReservedBytes { bits } })
}

} // verus!
