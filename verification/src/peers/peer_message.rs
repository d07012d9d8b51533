//! Typed peer-wire messages, their length-prefixed framing, and the
//! driver step that turns a received message into state changes and
//! messages to send.

use vstd::prelude::*;

use crate::error::BtError;
use crate::file_info::FileInfo;
use crate::peers::wire::push_u32_be;
use crate::peers::wire::be32_val;
use crate::peers::wire::spec_u32_be;
use crate::peers::wire::spec_be32_val;
use crate::piece::spec_block_len;
use crate::piece::spec_num_blocks;

verus! {

/// The id space of the peer wire protocol.  `KeepAlive` is synthetic:
/// it is a zero-length frame with no id byte at all.
#[derive(Clone, Copy, Debug, PartialEq, Eq, Structural)]
pub enum PeerMessageId {
    Choke,
    Unchoke,
    Interested,
    NotInterested,
    Have,
    Bitfield,
    Request,
    Piece,
    Cancel,
    Extension,
    KeepAlive,
}

/// The wire byte of each id.  `KeepAlive` never goes on the wire, so
/// its entry here is arbitrary.
pub open spec fn spec_id_byte(id: PeerMessageId) -> u8 {
    match id {
        PeerMessageId::Choke => 0,
        PeerMessageId::Unchoke => 1,
        PeerMessageId::Interested => 2,
        PeerMessageId::NotInterested => 3,
        PeerMessageId::Have => 4,
        PeerMessageId::Bitfield => 5,
        PeerMessageId::Request => 6,
        PeerMessageId::Piece => 7,
        PeerMessageId::Cancel => 8,
        PeerMessageId::Extension => 20,
        PeerMessageId::KeepAlive => 0,
    }
}

/// A byte that names a message id.
pub open spec fn is_known_id_byte(b: u8) -> bool {
    b <= 8 || b == 20
}

#[derive(Debug, Clone, PartialEq, Eq)]
pub struct PeerMessage {
    pub id: PeerMessageId,
    pub payload: Vec<u8>,
}

/// The framed form of a message: a keep-alive is a zero length and
/// nothing else; anything else is the payload length plus one, the id
/// byte, and the payload.
pub open spec fn spec_frame(m: PeerMessage) -> Seq<u8> {
    if m.id is KeepAlive {
        seq![0u8, 0u8, 0u8, 0u8]
    } else {
        spec_u32_be((m.payload@.len() + 1) as u32) + seq![spec_id_byte(m.id)] + m.payload@
    }
}

/// One Request message: piece index, block offset, block length, each
/// four big-endian bytes.
pub open spec fn spec_request_payload(t: (int, int, int)) -> Seq<u8> {
    spec_u32_be(t.0 as u32) + spec_u32_be(t.1 as u32) + spec_u32_be(t.2 as u32)
}

/// The `(piece, offset, length)` of every block of piece `pi`.
pub open spec fn piece_tuples(pi: int, size: int) -> Seq<(int, int, int)> {
    Seq::new(
        spec_num_blocks(size as nat),
        |k: int| (pi, k * 16384, spec_block_len(size as nat, k)),
    )
}

/// All request tuples for the pieces from `i` on, in piece order.
pub open spec fn spec_requests_from(pieces: Seq<crate::piece::Piece>, i: int) -> Seq<
    (int, int, int),
>
    decreases pieces.len() - i,
{
    if i < 0 || i >= pieces.len() {
        Seq::empty()
    } else {
        piece_tuples(i, pieces[i].data@.len() as int) + spec_requests_from(pieces, i + 1)
    }
}

/// A message carrying the Request for one tuple.
pub open spec fn msg_is_request(m: PeerMessage, t: (int, int, int)) -> bool {
    m.id is Request && m.payload@ == spec_request_payload(t)
}

/// Whether a Piece payload addresses a block that fits the download.
pub open spec fn piece_msg_ok(fi: FileInfo, payload: Seq<u8>) -> bool {
    &&& payload.len() >= 8
    &&& spec_be32_val(payload.subrange(0, 4)) < fi.pieces@.len()
    &&& ({
        let pi = spec_be32_val(payload.subrange(0, 4));
        let begin = spec_be32_val(payload.subrange(4, 8));
        &&& begin + (payload.len() - 8) <= fi.pieces@[pi].data@.len()
        &&& begin / 16384 < fi.pieces@[pi].completed@.len()
    })
}

impl PeerMessage {
    /// The zero-length frame.
    pub fn keep_alive() -> (r: Self)
        ensures
            r.id is KeepAlive,
            r.payload@.len() == 0,
    {
        PeerMessage { id: PeerMessageId::KeepAlive, payload: Vec::new() }
    }

    /// The empty Interested message.
    pub fn interested() -> (r: Self)
        ensures
            r.id is Interested,
            r.payload@.len() == 0,
    {
        PeerMessage { id: PeerMessageId::Interested, payload: Vec::new() }
    }

    /// Rebuilds a message from its wire id byte and payload, as read
    /// from a nonempty frame.
    pub fn from_wire(id_byte: u8, payload: Vec<u8>) -> (r: Result<Self, BtError>)
        ensures
            r is Ok <==> is_known_id_byte(id_byte),
            r matches Ok(m) ==> {
                &&& !(m.id is KeepAlive)
                &&& spec_id_byte(m.id) == id_byte
                &&& m.payload == payload
            },
            r matches Err(e) ==> e == BtError::UnknownPeerMessage(id_byte),
    {
        let id = match id_byte {
            0 => PeerMessageId::Choke,
            1 => PeerMessageId::Unchoke,
            2 => PeerMessageId::Interested,
            3 => PeerMessageId::NotInterested,
            4 => PeerMessageId::Have,
            5 => PeerMessageId::Bitfield,
            6 => PeerMessageId::Request,
            7 => PeerMessageId::Piece,
            8 => PeerMessageId::Cancel,
            20 => PeerMessageId::Extension,
            _ => {
                return Err(BtError::UnknownPeerMessage(id_byte));
            },
        };
        Ok(PeerMessage { id, payload })
    }

    /// The framed bytes of this message.
    pub fn to_bytes(&self) -> (r: Vec<u8>)
        requires
            self.payload@.len() + 1 <= u32::MAX,
        ensures
            r@ == spec_frame(*self),
    {
        let mut out: Vec<u8> = Vec::new();
        if let PeerMessageId::KeepAlive = self.id {
            push_u32_be(&mut out, 0);
            proof {
                assert(spec_u32_be(0u32) =~= seq![0u8, 0u8, 0u8, 0u8]) by (bit_vector);
                assert(out@ =~= spec_frame(*self));
            }
            return out;
        }
        push_u32_be(&mut out, (self.payload.len() as u32) + 1);
        let id_byte: u8 = match self.id {
            PeerMessageId::Choke => 0,
            PeerMessageId::Unchoke => 1,
            PeerMessageId::Interested => 2,
            PeerMessageId::NotInterested => 3,
            PeerMessageId::Have => 4,
            PeerMessageId::Bitfield => 5,
            PeerMessageId::Request => 6,
            PeerMessageId::Piece => 7,
            PeerMessageId::Cancel => 8,
            PeerMessageId::Extension => 20,
            PeerMessageId::KeepAlive => 0,
        };
        out.push(id_byte);
        out.extend_from_slice(self.payload.as_slice());
        proof {
            assert(out@ =~= spec_frame(*self));
        }
        out
    }

    /// One driver step on a received message; the session phases are
    /// the caller's.  A Bitfield asks for Interested to be sent; an
    /// Unchoke asks for a Request per block of every piece, in order;
    /// a Piece writes its block into the addressed piece; a keep-alive
    /// does nothing.  Every other id is reported as a protocol
    /// violation: the ids that are merely acceptable and ignored while
    /// the driver still awaits the Bitfield are the caller's to
    /// consume before stepping here, and none of them is acted on
    /// after it.
    #[verifier::loop_isolation(false)]
    #[verifier::rlimit(60)]
    pub fn process(&self, file_info: &mut FileInfo) -> (r: Result<Vec<PeerMessage>, BtError>)
        requires
            old(file_info).wf(),
            old(file_info).pieces@.len() <= u32::MAX,
        ensures
            final(file_info).wf(),
            match self.id {
                PeerMessageId::Bitfield => {
                    &&& *final(file_info) == *old(file_info)
                    &&& r matches Ok(v) && v@.len() == 1 && v@[0].id is Interested
                        && v@[0].payload@.len() == 0
                },
                PeerMessageId::Unchoke => {
                    &&& *final(file_info) == *old(file_info)
                    &&& r matches Ok(v) && v@.len() == spec_requests_from(
                        old(file_info).pieces@,
                        0,
                    ).len() && forall|m: int|
                        0 <= m < v@.len() ==> msg_is_request(
                            #[trigger] v@[m],
                            spec_requests_from(old(file_info).pieces@, 0)[m],
                        )
                },
                PeerMessageId::Piece => ({
                    let fi0 = *old(file_info);
                    let fi2 = *final(file_info);
                    if piece_msg_ok(fi0, self.payload@) {
                        let pi = spec_be32_val(self.payload@.subrange(0, 4));
                        let begin = spec_be32_val(self.payload@.subrange(4, 8));
                        let blen = self.payload@.len() - 8;
                        &&& r matches Ok(v) && v@.len() == 0
                        &&& fi2.pieces@.len() == fi0.pieces@.len()
                        &&& fi2.path == fi0.path
                        &&& (forall|j: int|
                            0 <= j < fi2.pieces@.len() && j != pi ==> fi2.pieces@[j]
                                == fi0.pieces@[j])
                        &&& fi2.pieces@[pi].hash == fi0.pieces@[pi].hash
                        &&& fi2.pieces@[pi].data@.len() == fi0.pieces@[pi].data@.len()
                        &&& (forall|t: int|
                            0 <= t < fi2.pieces@[pi].data@.len() ==> fi2.pieces@[pi].data@[t] == (
                            if begin <= t < begin + blen {
                                self.payload@[t - begin + 8]
                            } else {
                                fi0.pieces@[pi].data@[t]
                            }))
                        &&& fi2.pieces@[pi].completed@ == fi0.pieces@[pi].completed@.update(
                            begin / 16384,
                            true,
                        )
                    } else {
                        &&& fi2 == fi0
                        &&& r matches Err(e) && e == BtError::ProtocolViolation
                    }
                }),
                PeerMessageId::KeepAlive => {
                    &&& *final(file_info) == *old(file_info)
                    &&& r matches Ok(v) && v@.len() == 0
                },
                _ => {
                    &&& *final(file_info) == *old(file_info)
                    &&& r matches Err(e) && e == BtError::ProtocolViolation
                },
            },
    {
        match self.id {
            PeerMessageId::Bitfield => {
                let mut v: Vec<PeerMessage> = Vec::new();
                v.push(PeerMessage::interested());
                Ok(v)
            },
            PeerMessageId::Unchoke => {
                let ghost pieces = file_info.pieces@;
                let ghost tuples = spec_requests_from(pieces, 0);
                let mut v: Vec<PeerMessage> = Vec::new();
                let mut i: usize = 0;
                proof {
                    assert(tuples.skip(0) =~= tuples);
                }
                while i < file_info.pieces.len()
                    invariant
                        i <= pieces.len(),
                        file_info == old(file_info),
                        pieces == file_info.pieces@,
                        v@.len() + spec_requests_from(pieces, i as int).len() == tuples.len(),
                        tuples.skip(v@.len() as int) == spec_requests_from(pieces, i as int),
                        forall|m: int|
                            0 <= m < v@.len() ==> msg_is_request(#[trigger] v@[m], tuples[m]),
                    decreases pieces.len() - i,
                {
                    let piece = &file_info.pieces[i];
                    let blocks = piece.block_details();
                    let ghost ptuples = piece_tuples(i as int, piece.data@.len() as int);
                    proof {
                        assert(spec_requests_from(pieces, i as int) == ptuples
                            + spec_requests_from(pieces, i + 1));
                    }
                    let ghost done = v@.len();
                    let mut k: usize = 0;
                    while k < blocks.len()
                        invariant
                            k <= blocks@.len(),
                            file_info == old(file_info),
                            pieces == file_info.pieces@,
                            i < pieces.len(),
                            blocks@.len() == ptuples.len(),
                            piece == &pieces[i as int],
                            ptuples == piece_tuples(i as int, pieces[i as int].data@.len() as int),
                            forall|t: int|
                                0 <= t < blocks@.len() ==> (#[trigger] blocks@[t]).0 == t * 16384
                                    && blocks@[t].1 == spec_block_len(
                                    pieces[i as int].data@.len(),
                                    t,
                                ),
                            v@.len() == done + k,
                            done + ptuples.len() + spec_requests_from(pieces, i + 1).len()
                                == tuples.len(),
                            tuples.skip(done as int) == ptuples + spec_requests_from(
                                pieces,
                                i + 1,
                            ),
                            forall|m: int|
                                0 <= m < v@.len() ==> msg_is_request(#[trigger] v@[m], tuples[m]),
                        decreases blocks@.len() - k,
                    {
                        let (offset, size) = blocks[k];
                        let mut payload: Vec<u8> = Vec::new();
                        push_u32_be(&mut payload, i as u32);
                        push_u32_be(&mut payload, offset);
                        push_u32_be(&mut payload, size);
                        proof {
                            assert(tuples[done + k] == (ptuples + spec_requests_from(
                                pieces,
                                i + 1,
                            ))[k as int]);
                            assert(tuples[done + k] == ptuples[k as int]);
                            assert(payload@ =~= spec_request_payload(ptuples[k as int]));
                        }
                        v.push(PeerMessage { id: PeerMessageId::Request, payload });
                        k = k + 1;
                    }
                    proof {
                        assert(tuples.skip(done as int).skip(ptuples.len() as int)
                            =~= tuples.skip((done + ptuples.len()) as int));
                        assert((ptuples + spec_requests_from(pieces, i + 1)).skip(
                            ptuples.len() as int,
                        ) =~= spec_requests_from(pieces, i + 1));
                        assert(tuples.skip((done + ptuples.len()) as int) =~= spec_requests_from(
                            pieces,
                            i + 1,
                        ));
                    }
                    i = i + 1;
                }
                proof {
                    assert(spec_requests_from(pieces, pieces.len() as int).len() == 0);
                }
                Ok(v)
            },
            PeerMessageId::Piece => {
                if self.payload.len() < 8 {
                    return Err(BtError::ProtocolViolation);
                }
                let pi32 = be32_val(
                    self.payload[0],
                    self.payload[1],
                    self.payload[2],
                    self.payload[3],
                );
                let begin32 = be32_val(
                    self.payload[4],
                    self.payload[5],
                    self.payload[6],
                    self.payload[7],
                );
                proof {
                    assert(self.payload@.subrange(0, 4) =~= seq![
                        self.payload@[0],
                        self.payload@[1],
                        self.payload@[2],
                        self.payload@[3],
                    ]);
                    assert(self.payload@.subrange(4, 8) =~= seq![
                        self.payload@[4],
                        self.payload@[5],
                        self.payload@[6],
                        self.payload@[7],
                    ]);
                }
                let pi = pi32 as usize;
                let begin = begin32 as usize;
                if pi >= file_info.pieces.len() {
                    return Err(BtError::ProtocolViolation);
                }
                let blen = self.payload.len() - 8;
                if begin > file_info.pieces[pi].data.len() || blen > file_info.pieces[pi].data.len()
                    - begin {
                    return Err(BtError::ProtocolViolation);
                }
                if begin / 16384 >= file_info.pieces[pi].completed.len() {
                    return Err(BtError::ProtocolViolation);
                }
                assert(piece_msg_ok(*file_info, self.payload@));
                let block = vstd::slice::slice_to_vec(
                    vstd::slice::slice_subrange(self.payload.as_slice(), 8, self.payload.len()),
                );
                let ghost before = *file_info;
                let piece = &mut file_info.pieces[pi];
                piece.update_block(begin, block);
                Ok(Vec::new())
            },
            PeerMessageId::KeepAlive => Ok(Vec::new()),
            _ => Err(BtError::ProtocolViolation),
        }
    }
}

} // verus!
