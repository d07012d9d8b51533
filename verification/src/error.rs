use vstd::prelude::*;

verus! {

/// The metainfo field whose absence or wrong type made a torrent invalid.
#[derive(Clone, Copy, Debug, PartialEq, Eq, Structural)]
pub enum MetaField {
    TopLevel,
    Announce,
    Info,
    Length,
    PieceLength,
    Pieces,
}

/// Every failure the library itself can detect.  I/O failures and HTTP
/// status failures arise only outside the library, in the code that owns
/// the sockets, which uses the same type to report them.
#[derive(Clone, Copy, Debug, PartialEq, Eq, Structural)]
pub enum BtError {
    /// Bencoded input that no canonical value encodes to.
    Malformed,
    /// A metainfo dictionary missing a required field, or holding it with
    /// the wrong type or an inconsistent value.
    InvalidMetainfo(MetaField),
    /// A magnet URI that does not follow the recognized key/value grammar.
    InvalidMagnet,
    /// A tracker answered with a non-success HTTP status.
    TrackerError(u16),
    /// A tracker response whose shape is not the expected dictionary.
    BadTrackerResponse,
    /// A socket or file operation failed.
    Io,
    /// A handshake exchange moved fewer than the required 68 bytes.
    ShortHandshake,
    /// A peer message with an id byte outside the known id space.
    UnknownPeerMessage(u8),
    /// A message that the protocol does not allow in the current state.
    ProtocolViolation,
    /// A fully downloaded piece whose SHA-1 digest differs from the
    /// expected one; carries the piece index.
    PieceHashMismatch(u32),
    /// A peer that did not set the extension-protocol reserved bit.
    ExtensionNotSupported,
    /// An extension handshake that offered no ut_metadata mapping.
    UtMetadataNotOffered,
    /// Reassembled metadata whose SHA-1 digest differs from the infohash.
    MetadataHashMismatch,
}

} // verus!
