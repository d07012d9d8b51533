pub mod wire;

mod generate_peer_id;
pub use generate_peer_id::generate_peer_id;

mod shake_hands;
pub use shake_hands::HandshakeReservedBytes;
pub use shake_hands::HandshakeResponse;
pub use shake_hands::build_handshake;
pub use shake_hands::parse_handshake;

mod peer_message;
pub use peer_message::PeerMessage;
pub use peer_message::PeerMessageId;

mod fetch_peers;
pub use fetch_peers::prepare_hash;
pub use fetch_peers::tracker_url;
pub use fetch_peers::parse_peers;

mod extension_handshake;
pub use extension_handshake::SupportedExtensions;
pub use extension_handshake::build_extension_handshake;
pub use extension_handshake::parse_extension_handshake;

mod extension_messages;
pub use extension_messages::ExtensionMessage;
pub use extension_messages::ExtensionMessageId;
pub use extension_messages::MetadataRequestDictionary;
pub use extension_messages::build_metadata_request;
pub use extension_messages::parse_metadata_response;
pub use extension_messages::metadata_matches;
