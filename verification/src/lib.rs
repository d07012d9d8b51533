mod error;
pub use error::BtError;
pub use error::MetaField;

pub mod bencode;
pub mod text;
pub mod hexutil;

mod hash;
pub use hash::calculate_hash;
pub use hash::sha1_hex_of;

mod torrent;
pub use torrent::Torrent;

mod piece;
pub use piece::Piece;

mod file_info;
pub use file_info::FileInfo;

mod magnet_link;
pub use magnet_link::MagnetLink;

mod ip_address;
pub use ip_address::IpAddress;

pub mod peers;
