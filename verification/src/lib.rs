//! A verified bencode codec: a parser from bytes to a dynamic value tree, a
//! deterministic canonical encoder back to bytes, and a typed mapping layer
//! that bridges the tree and static record types, together with the small
//! collaborators built on top of it (SHA-1 hashing, HTTP response reading,
//! tracker announce bookkeeping).

use vstd::prelude::*;

pub mod bytestring;
pub mod canon;
pub mod decode;
pub mod encode;
pub mod error;
pub mod http;
pub mod http_body;
pub mod http_headers;
pub mod iomap;
pub mod mock;
pub mod numtext;
pub mod parse;
pub mod rand;
pub mod roundtrip;
pub mod runner;
pub mod sha1;
pub mod text;
pub mod torrent;
pub mod watcher;
pub mod trackers;
pub mod value;

pub use bytestring::ByteString;
pub use error::BencodeError;
pub use error::ErrorKind;
pub use iomap::InsertOrderMap;
pub use value::BencodeValue;
pub use parse::read;
pub use torrent::Torrent;
pub use trackers::Peer;
pub use trackers::TrackerInfo;
pub use trackers::url_encode;
pub use torrent::Info;
pub use torrent::File;
pub use encode::encode;
pub use decode::decode;
pub use decode::Decodable;
pub use encode::Encodable;
pub use parse::read_integer;
pub use parse::read_string;
pub use parse::read_list;
pub use parse::read_dictionary;
pub use sha1::Sha1;
pub use sha1::sha1_str_as_str;
pub use sha1::sha1_str_as_bytes;
pub use sha1::sha1_bytes_as_bytes;
pub use watcher::ObservationEvent;

verus! {

} // verus!
