//! Bencode codec and BitTorrent metainfo parsing, with verified round-trip
//! guarantees between decoding and encoding.

pub mod bytes;
pub mod decode;
pub mod encode;
pub mod hash;
pub mod metainfo;
pub mod model;
pub mod roundtrip;
pub mod spec_parse;
pub mod tree;

pub use crate::decode::{BDecodeOpt, BencodeParseError};
pub use crate::hash::InfoHash;
pub use crate::metainfo::{File, InfoDictionary, MetainfoFile, ParseError, ParseErrorKind};
pub use crate::tree::{Bencode, BencodeKind};
