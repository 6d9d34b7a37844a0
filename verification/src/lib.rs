//! A decoder for bencode, the serialization format of BitTorrent metainfo
//! files, together with the small rules that a metainfo record obeys.
//!
//! [`decoder`] holds the executable decoder, [`grammar`] the functions that
//! say what it has to return, and [`encoding`], [`round_trip`],
//! [`invariants`], [`locality`] and [`refusals`] what is proved of the
//! grammar. [`metainfo`] holds the record of a `.torrent` file.

pub mod decoder;
pub mod encoding;
pub mod error;
pub mod grammar;
pub mod invariants;
pub mod locality;
pub mod metainfo;
pub mod refusals;
pub mod round_trip;
pub mod value;

pub use crate::decoder::{decode_bencoded_value, BencodeDecoder};
pub use crate::error::{BencodeError, ErrorKind, Failure};
pub use crate::grammar::MAX_DEPTH;
pub use crate::metainfo::{File, Hashes, Info, Keys, Torrent};
pub use crate::value::BencodeType;
