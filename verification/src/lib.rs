//! A BitTorrent client library.

pub mod bencode;
pub mod bytes;
pub mod decimal;
pub mod digest;
pub mod download;
pub mod endian;
pub mod errors;
pub mod peer;
pub mod random;
pub mod text;
pub mod torrent;
pub mod tracker;
