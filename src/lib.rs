//! Metainfo parsing, canonical info hashing and rarest-first piece
//! selection for BitTorrent.
pub mod bencode;
pub mod canonical;
pub mod error;
pub mod hashes;
pub mod piece;
pub mod torrent;
