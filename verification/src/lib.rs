//! Bencoded BitTorrent metainfo: codec, piece planning, hashing and verification.

pub mod bencode;
pub mod cli;
pub mod hashing;
pub mod planner;
pub mod report;
pub mod roundtrip;
pub mod torrent;
pub mod tr_file;
pub mod tr_info;
pub mod tree;
pub mod utils;
pub mod verify;
pub mod walk;
