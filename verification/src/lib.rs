//! A verified BitTorrent v1 download engine: metainfo model, piece/file
//! layout, piece-state manager, wire codec, and per-peer session logic.
//!
//! All I/O (sockets, disk, timers) lives outside this crate; the library
//! works on plain values and states what it computes in its contracts.

pub mod bencode;
pub mod bytes;
pub mod creator;
pub mod handshake;
pub mod layout;
pub mod manager;
pub mod message;
pub mod session;
pub mod sha;
pub mod torrent;
pub mod tracker;
pub mod utils;
