//! A BitTorrent client core: the bencode codec, metainfo files, the tracker
//! announce, the peer wire protocol and the piece manager.

pub mod error;
pub mod text;
pub mod keys;
pub mod codec;
pub mod canonical;
pub mod roundtrip;
pub mod digest;
pub mod metainfo;
pub mod tracker;
pub mod wire;
pub mod bitfield;
pub mod manager;
pub mod progress;
pub mod session;
