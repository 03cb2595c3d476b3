//! A single-file BitTorrent client library: the bencode codec, the metainfo
//! model, the tracker protocol, the peer wire protocol and the magnet flow.
pub mod decimal;
pub mod value;
pub mod torrent;
pub mod peer;
pub mod download;
pub mod session;
pub mod tracker;
pub mod magnet;
