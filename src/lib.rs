//! A client library for the BitTorrent peer wire protocol: the handshake
//! record, the length-prefixed message framing, and the piece acquisition
//! state machine, with the torrent metainfo and tracker records around them.
pub mod bencode;
pub mod checksum;
pub mod download;
pub mod peer;
pub mod stream;
pub mod torrent;
pub mod tracker;
pub mod wire;
