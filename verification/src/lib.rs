//! The download engine of a leeching BitTorrent client: the peer wire
//! protocol, the rarest-first piece picker, and the assembly and checking of
//! pieces before they go to disk.
//!
//! Nothing here performs I/O. The functions take the bytes and events that a
//! driver read, and return the bytes to write and the actions to perform.
pub mod bits;
pub mod digest;
pub mod disk;
pub mod error;
pub mod invariants;
pub mod manager;
pub mod message;
pub mod model;
pub mod peer;
pub mod picker;
pub mod piece;
pub mod torrent;
pub mod tracker;
pub mod utils;
