//! Peer-to-peer networking core of a blockchain daemon.
//!
//! The crate covers the binary wire codec (length-prefixed, big-endian,
//! tagged packets), the peer connection bookkeeping (byte counters, close
//! discipline, per-connection send mailbox) and the server-side peer
//! registry (bounded peer set, handshake validation, broadcast and
//! point-to-point dispatch). Socket I/O itself lives outside the library;
//! everything here is plain data and is verified.

pub mod address;
pub mod connection;
pub mod endian;
pub mod error;
pub mod object;
pub mod packet;
pub mod handshake;
pub mod hash;
pub mod key;
pub mod reader;
pub mod serializer;
pub mod server;
pub mod writer;

use vstd::prelude::*;

verus! {

/// Hard cap on the byte length of one packet (tag plus payload), excluding
/// the 4-byte length prefix.
pub const MAX_PACKET_SIZE: u32 = 1024 * 1024;

} // verus!
