//! The unified error taxonomy of the peer-to-peer layer.
//!
//! One enum covers I/O and channel failures (reported by the code that owns
//! the sockets), decode errors, protocol violations, lifecycle and timeout
//! errors, and object-exchange errors.

use crate::address::PeerAddr;
use crate::reader::ReaderError;
use vstd::prelude::*;

verus! {

#[derive(Clone, Debug, PartialEq, Eq)]
pub enum P2pError {
    /// The peer closed the socket, or the connection was already closed.
    Disconnected,
    /// The first packet could not be decoded as a handshake.
    InvalidHandshake,
    /// A packet other than a handshake arrived first.
    ExpectedHandshake,
    /// A gossiped peer address could not be parsed.
    InvalidPeerAddress(String),
    /// The handshake carried a network id other than ours.
    InvalidNetworkID,
    /// The handshake's peer id is ours or already registered.
    PeerIdAlreadyUsed(u64),
    /// The remote address is already in the registry.
    PeerAlreadyConnected(PeerAddr),
    /// An operating-system I/O error.
    ErrorStd,
    /// A lock was poisoned.
    PoisonError(String),
    /// A channel send failed.
    SendError(String),
    /// A byte buffer had the wrong length for a fixed-size conversion.
    TryInto,
    /// A decode error from the byte reader.
    ReaderError(ReaderError),
    /// A textual address could not be parsed.
    ParseAddressError(String),
    /// The packet tag is not one the protocol defines.
    InvalidPacket,
    /// The frame's length prefix is zero or above the packet size limit.
    InvalidPacketSize,
    /// A packet decoded successfully but left bytes unread in its frame.
    InvalidPacketNotFullRead,
    /// The peer asked to sync the chain faster than the protocol allows.
    RequestSyncChainTooFast,
    /// An operation did not finish within its deadline.
    AsyncTimeOut,
    /// The requested object is not known locally.
    ObjectNotFound(crate::object::ObjectRequest),
    /// The same object was already requested from this peer.
    ObjectAlreadyRequested(crate::object::ObjectRequest),
    /// The response's object does not match the request.
    InvalidObjectResponse(crate::object::ObjectRequest, crate::hash::Hash),
    /// The channel waiting for an object's reply was closed.
    ObjectRequestError,
    /// A block was expected but something else arrived.
    ExpectedBlock,
    /// The peer sent a peer list faster than the protocol allows.
    PeerInvalidPeerListCountdown,
    /// The peer sent a ping faster than the protocol allows.
    PeerInvalidPingCountdown,
}

} // verus!
