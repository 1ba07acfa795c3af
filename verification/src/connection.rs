//! Bookkeeping for one peer connection.
//!
//! The socket itself lives outside the library; the `Connection` tracks
//! everything the protocol decides on: the handshake state, the remote
//! address, monotonic byte counters, the close flag, and the FIFO mailbox
//! of messages awaiting the writer. After `close()` no send succeeds, and
//! closing twice is the same as closing once.

use crate::address::PeerAddr;
use crate::error::P2pError;
use vstd::prelude::*;

verus! {

/// How far the handshake has progressed.
#[derive(Clone, Copy, Debug, PartialEq, Eq, Structural)]
pub enum State {
    /// Connection is new; no handshake received.
    Pending,
    /// Handshake received, not yet checked.
    Handshake,
    /// Handshake is valid.
    Success,
}

/// One entry of a connection's send mailbox.
#[derive(Clone, Debug, PartialEq, Eq)]
pub enum ConnectionMessage {
    /// Bytes to write to the socket.
    Packet(Vec<u8>),
    /// Stop the writer and close the socket.
    Exit,
}

/// The mathematical model of a mailbox entry.
pub enum MessageView {
    Packet(Seq<u8>),
    Exit,
}

impl View for ConnectionMessage {
    type V = MessageView;

    open spec fn view(&self) -> MessageView {
        match self {
            ConnectionMessage::Packet(b) => MessageView::Packet(b@),
            ConnectionMessage::Exit => MessageView::Exit,
        }
    }
}

/// The mathematical model of a connection.
pub struct ConnectionView {
    pub state: State,
    pub addr: PeerAddr,
    pub mailbox: Seq<MessageView>,
    pub bytes_in: usize,
    pub bytes_out: usize,
    pub connected_on: u64,
    pub closed: bool,
}

/// What `close` does to a connection: the first call sets the flag and
/// wakes the writer with an `Exit`; any further call changes nothing.
pub open spec fn spec_close(c: ConnectionView) -> ConnectionView {
    if c.closed {
        c
    } else {
        ConnectionView { closed: true, mailbox: c.mailbox.push(MessageView::Exit), ..c }
    }
}

/// What enqueueing a message does: appends it to the mailbox.
pub open spec fn spec_enqueue(c: ConnectionView, m: MessageView) -> ConnectionView {
    ConnectionView { mailbox: c.mailbox.push(m), ..c }
}

/// Closing is idempotent: a second `close` leaves the connection exactly
/// as the first left it.
pub proof fn lemma_close_idempotent(c: ConnectionView)
    ensures
        spec_close(spec_close(c)) == spec_close(c),
{
}

/// Bookkeeping for one peer connection.
pub struct Connection {
    state: State,
    addr: PeerAddr,
    mailbox: Vec<ConnectionMessage>,
    bytes_in: usize,
    bytes_out: usize,
    connected_on: u64,
    closed: bool,
}

impl View for Connection {
    type V = ConnectionView;

    closed spec fn view(&self) -> ConnectionView {
        ConnectionView {
            state: self.state,
            addr: self.addr,
            mailbox: Seq::new(self.mailbox@.len(), |i: int| self.mailbox@[i]@),
            bytes_in: self.bytes_in,
            bytes_out: self.bytes_out,
            connected_on: self.connected_on,
            closed: self.closed,
        }
    }
}

impl Connection {
    pub fn new(addr: PeerAddr, connected_on: u64) -> (r: Self)
        ensures
            r@ == (ConnectionView {
                state: State::Pending,
                addr,
                mailbox: Seq::empty(),
                bytes_in: 0,
                bytes_out: 0,
                connected_on,
                closed: false,
            }),
    {
        let r = Connection {
            state: State::Pending,
            addr,
            mailbox: Vec::new(),
            bytes_in: 0,
            bytes_out: 0,
            connected_on,
            closed: false,
        };
        proof {
            assert(r@.mailbox =~= Seq::<MessageView>::empty());
        }
        r
    }

    /// Accounts for an intent to write `buf` to the socket. Fails with
    /// `Disconnected`, changing nothing, when the connection is closed;
    /// otherwise adds the byte count to `bytes_out` (saturating). The
    /// counter never decreases.
    pub fn send_bytes(&mut self, buf: &[u8]) -> (r: Result<(), P2pError>)
        ensures
            old(self)@.closed ==> r == Err::<(), P2pError>(P2pError::Disconnected) && final(self)@
                == old(self)@,
            !old(self)@.closed ==> r == Ok::<(), P2pError>(()) && final(self)@ == (ConnectionView {
                bytes_out: if old(self)@.bytes_out + buf@.len() <= usize::MAX {
                    (old(self)@.bytes_out + buf@.len()) as usize
                } else {
                    usize::MAX
                },
                ..old(self)@
            }),
            final(self)@.bytes_out >= old(self)@.bytes_out,
    {
        if self.closed {
            return Err(P2pError::Disconnected);
        }
        self.bytes_out = saturating_add(self.bytes_out, buf.len());
        Ok(())
    }

    /// Accounts for `n` bytes read from the socket; the counter never
    /// decreases.
    pub fn record_bytes_in(&mut self, n: usize)
        ensures
            final(self)@ == (ConnectionView {
                bytes_in: if old(self)@.bytes_in + n <= usize::MAX {
                    (old(self)@.bytes_in + n) as usize
                } else {
                    usize::MAX
                },
                ..old(self)@
            }),
            final(self)@.bytes_in >= old(self)@.bytes_in,
    {
        self.bytes_in = saturating_add(self.bytes_in, n);
    }

    /// Appends a message to the send mailbox. The mailbox is FIFO: the
    /// writer drains it in exactly this order.
    pub fn enqueue_message(&mut self, msg: ConnectionMessage)
        ensures
            final(self)@ == spec_enqueue(old(self)@, msg@),
    {
        self.mailbox.push(msg);
        proof {
            assert(self@.mailbox =~= old(self)@.mailbox.push(msg@));
        }
    }

    /// Takes the oldest message out of the mailbox, if any.
    pub fn dequeue_message(&mut self) -> (r: Option<ConnectionMessage>)
        ensures
            old(self)@.mailbox.len() == 0 ==> r is None && final(self)@ == old(self)@,
            old(self)@.mailbox.len() > 0 ==> (r matches Some(m) && m@ == old(self)@.mailbox[0])
                && final(self)@ == (ConnectionView {
                mailbox: old(self)@.mailbox.skip(1),
                ..old(self)@
            }),
    {
        if self.mailbox.len() == 0 {
            return None;
        }
        let m = self.mailbox.remove(0);
        proof {
            assert(self@.mailbox =~= old(self)@.mailbox.skip(1));
        }
        Some(m)
    }

    /// Closes the connection: sets the flag and wakes the writer with an
    /// `Exit` message. Idempotent: once closed, further calls change
    /// nothing.
    pub fn close(&mut self)
        ensures
            final(self)@ == spec_close(old(self)@),
            final(self)@.closed,
    {
        if !self.closed {
            self.closed = true;
            self.mailbox.push(ConnectionMessage::Exit);
            proof {
                assert(self@.mailbox =~= old(self)@.mailbox.push(MessageView::Exit));
            }
        }
    }

    pub fn set_state(&mut self, state: State)
        ensures
            final(self)@ == (ConnectionView { state, ..old(self)@ }),
    {
        self.state = state;
    }

    pub fn get_state(&self) -> (r: State)
        ensures
            r == self@.state,
    {
        self.state
    }

    pub fn get_address(&self) -> (r: &PeerAddr)
        ensures
            *r == self@.addr,
    {
        &self.addr
    }

    pub fn bytes_out(&self) -> (r: usize)
        ensures
            r == self@.bytes_out,
    {
        self.bytes_out
    }

    pub fn bytes_in(&self) -> (r: usize)
        ensures
            r == self@.bytes_in,
    {
        self.bytes_in
    }

    pub fn connected_on(&self) -> (r: u64)
        ensures
            r == self@.connected_on,
    {
        self.connected_on
    }

    pub fn is_closed(&self) -> (r: bool)
        ensures
            r == self@.closed,
    {
        self.closed
    }
}

/// Classifies what one socket read returned: a zero-length read means the
/// peer closed its end and is reported as `Disconnected`; anything else is
/// that many bytes.
pub fn classify_stream_read(n: usize) -> (r: Result<usize, P2pError>)
    ensures
        n == 0 ==> r == Err::<usize, P2pError>(P2pError::Disconnected),
        n > 0 ==> r == Ok::<usize, P2pError>(n),
{
    if n == 0 {
        Err(P2pError::Disconnected)
    } else {
        Ok(n)
    }
}

/// How many bytes the next socket read may ask for when `left` bytes of
/// the frame are still missing and the scratch buffer holds `buf_len`:
/// whichever is smaller.
pub fn read_chunk_len(buf_len: usize, left: u32) -> (r: usize)
    ensures
        r == if buf_len > left {
            left as int
        } else {
            buf_len as int
        },
        r <= buf_len,
        r <= left,
{
    if buf_len > left as usize {
        left as usize
    } else {
        buf_len
    }
}

/// `a + b`, stopping at the largest representable value.
fn saturating_add(a: usize, b: usize) -> (r: usize)
    ensures
        r == if a + b <= usize::MAX {
            a + b
        } else {
            usize::MAX as int
        },
        r >= a,
{
    if a <= usize::MAX - b {
        a + b
    } else {
        usize::MAX
    }
}

} // verus!
