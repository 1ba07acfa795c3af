//! The peer-to-peer server: registry, dispatch and handshake rules.
//!
//! The server owns the registry mapping each peer id to its connection.
//! Four facts hold of every registry state: it never exceeds `max_peers`,
//! peer ids are distinct, remote addresses are distinct, and the server's
//! own peer id is never registered. Every mutating operation here preserves
//! them. The accept loop, sockets and tasks live outside the library and
//! drive these operations.

use crate::address::PeerAddr;
use crate::connection::{spec_enqueue, Connection, ConnectionMessage, ConnectionView, State};
use crate::error::P2pError;
use crate::handshake::{Handshake, HandshakeView, HANDSHAKE_MAX_LEN};
use vstd::prelude::*;
use vstd::utf8::encode_utf8;

verus! {

/// The server's live peers and configuration.
pub struct P2pServer {
    peer_id: u64,
    tag: Option<String>,
    max_peers: usize,
    multi_threaded: bool,
    bind_address: String,
    connections: Vec<(u64, Connection)>,
}

impl P2pServer {
    /// The registry: peer id and connection state of every live peer, in
    /// insertion order.
    pub closed spec fn registry(self) -> Seq<(u64, ConnectionView)> {
        Seq::new(self.connections@.len(), |i: int| (self.connections@[i].0, self.connections@[i].1@))
    }

    pub closed spec fn spec_peer_id(self) -> u64 {
        self.peer_id
    }

    pub closed spec fn spec_max_peers(self) -> usize {
        self.max_peers
    }

    pub closed spec fn spec_multi_threaded(self) -> bool {
        self.multi_threaded
    }

    pub closed spec fn spec_tag(self) -> Option<Seq<char>> {
        match self.tag {
            Option::None => Option::None,
            Option::Some(ref t) => Option::Some(t@),
        }
    }

    pub closed spec fn spec_bind_address(self) -> Seq<char> {
        self.bind_address@
    }

    /// Some registered peer has this id.
    pub open spec fn registry_has_id(self, id: u64) -> bool {
        exists|i: int| 0 <= i < self.registry().len() && #[trigger] self.registry()[i].0 == id
    }

    /// Some registered peer has this remote address.
    pub open spec fn registry_has_addr(self, addr: PeerAddr) -> bool {
        exists|i: int| 0 <= i < self.registry().len() && #[trigger] self.registry()[i].1.addr == addr
    }

    /// The registry invariant: bounded size, distinct peer ids, distinct
    /// remote addresses, and never the server's own id. The node tag, when
    /// present, fits in a handshake.
    pub open spec fn wf(self) -> bool {
        &&& self.registry().len() <= self.spec_max_peers()
        &&& (forall|i: int, j: int|
            0 <= i < j < self.registry().len() ==> #[trigger] self.registry()[i].0
                != #[trigger] self.registry()[j].0)
        &&& (forall|i: int, j: int|
            0 <= i < j < self.registry().len() ==> #[trigger] self.registry()[i].1.addr
                != #[trigger] self.registry()[j].1.addr)
        &&& (forall|i: int|
            0 <= i < self.registry().len() ==> #[trigger] self.registry()[i].0
                != self.spec_peer_id())
        &&& (self.spec_tag() matches Some(t) ==> 1 <= encode_utf8(t).len() <= HANDSHAKE_MAX_LEN)
    }

    pub fn new(
        peer_id: u64,
        tag: Option<String>,
        max_peers: usize,
        multi_threaded: bool,
        bind_address: String,
    ) -> (r: Self)
        requires
            tag matches Some(t) ==> 1 <= encode_utf8(t@).len() <= HANDSHAKE_MAX_LEN,
        ensures
            r.wf(),
            r.registry() == Seq::<(u64, ConnectionView)>::empty(),
            r.spec_peer_id() == peer_id,
            r.spec_max_peers() == max_peers,
            r.spec_multi_threaded() == multi_threaded,
            r.spec_bind_address() == bind_address@,
            r.spec_tag() == (match tag {
                Option::None => Option::<Seq<char>>::None,
                Option::Some(ref t) => Option::Some(t@),
            }),
    {
        let r = P2pServer { peer_id, tag, max_peers, multi_threaded, bind_address, connections: Vec::new() };
        proof {
            assert(r.registry() =~= Seq::<(u64, ConnectionView)>::empty());
        }
        r
    }

    /// True exactly while there is room for one more peer.
    pub fn accept_new_connections(&self) -> (r: bool)
        ensures
            r == (self.registry().len() < self.spec_max_peers()),
    {
        self.get_peer_count() < self.max_peers
    }

    pub fn get_peer_count(&self) -> (r: usize)
        ensures
            r == self.registry().len(),
    {
        self.connections.len()
    }

    pub fn get_slots_available(&self) -> (r: usize)
        requires
            self.wf(),
        ensures
            r == self.spec_max_peers() - self.registry().len(),
    {
        self.max_peers - self.connections.len()
    }

    /// Whether the id is taken: it is ours, or some peer registered it.
    pub fn is_connected_to(&self, peer_id: &u64) -> (r: bool)
        ensures
            r == (self.spec_peer_id() == *peer_id || self.registry_has_id(*peer_id)),
    {
        if self.peer_id == *peer_id {
            return true;
        }
        let n = self.connections.len();
        let mut i: usize = 0;
        while i < n
            invariant
                i <= n,
                n == self.registry().len(),
                forall|j: int| 0 <= j < i ==> #[trigger] self.registry()[j].0 != *peer_id,
            decreases n - i,
        {
            if self.connections[i].0 == *peer_id {
                proof {
                    assert(self.registry()[i as int].0 == *peer_id);
                }
                return true;
            }
            i = i + 1;
        }
        false
    }

    /// Whether some registered peer has this remote address.
    pub fn is_connected_to_addr(&self, peer_addr: &PeerAddr) -> (r: bool)
        ensures
            r == self.registry_has_addr(*peer_addr),
    {
        let n = self.connections.len();
        let mut i: usize = 0;
        while i < n
            invariant
                i <= n,
                n == self.registry().len(),
                forall|j: int| 0 <= j < i ==> #[trigger] self.registry()[j].1.addr != *peer_addr,
            decreases n - i,
        {
            let found = {
                let a = self.connections[i].1.get_address();
                *a == *peer_addr
            };
            if found {
                proof {
                    assert(self.registry()[i as int].1.addr == *peer_addr);
                }
                return true;
            }
            i = i + 1;
        }
        false
    }

    pub fn is_multi_threaded(&self) -> (r: bool)
        ensures
            r == self.spec_multi_threaded(),
    {
        self.multi_threaded
    }

    pub fn get_bind_address(&self) -> (r: &String)
        ensures
            r@ == self.spec_bind_address(),
    {
        &self.bind_address
    }

    /// Enqueues `bytes` onto the mailbox of the peer with this id, if it is
    /// registered; everything else stays as it was. Per peer the mailbox is
    /// FIFO, so repeated sends arrive in submission order.
    pub fn send_to_peer(&mut self, peer_id: u64, bytes: Vec<u8>) -> (r: bool)
        requires
            old(self).wf(),
        ensures
            final(self).wf(),
            final(self).registry().len() == old(self).registry().len(),
            forall|j: int|
                0 <= j < old(self).registry().len() && #[trigger] old(self).registry()[j].0
                    == peer_id ==> final(self).registry()[j] == (
                peer_id,
                spec_enqueue(
                    old(self).registry()[j].1,
                    crate::connection::MessageView::Packet(bytes@),
                ),
            ),
            forall|j: int|
                0 <= j < old(self).registry().len() && #[trigger] old(self).registry()[j].0
                    != peer_id ==> final(self).registry()[j] == old(self).registry()[j],
            unchanged_config(*old(self), *final(self)),
            r == (old(self).spec_multi_threaded() ==> old(self).registry_has_id(peer_id)),
    {
        let n = self.connections.len();
        let mut i: usize = 0;
        let mut found = false;
        while i < n
            invariant
                i <= n,
                n == self.registry().len(),
                n == old(self).registry().len(),
                old(self).wf(),
                unchanged_config(*old(self), *self),
                self.wf(),
                forall|j: int|
                    0 <= j < i && #[trigger] old(self).registry()[j].0 == peer_id ==> self.registry()[j]
                        == (
                    peer_id,
                    spec_enqueue(
                        old(self).registry()[j].1,
                        crate::connection::MessageView::Packet(bytes@),
                    ),
                ),
                forall|j: int|
                    0 <= j < i && #[trigger] old(self).registry()[j].0 != peer_id
                        ==> self.registry()[j] == old(self).registry()[j],
                forall|j: int|
                    i <= j < n ==> #[trigger] self.registry()[j] == old(self).registry()[j],
                found == exists|j: int|
                    0 <= j < i && #[trigger] old(self).registry()[j].0 == peer_id,
            decreases n - i,
    {
            if self.connections[i].0 == peer_id {
                let ghost reg_before = self.registry();
                let ghost conns_before = self.connections@;
                let mut entry = self.connections.remove(i);
                entry.1.enqueue_message(ConnectionMessage::Packet(copy_bytes(&bytes)));
                self.connections.insert(i, entry);
                found = true;
                proof {
                    assert forall|j: int| 0 <= j < n && j != i implies #[trigger] self.registry()[j]
                        == reg_before[j] by {
                        assert(self.connections@[j] == conns_before[j]);
                    }
                    assert(self.registry()[i as int] == (
                        peer_id,
                        spec_enqueue(
                            reg_before[i as int].1,
                            crate::connection::MessageView::Packet(bytes@),
                        ),
                    ));
                    assert(old(self).registry()[i as int].0 == peer_id);
                    assert forall|j: int| 0 <= j < n implies #[trigger] self.registry()[j].0 == old(
                        self,
                    ).registry()[j].0 && self.registry()[j].1.addr == old(self).registry()[j].1.addr
                        by {}
                }
            } else {
                proof {
                    assert(self.registry()[i as int].0 == self.connections@[i as int].0);
                    assert(self.registry()[i as int] == old(self).registry()[i as int]);
                }
            }
            i = i + 1;
        }
        if self.multi_threaded {
            found
        } else {
            true
        }
    }

    /// Takes the oldest message out of the mailbox of the peer with this
    /// id: what its writer should send next. Nothing else changes.
    pub fn dequeue_from_peer(&mut self, peer_id: u64) -> (r: Option<ConnectionMessage>)
        requires
            old(self).wf(),
        ensures
            final(self).wf(),
            final(self).registry().len() == old(self).registry().len(),
            unchanged_config(*old(self), *final(self)),
            forall|j: int|
                0 <= j < old(self).registry().len() && #[trigger] old(self).registry()[j].0
                    != peer_id ==> final(self).registry()[j] == old(self).registry()[j],
            forall|j: int|
                0 <= j < old(self).registry().len() && #[trigger] old(self).registry()[j].0
                    == peer_id ==> (if old(self).registry()[j].1.mailbox.len() == 0 {
                    r is None && final(self).registry()[j] == old(self).registry()[j]
                } else {
                    (r matches Some(m) && m@ == old(self).registry()[j].1.mailbox[0])
                        && final(self).registry()[j] == (
                    peer_id,
                    ConnectionView {
                        mailbox: old(self).registry()[j].1.mailbox.skip(1),
                        ..old(self).registry()[j].1
                    },
                )
                }),
            !old(self).registry_has_id(peer_id) ==> r is None && final(self).registry()
                == old(self).registry(),
    {
        let n = self.connections.len();
        let mut i: usize = 0;
        while i < n
            invariant
                i <= n,
                n == self.registry().len(),
                old(self).wf(),
                self.registry() == old(self).registry(),
                unchanged_config(*old(self), *self),
                forall|j: int| 0 <= j < i ==> #[trigger] self.registry()[j].0 != peer_id,
            decreases n - i,
        {
            if self.connections[i].0 == peer_id {
                let ghost reg_before = self.registry();
                let ghost conns_before = self.connections@;
                let mut entry = self.connections.remove(i);
                let msg = entry.1.dequeue_message();
                self.connections.insert(i, entry);
                proof {
                    assert(old(self).registry()[i as int].0 == peer_id);
                    assert forall|j: int| 0 <= j < n && j != i implies #[trigger] self.registry()[j]
                        == reg_before[j] by {
                        assert(self.connections@[j] == conns_before[j]);
                    }
                    assert(self.registry()[i as int].0 == peer_id);
                    assert(self.registry()[i as int].1 == if reg_before[i as int].1.mailbox.len()
                        == 0 {
                        reg_before[i as int].1
                    } else {
                        ConnectionView {
                            mailbox: reg_before[i as int].1.mailbox.skip(1),
                            ..reg_before[i as int].1
                        }
                    });
                    assert forall|j: int| 0 <= j < n implies #[trigger] self.registry()[j].0 == old(
                        self,
                    ).registry()[j].0 && self.registry()[j].1.addr == old(
                        self,
                    ).registry()[j].1.addr by {}
                }
                return msg;
            }
            i = i + 1;
        }
        None
    }

    /// Enqueues `buf` onto every registered peer's mailbox.
    pub fn broadcast_bytes(&mut self, buf: &[u8])
        requires
            old(self).wf(),
        ensures
            final(self).wf(),
            final(self).registry().len() == old(self).registry().len(),
            forall|j: int|
                0 <= j < old(self).registry().len() ==> #[trigger] final(self).registry()[j] == (
                old(self).registry()[j].0,
                spec_enqueue(
                    old(self).registry()[j].1,
                    crate::connection::MessageView::Packet(buf@),
                ),
            ),
            unchanged_config(*old(self), *final(self)),
    {
        let n = self.connections.len();
        let mut i: usize = 0;
        while i < n
            invariant
                i <= n,
                n == self.registry().len(),
                n == old(self).registry().len(),
                old(self).wf(),
                self.wf(),
                unchanged_config(*old(self), *self),
                forall|j: int|
                    0 <= j < i ==> #[trigger] self.registry()[j] == (
                    old(self).registry()[j].0,
                    spec_enqueue(
                        old(self).registry()[j].1,
                        crate::connection::MessageView::Packet(buf@),
                    ),
                ),
                forall|j: int|
                    i <= j < n ==> #[trigger] self.registry()[j] == old(self).registry()[j],
            decreases n - i,
        {
            let ghost reg_before = self.registry();
            let ghost conns_before = self.connections@;
            let mut entry = self.connections.remove(i);
            entry.1.enqueue_message(ConnectionMessage::Packet(slice_copy(buf)));
            self.connections.insert(i, entry);
            proof {
                assert forall|j: int| 0 <= j < n && j != i implies #[trigger] self.registry()[j]
                    == reg_before[j] by {
                    assert(self.connections@[j] == conns_before[j]);
                }
                assert(self.registry()[i as int] == (
                    reg_before[i as int].0,
                    spec_enqueue(
                        reg_before[i as int].1,
                        crate::connection::MessageView::Packet(buf@),
                    ),
                ));
            }
            i = i + 1;
        }
    }

    /// Registers a new peer. The id must not be in use and the remote
    /// address must be new; the caller has already checked there is room.
    pub fn add_connection(&mut self, peer_id: u64, connection: Connection) -> (r: Result<
        (),
        P2pError,
    >)
        requires
            old(self).wf(),
            old(self).registry().len() < old(self).spec_max_peers(),
        ensures
            final(self).wf(),
            unchanged_config(*old(self), *final(self)),
            peer_id == old(self).spec_peer_id() || old(self).registry_has_id(peer_id) ==> r == Err::<
                (),
                P2pError,
            >(P2pError::PeerIdAlreadyUsed(peer_id)) && final(self).registry()
                == old(self).registry(),
            peer_id != old(self).spec_peer_id() && !old(self).registry_has_id(peer_id)
                && old(self).registry_has_addr(connection@.addr) ==> r == Err::<(), P2pError>(
                P2pError::PeerAlreadyConnected(connection@.addr),
            ) && final(self).registry() == old(self).registry(),
            peer_id != old(self).spec_peer_id() && !old(self).registry_has_id(peer_id)
                && !old(self).registry_has_addr(connection@.addr) ==> r == Ok::<(), P2pError>(())
                && final(self).registry() == old(self).registry().push((peer_id, connection@)),
    {
        if self.is_connected_to(&peer_id) {
            return Err(P2pError::PeerIdAlreadyUsed(peer_id));
        }
        if self.is_connected_to_addr(connection.get_address()) {
            return Err(P2pError::PeerAlreadyConnected(*connection.get_address()));
        }
        let ghost reg_before = self.registry();
        self.connections.push((peer_id, connection));
        proof {
            assert(self.registry() =~= reg_before.push((peer_id, connection@)));
        }
        Ok(())
    }

    /// Unregisters the peer with this id, closing its connection; true when
    /// it was present. Removing twice is the same as removing once: the
    /// registry ends up with every entry whose id differs, in order.
    pub fn remove_connection(&mut self, peer_id: &u64) -> (r: bool)
        requires
            old(self).wf(),
        ensures
            final(self).wf(),
            unchanged_config(*old(self), *final(self)),
            final(self).registry() == spec_remove_peer(old(self).registry(), *peer_id),
            r == old(self).registry_has_id(*peer_id),
    {
        let n = self.connections.len();
        let mut i: usize = 0;
        while i < n
            invariant
                i <= n,
                old(self).wf(),
                n == self.registry().len(),
                self.registry() == old(self).registry(),
                unchanged_config(*old(self), *self),
                forall|j: int| 0 <= j < i ==> #[trigger] self.registry()[j].0 != *peer_id,
            decreases n - i,
        {
            if self.connections[i].0 == *peer_id {
                let ghost reg_before = self.registry();
                let mut entry = self.connections.remove(i);
                entry.1.close();
                proof {
                    assert(reg_before[i as int].0 == *peer_id);
                    assert forall|j: int|
                        0 <= j < reg_before.len() && j != i implies #[trigger] reg_before[j].0
                            != *peer_id by {
                        if j < i {
                        } else {
                            assert(reg_before[i as int].0 != reg_before[j].0);
                        }
                    }
                    assert(self.registry() =~= reg_before.remove(i as int));
                    lemma_remove_peer_unique(reg_before, *peer_id, i as int);
                }
                return true;
            }
            i = i + 1;
        }
        proof {
            lemma_remove_peer_absent(self.registry(), *peer_id);
        }
        false
    }

    /// The handshake this daemon sends: its own identity and clock, and the
    /// addresses of up to sixteen currently registered peers.
    pub fn build_handshake(
        &self,
        version: String,
        network_id: Vec<u8>,
        local_port: u16,
        utc_time: u64,
        block_height: u64,
        block_top_hash: crate::hash::Hash,
    ) -> (r: Handshake)
        requires
            self.wf(),
            1 <= encode_utf8(version@).len() <= HANDSHAKE_MAX_LEN,
            network_id@.len() == 16,
            block_top_hash.wf(),
        ensures
            crate::handshake::handshake_wf(r@),
            r@ == (HandshakeView {
                version: version@,
                node_tag: self.spec_tag(),
                network_id: network_id@,
                peer_id: self.spec_peer_id(),
                local_port: local_port,
                utc_time: utc_time,
                block_height: block_height,
                block_top_hash: block_top_hash@,
                peers: self.registry_addrs().take(
                    if self.registry().len() <= HANDSHAKE_MAX_LEN {
                        self.registry().len() as int
                    } else {
                        HANDSHAKE_MAX_LEN as int
                    },
                ),
            }),
    {
        let mut peers: Vec<PeerAddr> = Vec::new();
        let n = self.connections.len();
        let mut i: usize = 0;
        proof {
            assert(peers@ =~= self.registry_addrs().take(0));
        }
        while i < n && i < HANDSHAKE_MAX_LEN
            invariant
                i <= n,
                i <= HANDSHAKE_MAX_LEN,
                n == self.registry().len(),
                peers@ == self.registry_addrs().take(i as int),
                peers@.len() == i,
            decreases n - i,
        {
            let a = *self.connections[i].1.get_address();
            peers.push(a);
            proof {
                assert(peers@ =~= self.registry_addrs().take(i + 1));
            }
            i = i + 1;
        }
        let tag = match &self.tag {
            Option::None => Option::None,
            Option::Some(t) => Option::Some(clone_string(t)),
        };
        Handshake::new(
            version,
            tag,
            network_id,
            self.peer_id,
            local_port,
            utc_time,
            block_height,
            block_top_hash,
            peers,
        )
    }

    /// The remote address of each registered peer, in registry order.
    pub open spec fn registry_addrs(self) -> Seq<PeerAddr> {
        Seq::new(self.registry().len(), |i: int| self.registry()[i].1.addr)
    }

    /// Holds of the addresses worth gossiping about: those of peers we are
    /// not already connected to.
    pub open spec fn not_connected_pred(self) -> spec_fn(PeerAddr) -> bool {
        |a: PeerAddr| !self.registry_has_addr(a)
    }

    /// The gossiped addresses worth dialing: those not already connected,
    /// at most as many as there are free slots.
    pub open spec fn spec_filtered_peers(self, peers: Seq<PeerAddr>) -> Seq<PeerAddr> {
        cap_seq(
            peers.filter(self.not_connected_pred()),
            self.spec_max_peers() - self.registry().len(),
        )
    }

    /// Validates a handshake from `addr` against the registry: the network
    /// id must be ours, the peer id and the remote address must be new.
    /// Yields the connection to register and the gossiped peers to dial.
    pub fn verify_handshake(
        &self,
        addr: PeerAddr,
        handshake: &Handshake,
        network_id: &Vec<u8>,
        connected_on: u64,
    ) -> (r: Result<(Connection, Vec<PeerAddr>), P2pError>)
        requires
            self.wf(),
        ensures
            handshake@.network_id != network_id@ ==> r == Err::<(Connection, Vec<PeerAddr>), P2pError>(
                P2pError::InvalidNetworkID,
            ),
            handshake@.network_id == network_id@ && (handshake@.peer_id == self.spec_peer_id()
                || self.registry_has_id(handshake@.peer_id)) ==> r == Err::<
                (Connection, Vec<PeerAddr>),
                P2pError,
            >(P2pError::PeerIdAlreadyUsed(handshake@.peer_id)),
            handshake@.network_id == network_id@ && handshake@.peer_id != self.spec_peer_id()
                && !self.registry_has_id(handshake@.peer_id) && self.registry_has_addr(addr) ==> r
                == Err::<(Connection, Vec<PeerAddr>), P2pError>(
                P2pError::PeerAlreadyConnected(addr),
            ),
            handshake@.network_id == network_id@ && handshake@.peer_id != self.spec_peer_id()
                && !self.registry_has_id(handshake@.peer_id) && !self.registry_has_addr(addr) ==> (
            r matches Ok((c, peers)) && c@ == (ConnectionView {
                state: State::Pending,
                addr,
                mailbox: Seq::empty(),
                bytes_in: 0,
                bytes_out: 0,
                connected_on,
                closed: false,
            }) && peers@ == self.spec_filtered_peers(handshake@.peers)),
    {
        if !vec_u8_eq(handshake.get_network_id(), network_id) {
            return Err(P2pError::InvalidNetworkID);
        }
        let hs_peer_id = handshake.get_peer_id();
        if self.is_connected_to(&hs_peer_id) {
            return Err(P2pError::PeerIdAlreadyUsed(hs_peer_id));
        }
        if self.is_connected_to_addr(&addr) {
            return Err(P2pError::PeerAlreadyConnected(addr));
        }

        let slots = self.get_slots_available();
        let hs_peers = handshake.get_peers();
        let ghost hp = handshake@.peers;
        let ghost pred = self.not_connected_pred();
        let mut peers: Vec<PeerAddr> = Vec::new();
        let count = hs_peers.len();
        let mut i: usize = 0;
        proof {
            reveal_with_fuel(Seq::<PeerAddr>::filter, 2);
            assert(hp.take(0) =~= Seq::<PeerAddr>::empty());
            assert(hp.take(0).filter(pred) =~= Seq::<PeerAddr>::empty());
            assert(peers@ =~= cap_seq(hp.take(0).filter(pred), slots as int));
        }
        while i < count
            invariant
                i <= count,
                count == hp.len(),
                hs_peers@ == hp,
                slots == self.spec_max_peers() - self.registry().len(),
                peers@ == cap_seq(hp.take(i as int).filter(pred), slots as int),
                peers@.len() <= slots,
                pred == self.not_connected_pred(),
            decreases count - i,
        {
            let a = hs_peers[i];
            proof {
                reveal_with_fuel(Seq::<PeerAddr>::filter, 2);
                assert(hp.take(i + 1).drop_last() =~= hp.take(i as int));
                assert(hp.take(i + 1).last() == hp[i as int]);
            }
            if !self.is_connected_to_addr(&a) && peers.len() < slots {
                proof {
                    reveal_with_fuel(Seq::<PeerAddr>::filter, 2);
                    let f = hp.take(i as int).filter(pred);
                    assert(f.len() <= slots);
                    assert(hp.take(i + 1).filter(pred) =~= f.push(hp[i as int]));
                    assert(cap_seq(hp.take(i + 1).filter(pred), slots as int) =~= peers@.push(
                        hp[i as int],
                    ));
                }
                peers.push(a);
            } else {
                proof {
                    reveal_with_fuel(Seq::<PeerAddr>::filter, 2);
                    let f = hp.take(i as int).filter(pred);
                    if self.registry_has_addr(a) {
                        assert(hp.take(i + 1).filter(pred) =~= f);
                    } else {
                        assert(hp.take(i + 1).filter(pred) =~= f.push(hp[i as int]));
                        assert(peers@.len() == slots);
                        assert(f.len() >= slots);
                        assert(cap_seq(hp.take(i + 1).filter(pred), slots as int) =~= cap_seq(
                            f,
                            slots as int,
                        ));
                    }
                }
            }
            i = i + 1;
        }
        proof {
            assert(hp.take(count as int) =~= hp);
        }
        Ok((Connection::new(addr, connected_on), peers))
    }

    /// The whole decision taken on an inbound handshake: validate it, mark
    /// the connection successful, and register it. Yields the new peer's id
    /// and the gossiped addresses to dial, best effort.
    pub fn handle_incoming_handshake(
        &mut self,
        addr: PeerAddr,
        handshake: &Handshake,
        network_id: &Vec<u8>,
        connected_on: u64,
    ) -> (r: Result<(u64, Vec<PeerAddr>), P2pError>)
        requires
            old(self).wf(),
            old(self).registry().len() < old(self).spec_max_peers(),
        ensures
            final(self).wf(),
            unchanged_config(*old(self), *final(self)),
            r is Err ==> final(self).registry() == old(self).registry(),
            handshake@.network_id != network_id@ ==> r == Err::<(u64, Vec<PeerAddr>), P2pError>(
                P2pError::InvalidNetworkID,
            ),
            handshake@.network_id == network_id@ && (handshake@.peer_id == old(self).spec_peer_id()
                || old(self).registry_has_id(handshake@.peer_id)) ==> r == Err::<
                (u64, Vec<PeerAddr>),
                P2pError,
            >(P2pError::PeerIdAlreadyUsed(handshake@.peer_id)),
            handshake@.network_id == network_id@ && handshake@.peer_id != old(self).spec_peer_id()
                && !old(self).registry_has_id(handshake@.peer_id)
                && old(self).registry_has_addr(addr) ==> r == Err::<(u64, Vec<PeerAddr>), P2pError>(
                P2pError::PeerAlreadyConnected(addr),
            ),
            handshake@.network_id == network_id@ && handshake@.peer_id != old(self).spec_peer_id()
                && !old(self).registry_has_id(handshake@.peer_id)
                && !old(self).registry_has_addr(addr) ==> (r matches Ok((id, peers)) && id
                == handshake@.peer_id && peers@ == old(self).spec_filtered_peers(handshake@.peers)
                && final(self).registry() == old(self).registry().push(
                (
                    handshake@.peer_id,
                    ConnectionView {
                        state: State::Success,
                        addr,
                        mailbox: Seq::empty(),
                        bytes_in: 0,
                        bytes_out: 0,
                        connected_on,
                        closed: false,
                    },
                ),
            )),
    {
        let (mut connection, peers) = self.verify_handshake(addr, handshake, network_id, connected_on)?;
        connection.set_state(State::Success);
        let peer_id = handshake.get_peer_id();
        match self.add_connection(peer_id, connection) {
            Ok(()) => Ok((peer_id, peers)),
            Err(e) => {
                proof {
                    assert(false);
                }
                Err(e)
            },
        }
    }
}

/// The first `k` elements of a sequence, or all of it when it is shorter.
pub open spec fn cap_seq(s: Seq<PeerAddr>, k: int) -> Seq<PeerAddr> {
    if s.len() <= k {
        s
    } else {
        s.take(k)
    }
}

/// The fields of the server that no operation but construction changes.
pub open spec fn unchanged_config(a: P2pServer, b: P2pServer) -> bool {
    &&& a.spec_peer_id() == b.spec_peer_id()
    &&& a.spec_max_peers() == b.spec_max_peers()
    &&& a.spec_multi_threaded() == b.spec_multi_threaded()
    &&& a.spec_tag() == b.spec_tag()
    &&& a.spec_bind_address() == b.spec_bind_address()
}

/// Keeps the registry entries whose peer id differs from `id`.
pub open spec fn keep_other_ids(id: u64) -> spec_fn((u64, ConnectionView)) -> bool {
    |p: (u64, ConnectionView)| p.0 != id
}

/// The registry with every entry of this peer id taken out; entries keep
/// their order.
pub open spec fn spec_remove_peer(reg: Seq<(u64, ConnectionView)>, id: u64) -> Seq<
    (u64, ConnectionView),
> {
    reg.filter(keep_other_ids(id))
}

/// Removing a peer id is idempotent: once gone, removing again changes
/// nothing.
pub proof fn lemma_remove_peer_idempotent(reg: Seq<(u64, ConnectionView)>, id: u64)
    ensures
        spec_remove_peer(spec_remove_peer(reg, id), id) == spec_remove_peer(reg, id),
{
    let f = spec_remove_peer(reg, id);
    assert forall|j: int| 0 <= j < f.len() implies #[trigger] keep_other_ids(id)(f[j]) by {
        reg.lemma_filter_pred(keep_other_ids(id), j);
    }
    lemma_filter_all_kept(f, keep_other_ids(id));
}

/// Filtering keeps a sequence whose elements all satisfy the predicate.
proof fn lemma_filter_all_kept(
    s: Seq<(u64, ConnectionView)>,
    pred: spec_fn((u64, ConnectionView)) -> bool,
)
    requires
        forall|i: int| 0 <= i < s.len() ==> #[trigger] pred(s[i]),
    ensures
        s.filter(pred) == s,
    decreases s.len(),
{
    reveal_with_fuel(Seq::<(u64, ConnectionView)>::filter, 2);
    if s.len() > 0 {
        assert forall|i: int| 0 <= i < s.drop_last().len() implies #[trigger] pred(
            s.drop_last()[i],
        ) by {
            assert(s.drop_last()[i] == s[i]);
        }
        lemma_filter_all_kept(s.drop_last(), pred);
        assert(pred(s[s.len() - 1]));
        assert(s.last() == s[s.len() - 1]);
        assert(s.filter(pred) =~= s);
    }
}

/// When entry `i` is the only one with this id, removing it by index is
/// the same as filtering the id out.
proof fn lemma_remove_peer_unique(reg: Seq<(u64, ConnectionView)>, id: u64, i: int)
    requires
        0 <= i < reg.len(),
        reg[i].0 == id,
        forall|j: int| 0 <= j < reg.len() && j != i ==> #[trigger] reg[j].0 != id,
    ensures
        spec_remove_peer(reg, id) == reg.remove(i),
{
    let pred = keep_other_ids(id);
    lemma_filter_split_at(reg, pred, i);
    assert forall|j: int| 0 <= j < reg.take(i).len() implies #[trigger] pred(reg.take(i)[j]) by {
        assert(reg.take(i)[j] == reg[j]);
    }
    lemma_filter_all_kept(reg.take(i), pred);
    assert forall|j: int|
        0 <= j < reg.skip(i + 1).len() implies #[trigger] pred(reg.skip(i + 1)[j]) by {
        assert(reg.skip(i + 1)[j] == reg[j + i + 1]);
    }
    lemma_filter_all_kept(reg.skip(i + 1), pred);
    assert(reg.skip(i).filter(pred) =~= reg.skip(i + 1).filter(pred)) by {
        assert(reg.skip(i)[0] == reg[i]);
        lemma_filter_drop_head(reg.skip(i), pred);
        assert(reg.skip(i).drop_first() =~= reg.skip(i + 1));
    }
    assert(reg.remove(i) =~= reg.take(i) + reg.skip(i + 1));
    assert(spec_remove_peer(reg, id) =~= reg.remove(i));
}

/// Filtering splits across a cut of the sequence.
proof fn lemma_filter_split_at(s: Seq<(u64, ConnectionView)>, pred: spec_fn((u64, ConnectionView)) -> bool, i: int)
    requires
        0 <= i <= s.len(),
    ensures
        s.filter(pred) == s.take(i).filter(pred) + s.skip(i).filter(pred),
{
    assert(s =~= s.take(i) + s.skip(i));
    Seq::filter_distributes_over_add(s.take(i), s.skip(i), pred);
}

/// Filtering a sequence whose head fails the predicate drops the head.
proof fn lemma_filter_drop_head(s: Seq<(u64, ConnectionView)>, pred: spec_fn((u64, ConnectionView)) -> bool)
    requires
        s.len() > 0,
        !pred(s[0]),
    ensures
        s.filter(pred) == s.drop_first().filter(pred),
{
    reveal_with_fuel(Seq::<(u64, ConnectionView)>::filter, 3);
    assert(s =~= seq![s[0]] + s.drop_first());
    Seq::filter_distributes_over_add(seq![s[0]], s.drop_first(), pred);
    assert(Seq::<(u64, ConnectionView)>::empty().filter(pred) =~= Seq::<(u64, ConnectionView)>::empty());
    assert(seq![s[0]].drop_last() =~= Seq::<(u64, ConnectionView)>::empty());
    assert(seq![s[0]].filter(pred) =~= Seq::<(u64, ConnectionView)>::empty());
    assert(s.filter(pred) =~= s.drop_first().filter(pred));
}

/// No entry carries the id: filtering it out changes nothing.
proof fn lemma_remove_peer_absent(reg: Seq<(u64, ConnectionView)>, id: u64)
    requires
        forall|j: int| 0 <= j < reg.len() ==> #[trigger] reg[j].0 != id,
    ensures
        spec_remove_peer(reg, id) == reg,
{
    assert forall|j: int| 0 <= j < reg.len() implies #[trigger] keep_other_ids(id)(reg[j]) by {
        assert(reg[j].0 != id);
    }
    lemma_filter_all_kept(reg, keep_other_ids(id));
}

/// Byte-wise equality of two vectors.
fn vec_u8_eq(a: &Vec<u8>, b: &Vec<u8>) -> (r: bool)
    ensures
        r == (a@ == b@),
{
    if a.len() != b.len() {
        proof {
            assert(a@ != b@);
        }
        return false;
    }
    let n = a.len();
    let mut i: usize = 0;
    while i < n
        invariant
            i <= n,
            n == a@.len() == b@.len(),
            forall|j: int| 0 <= j < i ==> a@[j] == b@[j],
        decreases n - i,
    {
        if a[i] != b[i] {
            return false;
        }
        i = i + 1;
    }
    proof {
        assert(a@ =~= b@);
    }
    true
}

/// A fresh copy of a byte vector.
fn copy_bytes(b: &Vec<u8>) -> (r: Vec<u8>)
    ensures
        r@ == b@,
{
    slice_copy(b.as_slice())
}

/// A fresh copy of a byte slice.
fn slice_copy(b: &[u8]) -> (r: Vec<u8>)
    ensures
        r@ == b@,
{
    vstd::slice::slice_to_vec(b)
}

/// A fresh copy of a string.
fn clone_string(s: &String) -> (r: String)
    ensures
        r@ == s@,
{
    s.clone()
}

} // verus!
