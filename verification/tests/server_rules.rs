use p2p_core::address::PeerAddr;
use p2p_core::connection::{Connection, ConnectionMessage, State};
use p2p_core::error::P2pError;
use p2p_core::handshake::Handshake;

use p2p_core::object::{ObjectRequest, ObjectResponse, OwnedObjectResponse, respond_object_request};
use p2p_core::server::P2pServer;

fn addr(n: u32) -> PeerAddr {
    PeerAddr::V4 { ip: n, port: 2125 }
}

fn server(max_peers: usize) -> P2pServer {
    P2pServer::new(1, None, max_peers, true, String::from("127.0.0.1:2125"))
}

fn handshake_from(peer_id: u64, network_id: Vec<u8>, peers: Vec<PeerAddr>) -> Handshake {
    Handshake::new(
        String::from("0.1.0"),
        None,
        network_id,
        peer_id,
        2125,
        1_700_000_000,
        0,
        p2p_core::hash::Hash::zero(),
        peers,
    )
}

#[test]
fn network_mismatch_is_rejected_and_registry_unchanged() {
    let mut server = server(8);
    let local_id = vec![0x01u8; 16];
    let hs = handshake_from(7, vec![0x02u8; 16], vec![]);
    let result = server.handle_incoming_handshake(addr(10), &hs, &local_id, 0);
    assert_eq!(result, Err(P2pError::InvalidNetworkID));
    assert_eq!(server.get_peer_count(), 0);
}

#[test]
fn duplicate_peer_id_is_rejected_and_registry_unchanged() {
    let mut server = server(8);
    let network = vec![0u8; 16];
    let first = handshake_from(7, vec![0u8; 16], vec![]);
    server
        .handle_incoming_handshake(addr(10), &first, &network, 0)
        .expect("first peer registers");
    assert_eq!(server.get_peer_count(), 1);

    let second = handshake_from(7, vec![0u8; 16], vec![]);
    let result = server.handle_incoming_handshake(addr(11), &second, &network, 1);
    assert_eq!(result, Err(P2pError::PeerIdAlreadyUsed(7)));
    assert_eq!(server.get_peer_count(), 1);
}

#[test]
fn own_peer_id_is_rejected() {
    let mut server = server(8);
    let network = vec![0u8; 16];
    let hs = handshake_from(1, vec![0u8; 16], vec![]);
    let result = server.handle_incoming_handshake(addr(10), &hs, &network, 0);
    assert_eq!(result, Err(P2pError::PeerIdAlreadyUsed(1)));
}

#[test]
fn duplicate_address_is_rejected() {
    let mut server = server(8);
    let network = vec![0u8; 16];
    let first = handshake_from(7, vec![0u8; 16], vec![]);
    server.handle_incoming_handshake(addr(10), &first, &network, 0).expect("registers");
    let second = handshake_from(8, vec![0u8; 16], vec![]);
    let result = server.handle_incoming_handshake(addr(10), &second, &network, 1);
    assert_eq!(result, Err(P2pError::PeerAlreadyConnected(addr(10))));
    assert_eq!(server.get_peer_count(), 1);
}

#[test]
fn max_peers_gating() {
    let mut server = server(2);
    let network = vec![0u8; 16];
    assert!(server.accept_new_connections());
    server
        .handle_incoming_handshake(addr(10), &handshake_from(7, vec![0u8; 16], vec![]), &network, 0)
        .expect("first");
    assert!(server.accept_new_connections());
    server
        .handle_incoming_handshake(addr(11), &handshake_from(8, vec![0u8; 16], vec![]), &network, 0)
        .expect("second");
    // Registry is full: the accept loop must shut the third socket before
    // reading any handshake.
    assert!(!server.accept_new_connections());
    assert_eq!(server.get_peer_count(), 2);
    assert_eq!(server.get_slots_available(), 0);
}

#[test]
fn gossiped_peers_are_filtered_and_trimmed() {
    let mut server = server(3);
    let network = vec![0u8; 16];
    // Gossip four addresses: one already connected, three new, but only
    // two slots stay free after this peer registers... the filter uses the
    // state before registration, so three slots minus nothing yet.
    server
        .handle_incoming_handshake(addr(10), &handshake_from(7, vec![0u8; 16], vec![]), &network, 0)
        .expect("first");
    let gossip = vec![addr(10), addr(20), addr(21), addr(22)];
    let (_, dials) = server
        .handle_incoming_handshake(addr(11), &handshake_from(8, vec![0u8; 16], gossip), &network, 0)
        .expect("second");
    // addr(10) is already connected; the rest are capped at the free
    // slots before insertion (3 - 1 = 2).
    assert_eq!(dials, vec![addr(20), addr(21)]);
}

#[test]
fn send_to_peer_is_fifo_per_peer() {
    let mut server = server(4);
    let network = vec![0u8; 16];
    server
        .handle_incoming_handshake(addr(10), &handshake_from(7, vec![0u8; 16], vec![]), &network, 0)
        .expect("registers");
    assert!(server.send_to_peer(7, vec![b'A']));
    assert!(server.send_to_peer(7, vec![b'B']));
    assert!(server.send_to_peer(7, vec![b'C']));
    assert!(!server.send_to_peer(99, vec![b'X']));
    assert!(server.is_connected_to(&7));
    assert!(!server.is_connected_to(&99));
    assert!(server.is_connected_to_addr(&addr(10)));
    // The peer's writer sees A, B, C in exactly that order.
    assert_eq!(server.dequeue_from_peer(7), Some(ConnectionMessage::Packet(vec![b'A'])));
    assert_eq!(server.dequeue_from_peer(7), Some(ConnectionMessage::Packet(vec![b'B'])));
    assert_eq!(server.dequeue_from_peer(7), Some(ConnectionMessage::Packet(vec![b'C'])));
    assert_eq!(server.dequeue_from_peer(7), None);
    assert_eq!(server.dequeue_from_peer(99), None);
}

#[test]
fn broadcast_reaches_every_peer_in_order() {
    let mut server = server(4);
    let network = vec![0u8; 16];
    server
        .handle_incoming_handshake(addr(10), &handshake_from(7, vec![0u8; 16], vec![]), &network, 0)
        .expect("first");
    server
        .handle_incoming_handshake(addr(11), &handshake_from(8, vec![0u8; 16], vec![]), &network, 0)
        .expect("second");
    server.broadcast_bytes(&[b'Z']);
    assert_eq!(server.dequeue_from_peer(7), Some(ConnectionMessage::Packet(vec![b'Z'])));
    assert_eq!(server.dequeue_from_peer(8), Some(ConnectionMessage::Packet(vec![b'Z'])));
    assert_eq!(server.dequeue_from_peer(8), None);
}

#[test]
fn remove_connection_is_idempotent() {
    let mut server = server(4);
    let network = vec![0u8; 16];
    server
        .handle_incoming_handshake(addr(10), &handshake_from(7, vec![0u8; 16], vec![]), &network, 0)
        .expect("registers");
    assert_eq!(server.get_peer_count(), 1);
    assert!(server.remove_connection(&7));
    assert_eq!(server.get_peer_count(), 0);
    assert!(!server.remove_connection(&7));
    assert_eq!(server.get_peer_count(), 0);
}

#[test]
fn build_handshake_carries_registry_addresses() {
    let mut server = P2pServer::new(
        5,
        Some(String::from("tag")),
        4,
        false,
        String::from("0.0.0.0:1"),
    );
    let network = vec![3u8; 16];
    server
        .handle_incoming_handshake(addr(10), &handshake_from(7, vec![3u8; 16], vec![]), &network, 0)
        .expect("registers");
    let hs = server.build_handshake(
        String::from("0.1.0"),
        network.clone(),
        2125,
        1_700_000_000,
        9,
        p2p_core::hash::Hash::zero(),
    );
    assert_eq!(hs.get_peer_id(), 5);
    assert_eq!(hs.get_node_tag(), &Some(String::from("tag")));
    assert_eq!(hs.get_peers(), &vec![addr(10)]);
    assert_eq!(hs.get_block_height(), 9);
    assert!(!server.is_multi_threaded());
    assert_eq!(server.get_bind_address(), "0.0.0.0:1");
}

#[test]
fn connection_close_is_idempotent() {
    let mut connection = Connection::new(addr(1), 12345);
    assert!(!connection.is_closed());
    connection.close();
    assert!(connection.is_closed());
    // The close left exactly one Exit in the mailbox.
    assert_eq!(connection.dequeue_message(), Some(ConnectionMessage::Exit));
    assert_eq!(connection.dequeue_message(), None);
    // Closing again changes nothing.
    connection.close();
    assert!(connection.is_closed());
    assert_eq!(connection.dequeue_message(), None);
}

#[test]
fn connection_counters_are_monotonic_and_send_fails_after_close() {
    let mut connection = Connection::new(addr(1), 0);
    assert_eq!(connection.bytes_out(), 0);
    assert_eq!(connection.send_bytes(&[1, 2, 3]), Ok(()));
    assert_eq!(connection.bytes_out(), 3);
    connection.record_bytes_in(7);
    assert_eq!(connection.bytes_in(), 7);
    connection.record_bytes_in(1);
    assert_eq!(connection.bytes_in(), 8);
    connection.close();
    assert_eq!(connection.send_bytes(&[4]), Err(P2pError::Disconnected));
    assert_eq!(connection.bytes_out(), 3);
    assert_eq!(connection.connected_on(), 0);
}

#[test]
fn connection_mailbox_is_fifo() {
    let mut connection = Connection::new(addr(1), 0);
    connection.enqueue_message(ConnectionMessage::Packet(vec![b'A']));
    connection.enqueue_message(ConnectionMessage::Packet(vec![b'B']));
    connection.enqueue_message(ConnectionMessage::Packet(vec![b'C']));
    assert_eq!(connection.dequeue_message(), Some(ConnectionMessage::Packet(vec![b'A'])));
    assert_eq!(connection.dequeue_message(), Some(ConnectionMessage::Packet(vec![b'B'])));
    assert_eq!(connection.dequeue_message(), Some(ConnectionMessage::Packet(vec![b'C'])));
    assert_eq!(connection.dequeue_message(), None);
}

#[test]
fn connection_state_transitions() {
    let mut connection = Connection::new(addr(1), 0);
    assert_eq!(connection.get_state(), State::Pending);
    connection.set_state(State::Handshake);
    assert_eq!(connection.get_state(), State::Handshake);
    connection.set_state(State::Success);
    assert_eq!(connection.get_state(), State::Success);
}

#[test]
fn zero_length_stream_read_means_disconnected() {
    assert_eq!(p2p_core::connection::classify_stream_read(0), Err(P2pError::Disconnected));
    assert_eq!(p2p_core::connection::classify_stream_read(17), Ok(17));
}

#[test]
fn read_chunk_len_is_the_smaller_side() {
    assert_eq!(p2p_core::connection::read_chunk_len(512, 100), 100);
    assert_eq!(p2p_core::connection::read_chunk_len(512, 4096), 512);
}

#[test]
fn object_request_not_found_flow() {
    // A peer asks for a block the chain does not have; the reply echoes
    // the request, and turning that reply into an owned object reports
    // the miss.
    let wanted = p2p_core::hash::Hash::new(vec![5u8; 32]);
    let request = ObjectRequest::Block(wanted.clone());
    let response = respond_object_request(request.clone(), None);
    assert_eq!(response, ObjectResponse::NotFound(ObjectRequest::Block(wanted)));
    assert_eq!(response.get_request(), request);
    assert_eq!(response.to_owned(), Err(P2pError::ObjectNotFound(request)));
}

#[test]
fn object_request_found_flow() {
    let payload = vec![1u8, 2, 3, 4];
    let digest = p2p_core::hash::hash(&payload);
    let request = ObjectRequest::Block(digest.clone());
    let response = respond_object_request(request, Some(payload.clone()));
    assert_eq!(response, ObjectResponse::Block(payload.clone()));
    assert_eq!(response.get_request(), ObjectRequest::Block(digest.clone()));
    let owned = response.to_owned().expect("found");
    assert_eq!(owned, OwnedObjectResponse::Block(payload));
    assert_eq!(owned.get_hash(), digest);
}
