//! The connection manager, the peers registry, and the session-level
//! accept, relay and disconnect behaviour.

use synclite::{
    ConnectionManager, PeersState, ServerMessage, SyncError, SyncState, apply_file_update,
    follower_handle_ack, generate_peer_id, leader_accept, leader_disconnect,
};

fn s(x: &str) -> String {
    x.to_string()
}

#[test]
fn connection_bookkeeping() {
    let mut cm = ConnectionManager::new();
    assert_eq!(cm.connection_count(), 0);
    cm.add_connection(s("p1"));
    cm.add_connection(s("p2"));
    cm.add_connection(s("p1"));
    assert_eq!(cm.connection_count(), 2);
    assert!(cm.is_peer_connected(&s("p1")));
    assert!(!cm.is_peer_connected(&s("p3")));
    cm.remove_connection(&s("p1"));
    assert_eq!(cm.connection_count(), 1);
    cm.remove_connection(&s("p1"));
    assert_eq!(cm.connection_count(), 1);
    assert_eq!(cm.check_send(&s("p2")), Ok(()));
    assert_eq!(cm.check_send(&s("p1")), Err(SyncError::UnknownPeer));
}

#[test]
fn broadcast_eviction_shrinks_count_by_failures() {
    let mut cm = ConnectionManager::new();
    cm.add_connection(s("p1"));
    cm.add_connection(s("p2"));
    cm.add_connection(s("p3"));
    let targets = cm.broadcast_targets(&Vec::new());
    assert_eq!(targets, vec![s("p1"), s("p2"), s("p3")]);
    // Two writes failed.
    let failed = vec![s("p1"), s("p3")];
    let before = cm.connection_count();
    cm.evict_failed(&failed);
    assert_eq!(cm.connection_count(), before - failed.len());
    for f in &failed {
        assert!(!cm.is_peer_connected(f));
    }
    assert!(cm.is_peer_connected(&s("p2")));
}

#[test]
fn broadcast_except_skips_the_sender() {
    // Relay: a push received from one peer goes to everyone but that peer.
    let mut cm = ConnectionManager::new();
    cm.add_connection(s("f1"));
    cm.add_connection(s("f2"));
    let mut leader_state = SyncState::new();
    let writes = vec![(s("a"), s("x"))];
    apply_file_update(&mut leader_state, &writes, &Vec::new(), 10);
    let targets = cm.broadcast_targets(&vec![s("f1")]);
    assert_eq!(targets, vec![s("f2")]);
    assert!(leader_state.file_exists(&s("a")));
}

#[test]
fn peers_registry_rules() {
    let mut ps = PeersState::new();
    ps.add_peer(s("a"));
    ps.add_peer(s("b"));
    ps.add_peer(s("a"));
    assert_eq!(ps.peers, vec![s("a"), s("b")]);
    ps.remove_peer(&s("a"));
    assert_eq!(ps.peers, vec![s("b")]);
    ps.remove_peer(&s("zz"));
    assert_eq!(ps.peers, vec![s("b")]);
    ps.set_leader(s("lead"));
    assert_eq!(ps.leader.as_deref(), Some("lead"));
    ps.set_peers(vec![s("x"), s("y")]);
    assert_eq!(ps.peers, vec![s("x"), s("y")]);
}

#[test]
fn accept_produces_ack_and_peer_list() {
    let mut cm = ConnectionManager::new();
    let mut ps = PeersState::new();
    let (ack, update) = leader_accept(&mut cm, &mut ps, s("peer-7"), &s("leader-1"));
    assert!(cm.is_peer_connected(&s("peer-7")));
    assert_eq!(ps.peers, vec![s("peer-7")]);
    match ack {
        ServerMessage::ConnectionAck { peer_id, leader_id } => {
            assert_eq!(peer_id, "peer-7");
            assert_eq!(leader_id, "leader-1");
        },
        _ => panic!("wrong ack"),
    }
    match update {
        ServerMessage::PeerListUpdate { peers } => assert_eq!(peers, vec![s("peer-7")]),
        _ => panic!("wrong update"),
    }
}

#[test]
fn disconnect_cleans_up_and_announces() {
    // After an abrupt disconnect the peer is gone from both tables and the
    // next peer-list broadcast no longer names it.
    let mut cm = ConnectionManager::new();
    let mut ps = PeersState::new();
    leader_accept(&mut cm, &mut ps, s("f1"), &s("l"));
    leader_accept(&mut cm, &mut ps, s("f2"), &s("l"));
    let update = leader_disconnect(&mut cm, &mut ps, &s("f1"));
    assert!(!cm.is_peer_connected(&s("f1")));
    assert_eq!(ps.peers, vec![s("f2")]);
    match update {
        ServerMessage::PeerListUpdate { peers } => assert_eq!(peers, vec![s("f2")]),
        _ => panic!("wrong update"),
    }
    let targets = cm.broadcast_targets(&Vec::new());
    assert_eq!(targets, vec![s("f2")]);
}

#[test]
fn ack_handling_is_strict() {
    let mut ps = PeersState::new();
    let ok = follower_handle_ack(
        &mut ps,
        ServerMessage::ConnectionAck { peer_id: s("me"), leader_id: s("boss") },
    );
    assert_eq!(ok, Ok((s("me"), s("boss"))));
    assert_eq!(ps.leader.as_deref(), Some("boss"));
    let bad = follower_handle_ack(&mut ps, ServerMessage::PeerListUpdate { peers: Vec::new() });
    assert_eq!(bad, Err(SyncError::BadRequest));
}

#[test]
fn peer_ids_are_long_and_fresh() {
    let a = generate_peer_id();
    let b = generate_peer_id();
    assert_eq!(a.len(), 36);
    assert_eq!(b.len(), 36);
    assert_ne!(a, b);
}
