use game_server::message::{GameMessage, UdpPacket, FULL_HEALTH_BITS};
use game_server::persist::{DbCall, EventKind};
use game_server::udp_server::{
    UdpClient, UdpGameServer, MOVE_LOG_SAMPLE, PICKUP_POINTS, RETRY_MS, TIMEOUT_MS,
};

const P1: u128 = 0x01;
const P2: u128 = 0x02;
const P3: u128 = 0x03;
const A1: u64 = 101;
const A2: u64 = 102;
const A3: u64 = 103;

/// A server with `ids`/`addrs` already registered (via their first heartbeat).
/// Each registration sends the newcomer its snapshot reliably, so every
/// connection starts with sequence 1 and one pending entry.
fn server_with(ids: &[u128], addrs: &[u64], now: u64) -> UdpGameServer {
    let mut s = UdpGameServer::new();
    for k in 0..ids.len() {
        s.handle_heartbeat(addrs[k], ids[k], 1, Some(k as i64), now);
    }
    s
}

/// A server whose connections were registered directly, with fresh counters
/// and empty pending tables.
fn raw_server(ids: &[u128], addrs: &[u64], now: u64) -> UdpGameServer {
    let mut s = UdpGameServer::new();
    for k in 0..ids.len() {
        let name = format!("p{}", k).into_bytes();
        assert!(s.insert(UdpClient::new(ids[k], addrs[k], name, None, now)));
    }
    s
}

#[test]
fn first_heartbeat_registers_acks_broadcasts_and_snapshots() {
    let mut s = server_with(&[P1], &[A1], 0);
    assert_eq!(s.get_client_count(), 1);

    let fx = s.handle_heartbeat(A2, P2, 1, Some(7), 50);
    assert_eq!(s.get_client_count(), 2);
    assert!(s.contains_addr(A2) && s.contains_id(P2));

    // Store calls: upsert the new player, log the join.
    assert_eq!(fx.db.len(), 2);
    match &fx.db[0] {
        DbCall::CreateOrUpdatePlayer { player } => {
            assert_eq!(player.id, P2);
            assert_eq!(player.name, b"Player_00000000".to_vec());
            assert_eq!(player.health_bits, FULL_HEALTH_BITS);
            assert_eq!(player.score, 0);
        }
        other => panic!("wrong call: {:?}", other),
    }
    match &fx.db[1] {
        DbCall::LogEvent { player_id, session_id, kind, data } => {
            assert_eq!(*player_id, P2);
            assert_eq!(*session_id, Some(7));
            assert_eq!(*kind, EventKind::Join);
            assert!(data.is_none());
        }
        other => panic!("wrong call: {:?}", other),
    }

    // Sends: reliable join to the other connection, reliable snapshot to the
    // newcomer, then the ack.
    assert_eq!(fx.sends.len(), 3);
    assert_eq!(fx.sends[0].dest, A1);
    assert!(fx.sends[0].packet.reliable);
    match &fx.sends[0].packet.message {
        GameMessage::PlayerJoin { player_id, .. } => assert_eq!(*player_id, P2),
        other => panic!("wrong message: {:?}", other),
    }
    assert_eq!(fx.sends[1].dest, A2);
    assert!(fx.sends[1].packet.reliable);
    assert_eq!(fx.sends[1].packet.sequence, 1);
    match &fx.sends[1].packet.message {
        GameMessage::GameState { players, .. } => {
            assert_eq!(players.len(), 2);
            assert_eq!(players[0].id, P1);
            assert_eq!(players[1].id, P2);
        }
        other => panic!("wrong message: {:?}", other),
    }
    assert_eq!(fx.sends[2].dest, A2);
    assert_eq!(fx.sends[2].packet.sequence, 0);
    assert!(!fx.sends[2].packet.reliable);
    assert_eq!(fx.sends[2].packet.message, GameMessage::Ack { sequence: 1 });
}

#[test]
fn repeated_heartbeat_only_refreshes_and_acks() {
    let mut s = server_with(&[P1], &[A1], 0);
    let fx = s.handle_heartbeat(A1, P1, 5, None, 10);
    assert_eq!(s.get_client_count(), 1);
    assert!(fx.db.is_empty());
    assert_eq!(fx.sends.len(), 1);
    assert_eq!(fx.sends[0].packet.message, GameMessage::Ack { sequence: 5 });
}

#[test]
fn heartbeat_with_taken_identity_registers_nothing() {
    let mut s = server_with(&[P1], &[A1], 0);
    let fx = s.handle_heartbeat(A2, P1, 2, None, 10);
    assert_eq!(s.get_client_count(), 1);
    assert!(!s.contains_addr(A2));
    assert!(fx.db.is_empty());
    assert_eq!(fx.sends.len(), 1);
    assert_eq!(fx.sends[0].packet.message, GameMessage::Ack { sequence: 2 });
}

#[test]
fn foreign_move_is_rejected_without_mutation_or_broadcast() {
    // Endpoint of P2 claims to move P1: nothing may change, nothing goes out.
    let mut s = server_with(&[P1, P2], &[A1, A2], 0);
    let before = s.clients.clone();
    let fx = s.handle_player_move(A2, P1, 5.0f32.to_bits(), 5.0f32.to_bits(), 3, true, 10);
    assert_eq!(s.clients, before);
    assert!(fx.sends.is_empty());
    assert!(fx.db.is_empty());
}

#[test]
fn own_move_updates_acks_and_fans_out_unreliably() {
    let mut s = server_with(&[P1, P2], &[A1, A2], 0);
    let x = 5.0f32.to_bits();
    let y = 6.0f32.to_bits();
    let fx = s.handle_player_move(A1, P1, x, y, 3, true, 10);
    assert_eq!(s.clients[0].player.x_bits, x);
    assert_eq!(s.clients[0].player.y_bits, y);
    assert_eq!(s.clients[0].last_seen, 10);
    // Ack first (the move asked for reliability), then the unreliable fan-out
    // to everyone but the mover.
    assert_eq!(fx.sends.len(), 2);
    assert_eq!(fx.sends[0].dest, A1);
    assert_eq!(fx.sends[0].packet.message, GameMessage::Ack { sequence: 3 });
    assert_eq!(fx.sends[1].dest, A2);
    assert!(!fx.sends[1].packet.reliable);
    assert_eq!(fx.sends[1].packet.sequence, 0);
    assert_eq!(
        fx.sends[1].packet.message,
        GameMessage::PlayerMove { player_id: P1, x_bits: x, y_bits: y }
    );
    // Sequence 3 is not a sampled move: only the position update is stored.
    assert_eq!(fx.db.len(), 1);
    assert_eq!(fx.db[0], DbCall::UpdatePosition { player_id: P1, x_bits: x, y_bits: y });
}

#[test]
fn every_nth_move_is_logged() {
    let mut s = server_with(&[P1], &[A1], 0);
    let fx = s.handle_player_move(A1, P1, 1, 2, MOVE_LOG_SAMPLE, true, 10);
    assert_eq!(fx.db.len(), 2);
    assert!(matches!(fx.db[1], DbCall::LogEvent { kind: EventKind::Move, .. }));
}

#[test]
fn unreliable_move_gets_no_ack() {
    let mut s = server_with(&[P1], &[A1], 0);
    let fx = s.handle_player_move(A1, P1, 1, 2, 3, false, 10);
    assert!(fx.sends.is_empty());
}

#[test]
fn pickup_grants_points_and_stores_the_score() {
    let mut s = server_with(&[P1], &[A1], 0);
    let fx = s.handle_player_action(A1, P1, &b"pickup".to_vec(), 4, true, 10);
    assert_eq!(s.clients[0].player.score, PICKUP_POINTS);
    assert_eq!(fx.db.len(), 2);
    assert_eq!(fx.db[0], DbCall::UpdateScore { player_id: P1, score: PICKUP_POINTS });
    assert!(matches!(fx.db[1], DbCall::LogEvent { kind: EventKind::Pickup, .. }));
    assert_eq!(fx.sends.len(), 1);
    assert_eq!(fx.sends[0].packet.message, GameMessage::Ack { sequence: 4 });
}

#[test]
fn attack_logs_an_event() {
    let mut s = server_with(&[P1], &[A1], 0);
    let fx = s.handle_player_action(A1, P1, &b"attack".to_vec(), 4, false, 10);
    assert_eq!(fx.db.len(), 1);
    assert!(matches!(fx.db[0], DbCall::LogEvent { kind: EventKind::Attack, .. }));
    assert!(fx.sends.is_empty());
}

#[test]
fn unknown_action_only_refreshes_and_acks() {
    let mut s = server_with(&[P1], &[A1], 0);
    let fx = s.handle_player_action(A1, P1, &b"dance".to_vec(), 4, true, 10);
    assert_eq!(s.clients[0].last_seen, 10);
    assert!(fx.db.is_empty());
    assert_eq!(fx.sends.len(), 1);
}

#[test]
fn foreign_action_is_rejected() {
    let mut s = server_with(&[P1, P2], &[A1, A2], 0);
    let before = s.clients.clone();
    let fx = s.handle_player_action(A2, P1, &b"pickup".to_vec(), 4, true, 10);
    assert_eq!(s.clients, before);
    assert!(fx.sends.is_empty() && fx.db.is_empty());
}

#[test]
fn chat_is_stored_and_broadcast_to_everyone() {
    let mut s = server_with(&[P1, P2], &[A1, A2], 0);
    let fx = s.handle_chat(A1, P1, &b"hi".to_vec(), 2, true, 10);
    assert_eq!(fx.db.len(), 2);
    assert!(matches!(fx.db[0], DbCall::SaveChat { .. }));
    assert!(matches!(fx.db[1], DbCall::LogEvent { kind: EventKind::Chat, .. }));
    // Ack, then the reliable chat to both connections, the sender included.
    assert_eq!(fx.sends.len(), 3);
    assert_eq!(fx.sends[0].packet.message, GameMessage::Ack { sequence: 2 });
    assert_eq!(fx.sends[1].dest, A1);
    assert_eq!(fx.sends[2].dest, A2);
    assert!(fx.sends[1].packet.reliable && fx.sends[2].packet.reliable);
    assert_eq!(
        fx.sends[1].packet.message,
        GameMessage::Chat { player_id: P1, message: b"hi".to_vec() }
    );
}

#[test]
fn foreign_chat_is_rejected() {
    let mut s = server_with(&[P1, P2], &[A1, A2], 0);
    let fx = s.handle_chat(A2, P1, &b"hi".to_vec(), 2, true, 10);
    assert!(fx.sends.is_empty() && fx.db.is_empty());
}

#[test]
fn sequence_numbers_start_at_one_and_count_up() {
    let mut s = raw_server(&[P1], &[A1], 0);
    let m = GameMessage::Chat { player_id: P2, message: b"x".to_vec() };
    for expected in 1..=3u32 {
        let out = s.broadcast_reliable(&m, None, 10);
        assert_eq!(out.len(), 1);
        assert_eq!(out[0].packet.sequence, expected);
    }
    assert_eq!(s.clients[0].sequence, 3);
    assert_eq!(s.clients[0].pending_acks.len(), 3);
}

#[test]
fn reliable_chat_is_retransmitted_until_acked() {
    // A reliable line goes to P1 at t=0; with no ack it is retransmitted by
    // the sweep after the retry threshold, byte-identical; an ack then
    // removes the entry and later sweeps send nothing.
    let mut s = raw_server(&[P1], &[A1], 0);
    let m = GameMessage::Chat { player_id: P2, message: b"hi".to_vec() };
    let out = s.broadcast_reliable(&m, None, 0);
    let first_bytes = out[0].packet.serialize();

    // Within the threshold nothing is due.
    let early = s.reliability_tick(RETRY_MS);
    assert!(early.is_empty());

    // Past the threshold the stored envelope goes out again, unchanged.
    let again = s.reliability_tick(RETRY_MS + 1);
    assert_eq!(again.len(), 1);
    assert_eq!(again[0].dest, A1);
    assert_eq!(again[0].packet.serialize(), first_bytes);

    // The ack at t=150 removes the entry...
    s.handle_ack(A1, 1, 150);
    assert!(s.clients[0].pending_acks.is_empty());

    // ...and the t=300 sweep retransmits nothing.
    let after = s.reliability_tick(300);
    assert!(after.is_empty());
}

#[test]
fn acknowledging_unknown_sequence_is_a_no_op() {
    let mut s = raw_server(&[P1], &[A1], 0);
    let m = GameMessage::Chat { player_id: P2, message: b"x".to_vec() };
    s.broadcast_reliable(&m, None, 0);
    assert_eq!(s.clients[0].pending_acks.len(), 1);
    s.handle_ack(A1, 99, 5);
    assert_eq!(s.clients[0].pending_acks.len(), 1);
    // Acking twice removes the entry exactly once.
    s.handle_ack(A1, 1, 6);
    s.handle_ack(A1, 1, 7);
    assert!(s.clients[0].pending_acks.is_empty());
}

#[test]
fn remove_pending_ack_reports_whether_an_entry_was_there() {
    let mut c = UdpClient::new(P1, A1, b"p".to_vec(), None, 0);
    let pkt = UdpPacket::new(c.next_sequence(), GameMessage::Ack { sequence: 0 }, true, 0);
    c.add_pending_ack(pkt, 0);
    assert!(c.remove_pending_ack(1));
    assert!(!c.remove_pending_ack(1));
}

#[test]
fn idle_connection_is_evicted_after_the_timeout() {
    // P3 last active at t=0: still present at t=29s, gone at the sweep after
    // t=30s; its pending table goes with it.
    let mut s = raw_server(&[P3], &[A3], 0);
    let m = GameMessage::Chat { player_id: P1, message: b"x".to_vec() };
    s.broadcast_reliable(&m, None, 0);

    s.cleanup_tick(29_000);
    assert!(s.contains_addr(A3));
    s.cleanup_tick(TIMEOUT_MS);
    assert!(s.contains_addr(A3));
    s.cleanup_tick(TIMEOUT_MS + 1);
    assert!(!s.contains_addr(A3));
    assert_eq!(s.get_client_count(), 0);
    assert!(s.reliability_tick(60_000).is_empty());
}

#[test]
fn any_activity_within_the_threshold_survives_the_sweep() {
    let mut s = server_with(&[P1, P2], &[A1, A2], 0);
    // P1 chats at t=25s; P2 stays silent.
    s.handle_chat(A1, P1, &b"still here".to_vec(), 2, false, 25_000);
    s.cleanup_tick(31_000);
    assert!(s.contains_addr(A1));
    assert!(!s.contains_addr(A2));
}

#[test]
fn broadcast_excluding_one_delivers_to_everyone_else() {
    // Two live connections; a move broadcast excluding P1 reaches only P2.
    let mut s = raw_server(&[P1, P2], &[A1, A2], 0);
    let m = GameMessage::PlayerMove { player_id: P1, x_bits: 1, y_bits: 2 };
    let out = s.broadcast_unreliable(&m, Some(A1), 10);
    assert_eq!(out.len(), 1);
    assert_eq!(out[0].dest, A2);

    let rel = s.broadcast_reliable(&m, Some(A1), 10);
    assert_eq!(rel.len(), 1);
    assert_eq!(rel[0].dest, A2);
    assert!(s.clients[0].pending_acks.is_empty());
    assert_eq!(s.clients[1].pending_acks.len(), 1);
}

#[test]
fn broadcast_to_empty_registry_delivers_to_no_one() {
    let mut s = UdpGameServer::new();
    let m = GameMessage::Chat { player_id: P1, message: b"x".to_vec() };
    assert!(s.broadcast_unreliable(&m, None, 0).is_empty());
    assert!(s.broadcast_reliable(&m, None, 0).is_empty());
}

#[test]
fn heartbeat_tick_pings_every_connection() {
    let s = server_with(&[P1, P2], &[A1, A2], 0);
    let out = s.heartbeat_tick(5_000);
    assert_eq!(out.len(), 2);
    assert_eq!(out[0].dest, A1);
    assert_eq!(out[0].packet.message, GameMessage::Heartbeat { player_id: P1, sequence: 0 });
    assert_eq!(out[1].dest, A2);
    assert!(!out[0].packet.reliable);
    assert_eq!(out[0].packet.sequence, 0);
}

#[test]
fn handle_packet_dispatches_by_variant() {
    let mut s = UdpGameServer::new();
    let hb = UdpPacket::new(0, GameMessage::Heartbeat { player_id: P1, sequence: 1 }, false, 0);
    let fx = s.handle_packet(A1, &hb, Some(1), 0);
    assert_eq!(s.get_client_count(), 1);
    assert_eq!(fx.db.len(), 2);

    // Variants the server itself emits are ignored on arrival.
    let junk = UdpPacket::new(0, GameMessage::Error { message: b"x".to_vec() }, false, 0);
    let fx2 = s.handle_packet(A1, &junk, None, 1);
    assert!(fx2.sends.is_empty() && fx2.db.is_empty());
}

#[test]
fn eviction_is_terminal_but_identity_may_rejoin_fresh() {
    let mut s = server_with(&[P1], &[A1], 0);
    s.handle_player_action(A1, P1, &b"pickup".to_vec(), 2, false, 0);
    assert_eq!(s.clients[0].player.score, PICKUP_POINTS);
    s.cleanup_tick(TIMEOUT_MS + 1);
    assert_eq!(s.get_client_count(), 0);
    // A new contact from the same identity creates a fresh connection.
    s.handle_heartbeat(A1, P1, 1, None, TIMEOUT_MS + 2);
    assert_eq!(s.get_client_count(), 1);
    assert_eq!(s.clients[0].player.score, 0);
    assert_eq!(s.clients[0].sequence, 1); // one reliable send: the snapshot
}

#[test]
fn score_saturates_at_the_counter_maximum() {
    let mut c = UdpClient::new(P1, A1, b"p".to_vec(), None, 0);
    c.add_score(u32::MAX - 3);
    c.add_score(10);
    assert_eq!(c.player.score, u32::MAX);
}

#[test]
fn insert_rejects_a_taken_endpoint_or_identity() {
    let mut s = raw_server(&[P1], &[A1], 0);
    assert!(!s.insert(UdpClient::new(P1, A2, b"dup-id".to_vec(), None, 0)));
    assert!(!s.insert(UdpClient::new(P2, A1, b"dup-addr".to_vec(), None, 0)));
    assert_eq!(s.get_client_count(), 1);
    assert!(s.insert(UdpClient::new(P2, A2, b"fresh".to_vec(), None, 0)));
    assert_eq!(s.get_client_count(), 2);
}

#[test]
fn remove_detaches_once_and_is_idempotent() {
    let mut s = raw_server(&[P1, P2], &[A1, A2], 0);
    assert!(s.remove(P1));
    assert_eq!(s.get_client_count(), 1);
    assert!(!s.contains_id(P1));
    assert!(!s.remove(P1));
    assert_eq!(s.get_client_count(), 1);
}

#[test]
fn timeout_is_measured_from_last_activity() {
    let c = UdpClient::new(P1, A1, b"p".to_vec(), None, 1_000);
    assert!(!c.is_timeout(1_000 + TIMEOUT_MS));
    assert!(c.is_timeout(1_000 + TIMEOUT_MS + 1));
    assert!(!c.is_timeout(500));
}

#[test]
fn get_timeout_packets_lists_exactly_the_due_entries() {
    let mut c = UdpClient::new(P1, A1, b"p".to_vec(), None, 0);
    let m = GameMessage::Ack { sequence: 0 };
    let s1 = c.next_sequence();
    c.add_pending_ack(UdpPacket::new(s1, m.clone(), true, 0), 0);
    let s2 = c.next_sequence();
    c.add_pending_ack(UdpPacket::new(s2, m, true, 0), 150);
    // At t=200 only the first entry is past the retry threshold.
    assert_eq!(c.get_timeout_packets(200), vec![1]);
    assert_eq!(c.get_timeout_packets(300), vec![1, 2]);
    assert_eq!(c.get_timeout_packets(50), Vec::<u32>::new());
}
