use game_server::client::Client;
use game_server::game::GameState;
use game_server::message::GameMessage;
use game_server::persist::{DbCall, EventKind};
use game_server::udp_server::PICKUP_POINTS;

const P1: u128 = 0x11;
const P2: u128 = 0x22;
const A1: u64 = 1;
const A2: u64 = 2;

fn two_client_game() -> GameState {
    let mut g = GameState::new();
    g.add_client(Client::new(P1, A1, b"one".to_vec()), Some(1), 0);
    g.add_client(Client::new(P2, A2, b"two".to_vec()), Some(2), 0);
    g
}

#[test]
fn add_client_stores_joins_and_snapshots() {
    let mut g = GameState::new();
    g.add_client(Client::new(P1, A1, b"one".to_vec()), Some(1), 0);
    let fx = g.add_client(Client::new(P2, A2, b"two".to_vec()), Some(2), 7_000);
    assert_eq!(g.get_client_count(), 2);

    assert_eq!(fx.db.len(), 2);
    assert!(matches!(fx.db[0], DbCall::CreateOrUpdatePlayer { .. }));
    assert!(matches!(fx.db[1], DbCall::LogEvent { kind: EventKind::Join, .. }));

    // The join goes to the newcomer itself, then to everyone else, then the
    // newcomer gets the snapshot of both players.
    assert_eq!(fx.deliveries.len(), 3);
    assert_eq!(fx.deliveries[0].to, P2);
    assert!(matches!(
        fx.deliveries[0].message,
        GameMessage::PlayerJoin { player_id: P2, .. }
    ));
    assert_eq!(fx.deliveries[1].to, P1);
    assert_eq!(fx.deliveries[2].to, P2);
    match &fx.deliveries[2].message {
        GameMessage::GameState { players, timestamp } => {
            assert_eq!(players.len(), 2);
            assert_eq!(*timestamp, 7);
        }
        other => panic!("wrong message: {:?}", other),
    }
}

#[test]
fn remove_client_logs_and_broadcasts_the_leave() {
    let mut g = two_client_game();
    let fx = g.remove_client(P1, Some(1));
    assert_eq!(g.get_client_count(), 1);
    assert_eq!(fx.db.len(), 1);
    assert!(matches!(fx.db[0], DbCall::LogEvent { kind: EventKind::Leave, .. }));
    assert_eq!(fx.deliveries.len(), 1);
    assert_eq!(fx.deliveries[0].to, P2);
    assert_eq!(fx.deliveries[0].message, GameMessage::PlayerLeave { player_id: P1 });

    // A duplicate removal is an idempotent no-op.
    let fx2 = g.remove_client(P1, Some(1));
    assert!(fx2.deliveries.is_empty() && fx2.db.is_empty());
    assert_eq!(g.get_client_count(), 1);
}

#[test]
fn own_move_updates_broadcasts_and_refreshes_the_snapshot() {
    let mut g = two_client_game();
    let x = 5.0f32.to_bits();
    let y = 5.0f32.to_bits();
    let fx = g.handle_message(
        P1,
        GameMessage::PlayerMove { player_id: P1, x_bits: x, y_bits: y },
        Some(1),
        0,
    );
    assert_eq!(g.clients[0].player.x_bits, x);
    assert_eq!(fx.db.len(), 2);
    assert!(matches!(fx.db[0], DbCall::UpdatePosition { .. }));
    assert!(matches!(fx.db[1], DbCall::LogEvent { kind: EventKind::Move, .. }));
    // The move goes to everyone but the mover, then the fresh snapshot to
    // everyone.
    assert_eq!(fx.deliveries.len(), 3);
    assert_eq!(fx.deliveries[0].to, P2);
    assert_eq!(fx.deliveries[1].to, P1);
    assert_eq!(fx.deliveries[2].to, P2);
    assert!(matches!(fx.deliveries[1].message, GameMessage::GameState { .. }));
}

#[test]
fn foreign_move_is_rejected_on_the_stream_path() {
    // P2's connection claims to move P1: neither position changes and nothing
    // is delivered.
    let mut g = two_client_game();
    let before = g.clients.clone();
    let fx = g.handle_message(
        P2,
        GameMessage::PlayerMove { player_id: P1, x_bits: 9, y_bits: 9 },
        Some(2),
        0,
    );
    assert_eq!(g.clients, before);
    assert!(fx.deliveries.is_empty() && fx.db.is_empty());
}

#[test]
fn stream_chat_reaches_everyone_including_the_sender() {
    let mut g = two_client_game();
    let fx = g.handle_message(
        P1,
        GameMessage::Chat { player_id: P1, message: b"hi".to_vec() },
        Some(1),
        0,
    );
    assert_eq!(fx.db.len(), 2);
    assert!(matches!(fx.db[0], DbCall::SaveChat { .. }));
    assert_eq!(fx.deliveries.len(), 2);
    assert_eq!(fx.deliveries[0].to, P1);
    assert_eq!(fx.deliveries[1].to, P2);
}

#[test]
fn foreign_chat_is_rejected_on_the_stream_path() {
    let mut g = two_client_game();
    let fx = g.handle_message(
        P2,
        GameMessage::Chat { player_id: P1, message: b"hi".to_vec() },
        Some(2),
        0,
    );
    assert!(fx.deliveries.is_empty() && fx.db.is_empty());
}

#[test]
fn stream_pickup_scores_and_stores() {
    let mut g = two_client_game();
    let fx = g.handle_message(
        P1,
        GameMessage::PlayerAction {
            player_id: P1,
            action: b"pickup".to_vec(),
            data: b"{}".to_vec(),
        },
        Some(1),
        0,
    );
    assert_eq!(g.clients[0].player.score, PICKUP_POINTS);
    assert_eq!(fx.db.len(), 2);
    assert_eq!(fx.db[0], DbCall::UpdateScore { player_id: P1, score: PICKUP_POINTS });
}

#[test]
fn broadcast_message_excludes_exactly_the_given_identity() {
    let g = two_client_game();
    let m = GameMessage::PlayerMove { player_id: P1, x_bits: 0, y_bits: 0 };
    let out = g.broadcast_message(&m, Some(P1));
    assert_eq!(out.len(), 1);
    assert_eq!(out[0].to, P2);
    let all = g.broadcast_message(&m, None);
    assert_eq!(all.len(), 2);
    let none = GameState::new().broadcast_message(&m, None);
    assert!(none.is_empty());
}

#[test]
fn snapshot_goes_only_to_a_registered_identity() {
    let g = two_client_game();
    assert_eq!(g.send_game_state_to_client(P1, 3_000).len(), 1);
    assert!(g.send_game_state_to_client(0x99, 3_000).is_empty());
    let gs = g.broadcast_game_state(3_000);
    assert_eq!(gs.len(), 2);
    assert!(GameState::new().broadcast_game_state(0).is_empty());
}

#[test]
fn other_stream_variants_are_ignored() {
    let mut g = two_client_game();
    let fx = g.handle_message(P1, GameMessage::Ack { sequence: 1 }, Some(1), 0);
    assert!(fx.deliveries.is_empty() && fx.db.is_empty());
    assert_eq!(g.get_client_count(), 2);
}

#[test]
fn stream_client_updates_its_snapshot() {
    let mut c = Client::new(P1, A1, b"one".to_vec());
    c.update_position(7, 8);
    c.update_health(42);
    c.add_score(3);
    assert_eq!(c.player.x_bits, 7);
    assert_eq!(c.player.y_bits, 8);
    assert_eq!(c.player.health_bits, 42);
    assert_eq!(c.player.score, 3);
}
