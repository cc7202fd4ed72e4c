use game_server::codec::DecodeError;
use game_server::message::{GameMessage, Player, UdpPacket, FULL_HEALTH_BITS};
use game_server::udp_server::default_name;

fn round_trip(p: &UdpPacket) -> UdpPacket {
    let bytes = p.serialize();
    UdpPacket::deserialize(&bytes).expect("a serialized envelope must decode")
}

#[test]
fn ack_round_trip_and_exact_bytes() {
    let p = UdpPacket::new(0, GameMessage::Ack { sequence: 7 }, false, 1);
    let bytes = p.serialize();
    // seq=0 (4B) | timestamp=1 (8B) | reliable=0 | tag=8 | sequence=7 (4B)
    assert_eq!(
        bytes,
        vec![0, 0, 0, 0, 1, 0, 0, 0, 0, 0, 0, 0, 0, 8, 7, 0, 0, 0]
    );
    assert_eq!(round_trip(&p), p);
}

#[test]
fn heartbeat_round_trip() {
    let p = UdpPacket::new(3, GameMessage::Heartbeat { player_id: 77, sequence: 9 }, true, 42);
    let q = round_trip(&p);
    assert_eq!(q.sequence, 3);
    assert_eq!(q.timestamp, 42);
    assert!(q.reliable);
    assert_eq!(q.message, GameMessage::Heartbeat { player_id: 77, sequence: 9 });
}

#[test]
fn join_round_trip() {
    let p = UdpPacket::new(
        1,
        GameMessage::PlayerJoin { player_id: u128::MAX, name: b"Zed".to_vec() },
        true,
        5,
    );
    assert_eq!(round_trip(&p), p);
}

#[test]
fn leave_round_trip() {
    let p = UdpPacket::new(2, GameMessage::PlayerLeave { player_id: 4 }, true, 5);
    assert_eq!(round_trip(&p), p);
}

#[test]
fn move_round_trip() {
    let x = 5.0f32.to_bits();
    let y = (-2.5f32).to_bits();
    let p = UdpPacket::new(
        9,
        GameMessage::PlayerMove { player_id: 11, x_bits: x, y_bits: y },
        false,
        100,
    );
    let q = round_trip(&p);
    match q.message {
        GameMessage::PlayerMove { player_id, x_bits, y_bits } => {
            assert_eq!(player_id, 11);
            assert_eq!(f32::from_bits(x_bits), 5.0);
            assert_eq!(f32::from_bits(y_bits), -2.5);
        }
        other => panic!("wrong variant: {:?}", other),
    }
}

#[test]
fn action_round_trip() {
    let p = UdpPacket::new(
        4,
        GameMessage::PlayerAction {
            player_id: 8,
            action: b"pickup".to_vec(),
            data: b"{}".to_vec(),
        },
        true,
        7,
    );
    assert_eq!(round_trip(&p), p);
}

#[test]
fn chat_round_trip() {
    let p = UdpPacket::new(
        6,
        GameMessage::Chat { player_id: 2, message: b"hi".to_vec() },
        true,
        0,
    );
    assert_eq!(round_trip(&p), p);
}

#[test]
fn error_round_trip() {
    let p = UdpPacket::new(0, GameMessage::Error { message: b"bad".to_vec() }, false, 0);
    assert_eq!(round_trip(&p), p);
}

#[test]
fn game_state_round_trip() {
    let players = vec![
        Player::new(1, b"Player_00000001".to_vec()),
        Player::new(2, b"Player_00000002".to_vec()),
    ];
    let p = UdpPacket::new(5, GameMessage::GameState { players, timestamp: 1234 }, true, 9);
    let q = round_trip(&p);
    match &q.message {
        GameMessage::GameState { players, timestamp } => {
            assert_eq!(*timestamp, 1234);
            assert_eq!(players.len(), 2);
            assert_eq!(players[0].id, 1);
            assert_eq!(players[1].id, 2);
            assert_eq!(players[0].health_bits, FULL_HEALTH_BITS);
        }
        other => panic!("wrong variant: {:?}", other),
    }
}

#[test]
fn empty_game_state_round_trip() {
    let p = UdpPacket::new(1, GameMessage::GameState { players: vec![], timestamp: 0 }, true, 0);
    assert_eq!(round_trip(&p), p);
}

#[test]
fn empty_input_is_rejected() {
    assert_eq!(UdpPacket::deserialize(&[]), Err(DecodeError));
}

#[test]
fn truncated_input_is_rejected() {
    let p = UdpPacket::new(0, GameMessage::Ack { sequence: 7 }, false, 1);
    let bytes = p.serialize();
    assert!(UdpPacket::deserialize(&bytes[..bytes.len() - 1]).is_err());
    assert!(UdpPacket::deserialize(&bytes[..4]).is_err());
}

#[test]
fn trailing_bytes_are_rejected() {
    let p = UdpPacket::new(0, GameMessage::Ack { sequence: 7 }, false, 1);
    let mut bytes = p.serialize();
    bytes.push(0);
    assert!(UdpPacket::deserialize(&bytes).is_err());
}

#[test]
fn bad_tag_is_rejected() {
    let p = UdpPacket::new(0, GameMessage::Ack { sequence: 7 }, false, 1);
    let mut bytes = p.serialize();
    bytes[13] = 9;
    assert!(UdpPacket::deserialize(&bytes).is_err());
}

#[test]
fn bad_reliability_flag_is_rejected() {
    let p = UdpPacket::new(0, GameMessage::Ack { sequence: 7 }, false, 1);
    let mut bytes = p.serialize();
    bytes[12] = 2;
    assert!(UdpPacket::deserialize(&bytes).is_err());
}

#[test]
fn overlong_length_prefix_is_rejected() {
    let p = UdpPacket::new(0, GameMessage::Chat { player_id: 1, message: b"hi".to_vec() }, true, 0);
    let mut bytes = p.serialize();
    // The chat text's length prefix sits after header (13) + tag (1) + id (16).
    bytes[30] = 200;
    assert!(UdpPacket::deserialize(&bytes).is_err());
}

#[test]
fn retransmission_is_byte_identical() {
    let p = UdpPacket::new(
        3,
        GameMessage::Chat { player_id: 5, message: b"hello".to_vec() },
        true,
        1000,
    );
    assert_eq!(p.serialize(), p.copy().serialize());
}

#[test]
fn default_name_is_hex_of_top_bits() {
    let id: u128 = 0xdeadbeef_u128 << 96;
    assert_eq!(default_name(id), b"Player_deadbeef".to_vec());
    assert_eq!(default_name(0), b"Player_00000000".to_vec());
    assert_eq!(default_name(u128::MAX), b"Player_ffffffff".to_vec());
}

#[test]
fn ordinary_envelopes_fit_the_wire_format() {
    let p = UdpPacket::new(1, GameMessage::Chat { player_id: 2, message: b"hi".to_vec() }, true, 0);
    assert!(p.fits_wire());
    let players = vec![Player::new(1, b"a".to_vec())];
    let gs = UdpPacket::new(2, GameMessage::GameState { players, timestamp: 0 }, true, 0);
    assert!(gs.fits_wire());
}
