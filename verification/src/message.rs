//! The message model: the closed set of messages the participants and the
//! server exchange, the player snapshot they carry, and the wire envelope of
//! the datagram transport.
//!
//! Identities are 128-bit values (the host derives them from its identifier
//! generator). Coordinates and health are carried as opaque 32-bit encodings:
//! the server never computes on them, it only stores and forwards them, so
//! the host may put any fixed-width encoding (in practice IEEE-754 single
//! precision) into these fields. Names and texts are carried as bytes.

use vstd::prelude::*;

verus! {

/// Opaque 32-bit encoding of a fresh player's health (the host reads it as
/// full health).
pub const FULL_HEALTH_BITS: u32 = 0x42C8_0000;

/// Snapshot of one player's shared state.
#[derive(Debug, Clone, PartialEq, Eq)]
pub struct Player {
    pub id: u128,
    pub name: Vec<u8>,
    pub x_bits: u32,
    pub y_bits: u32,
    pub health_bits: u32,
    pub score: u32,
}

/// Mathematical model of a `Player`.
pub struct PlayerView {
    pub id: u128,
    pub name: Seq<u8>,
    pub x_bits: u32,
    pub y_bits: u32,
    pub health_bits: u32,
    pub score: u32,
}

impl View for Player {
    type V = PlayerView;

    open spec fn view(&self) -> PlayerView {
        PlayerView {
            id: self.id,
            name: self.name@,
            x_bits: self.x_bits,
            y_bits: self.y_bits,
            health_bits: self.health_bits,
            score: self.score,
        }
    }
}

/// The model of a freshly created player: origin position, full health,
/// zero score.
pub open spec fn spec_new_player(id: u128, name: Seq<u8>) -> PlayerView {
    PlayerView { id, name, x_bits: 0, y_bits: 0, health_bits: FULL_HEALTH_BITS, score: 0 }
}

impl Player {
    pub fn new(id: u128, name: Vec<u8>) -> (p: Player)
        ensures
            p@ == spec_new_player(id, name@),
    {
        Player { id, name, x_bits: 0, y_bits: 0, health_bits: FULL_HEALTH_BITS, score: 0 }
    }
}

/// The closed set of messages exchanged between participants and the server.
#[derive(Debug, Clone, PartialEq, Eq)]
pub enum GameMessage {
    PlayerJoin { player_id: u128, name: Vec<u8> },
    PlayerLeave { player_id: u128 },
    PlayerMove { player_id: u128, x_bits: u32, y_bits: u32 },
    PlayerAction { player_id: u128, action: Vec<u8>, data: Vec<u8> },
    GameState { players: Vec<Player>, timestamp: u64 },
    Chat { player_id: u128, message: Vec<u8> },
    Error { message: Vec<u8> },
    Heartbeat { player_id: u128, sequence: u32 },
    Ack { sequence: u32 },
}

/// Mathematical model of a `GameMessage`.
pub enum MessageView {
    PlayerJoin { player_id: u128, name: Seq<u8> },
    PlayerLeave { player_id: u128 },
    PlayerMove { player_id: u128, x_bits: u32, y_bits: u32 },
    PlayerAction { player_id: u128, action: Seq<u8>, data: Seq<u8> },
    GameState { players: Seq<PlayerView>, timestamp: u64 },
    Chat { player_id: u128, message: Seq<u8> },
    Error { message: Seq<u8> },
    Heartbeat { player_id: u128, sequence: u32 },
    Ack { sequence: u32 },
}

/// The model of a list of players.
pub open spec fn players_view(ps: Seq<Player>) -> Seq<PlayerView> {
    ps.map_values(|p: Player| p@)
}

impl View for GameMessage {
    type V = MessageView;

    open spec fn view(&self) -> MessageView {
        match self {
            GameMessage::PlayerJoin { player_id, name } => MessageView::PlayerJoin {
                player_id: *player_id,
                name: name@,
            },
            GameMessage::PlayerLeave { player_id } => MessageView::PlayerLeave {
                player_id: *player_id,
            },
            GameMessage::PlayerMove { player_id, x_bits, y_bits } => MessageView::PlayerMove {
                player_id: *player_id,
                x_bits: *x_bits,
                y_bits: *y_bits,
            },
            GameMessage::PlayerAction { player_id, action, data } => MessageView::PlayerAction {
                player_id: *player_id,
                action: action@,
                data: data@,
            },
            GameMessage::GameState { players, timestamp } => MessageView::GameState {
                players: players_view(players@),
                timestamp: *timestamp,
            },
            GameMessage::Chat { player_id, message } => MessageView::Chat {
                player_id: *player_id,
                message: message@,
            },
            GameMessage::Error { message } => MessageView::Error { message: message@ },
            GameMessage::Heartbeat { player_id, sequence } => MessageView::Heartbeat {
                player_id: *player_id,
                sequence: *sequence,
            },
            GameMessage::Ack { sequence } => MessageView::Ack { sequence: *sequence },
        }
    }
}

/// Copies a byte string; the copy carries the same bytes.
pub fn copy_bytes(v: &Vec<u8>) -> (r: Vec<u8>)
    ensures
        r@ == v@,
{
    let mut r: Vec<u8> = Vec::new();
    let mut i: usize = 0;
    while i < v.len()
        invariant
            i <= v.len(),
            r@ == v@.take(i as int),
        decreases v.len() - i,
    {
        r.push(v[i]);
        i = i + 1;
    }
    assert(v@.take(v.len() as int) == v@);
    r
}

/// Copies a player snapshot; the copy has the same model.
pub fn copy_player(p: &Player) -> (r: Player)
    ensures
        r@ == p@,
{
    Player {
        id: p.id,
        name: copy_bytes(&p.name),
        x_bits: p.x_bits,
        y_bits: p.y_bits,
        health_bits: p.health_bits,
        score: p.score,
    }
}

/// Copies a list of players; the copy has the same model.
pub fn copy_players(ps: &Vec<Player>) -> (r: Vec<Player>)
    ensures
        players_view(r@) == players_view(ps@),
{
    let mut r: Vec<Player> = Vec::new();
    let mut i: usize = 0;
    while i < ps.len()
        invariant
            i <= ps.len(),
            players_view(r@) == players_view(ps@.take(i as int)),
        decreases ps.len() - i,
    {
        let ghost prev = r@;
        let cp = copy_player(&ps[i]);
        r.push(cp);
        proof {
            let s1 = players_view(r@);
            let s2 = players_view(ps@.take(i + 1));
            assert(prev.len() == i) by {
                assert(players_view(prev).len() == players_view(ps@.take(i as int)).len());
            }
            assert(s1.len() == i + 1);
            assert(s2.len() == i + 1);
            assert forall|j: int| 0 <= j < i + 1 implies s1[j] == s2[j] by {
                if j < i {
                    assert(players_view(prev)[j] == players_view(ps@.take(i as int))[j]);
                    assert(ps@.take(i as int)[j] == ps@.take(i + 1)[j]);
                } else {
                    assert(s1[j] == cp@);
                    assert(s2[j] == ps@[j]@);
                }
            }
            assert(s1 =~= s2);
        }
        i = i + 1;
    }
    assert(ps@.take(ps.len() as int) == ps@);
    r
}

/// Copies a message; the copy has the same model.
pub fn copy_message(m: &GameMessage) -> (r: GameMessage)
    ensures
        r@ == m@,
{
    match m {
        GameMessage::PlayerJoin { player_id, name } => GameMessage::PlayerJoin {
            player_id: *player_id,
            name: copy_bytes(name),
        },
        GameMessage::PlayerLeave { player_id } => GameMessage::PlayerLeave {
            player_id: *player_id,
        },
        GameMessage::PlayerMove { player_id, x_bits, y_bits } => GameMessage::PlayerMove {
            player_id: *player_id,
            x_bits: *x_bits,
            y_bits: *y_bits,
        },
        GameMessage::PlayerAction { player_id, action, data } => GameMessage::PlayerAction {
            player_id: *player_id,
            action: copy_bytes(action),
            data: copy_bytes(data),
        },
        GameMessage::GameState { players, timestamp } => GameMessage::GameState {
            players: copy_players(players),
            timestamp: *timestamp,
        },
        GameMessage::Chat { player_id, message } => GameMessage::Chat {
            player_id: *player_id,
            message: copy_bytes(message),
        },
        GameMessage::Error { message } => GameMessage::Error { message: copy_bytes(message) },
        GameMessage::Heartbeat { player_id, sequence } => GameMessage::Heartbeat {
            player_id: *player_id,
            sequence: *sequence,
        },
        GameMessage::Ack { sequence } => GameMessage::Ack { sequence: *sequence },
    }
}

/// The wire envelope of the datagram transport: the unit actually placed on
/// the wire. Sequence 0 marks an untracked (unreliable or control) send.
#[derive(Debug, Clone, PartialEq, Eq)]
pub struct UdpPacket {
    pub sequence: u32,
    pub timestamp: u64,
    pub message: GameMessage,
    pub reliable: bool,
}

/// Mathematical model of a `UdpPacket`.
pub struct PacketView {
    pub sequence: u32,
    pub timestamp: u64,
    pub message: MessageView,
    pub reliable: bool,
}

impl View for UdpPacket {
    type V = PacketView;

    open spec fn view(&self) -> PacketView {
        PacketView {
            sequence: self.sequence,
            timestamp: self.timestamp,
            message: self.message@,
            reliable: self.reliable,
        }
    }
}

impl UdpPacket {
    /// Wraps a message for the wire, stamped with the given send time
    /// (milliseconds; the host reads its clock).
    pub fn new(sequence: u32, message: GameMessage, reliable: bool, now_ms: u64) -> (p: UdpPacket)
        ensures
            p@ == (PacketView { sequence, timestamp: now_ms, message: message@, reliable }),
    {
        UdpPacket { sequence, timestamp: now_ms, message, reliable }
    }

    /// Copies an envelope; the copy has the same model (so a retransmission
    /// of the copy is byte-identical to the first transmission).
    pub fn copy(&self) -> (r: UdpPacket)
        ensures
            r@ == self@,
    {
        UdpPacket {
            sequence: self.sequence,
            timestamp: self.timestamp,
            message: copy_message(&self.message),
            reliable: self.reliable,
        }
    }
}

} // verus!
