//! Model of the calls the core makes into the durable-storage collaborator.
//!
//! The store itself is an external collaborator: the core only decides which
//! calls to make and in what order. Each dispatcher function returns the list
//! of calls as values; the host performs them best-effort (a storage failure
//! is logged and never rolls back the in-memory mutation that produced it).

use vstd::prelude::*;

use crate::message::{GameMessage, MessageView, Player, PlayerView};

verus! {

/// The kind of a logged player event.
#[derive(Debug, Clone, Copy, PartialEq, Eq, Structural)]
pub enum EventKind {
    Join,
    Leave,
    Move,
    Attack,
    Pickup,
    Chat,
}

/// One call into the durable store, as the core requests it.
#[derive(Debug, Clone, PartialEq, Eq)]
pub enum DbCall {
    CreateOrUpdatePlayer { player: Player },
    UpdatePosition { player_id: u128, x_bits: u32, y_bits: u32 },
    UpdateScore { player_id: u128, score: u32 },
    LogEvent {
        player_id: u128,
        session_id: Option<i64>,
        kind: EventKind,
        data: Option<GameMessage>,
    },
    SaveChat { player_id: u128, session_id: Option<i64>, message: Vec<u8> },
}

/// Mathematical model of a `DbCall`.
pub enum DbCallView {
    CreateOrUpdatePlayer { player: PlayerView },
    UpdatePosition { player_id: u128, x_bits: u32, y_bits: u32 },
    UpdateScore { player_id: u128, score: u32 },
    LogEvent {
        player_id: u128,
        session_id: Option<i64>,
        kind: EventKind,
        data: Option<MessageView>,
    },
    SaveChat { player_id: u128, session_id: Option<i64>, message: Seq<u8> },
}

impl View for DbCall {
    type V = DbCallView;

    open spec fn view(&self) -> DbCallView {
        match self {
            DbCall::CreateOrUpdatePlayer { player } => DbCallView::CreateOrUpdatePlayer {
                player: player@,
            },
            DbCall::UpdatePosition { player_id, x_bits, y_bits } => DbCallView::UpdatePosition {
                player_id: *player_id,
                x_bits: *x_bits,
                y_bits: *y_bits,
            },
            DbCall::UpdateScore { player_id, score } => DbCallView::UpdateScore {
                player_id: *player_id,
                score: *score,
            },
            DbCall::LogEvent { player_id, session_id, kind, data } => DbCallView::LogEvent {
                player_id: *player_id,
                session_id: *session_id,
                kind: *kind,
                data: match data {
                    Some(m) => Some(m@),
                    None => None,
                },
            },
            DbCall::SaveChat { player_id, session_id, message } => DbCallView::SaveChat {
                player_id: *player_id,
                session_id: *session_id,
                message: message@,
            },
        }
    }
}

/// The model of a list of store calls.
pub open spec fn db_calls_view(cs: Seq<DbCall>) -> Seq<DbCallView> {
    cs.map_values(|c: DbCall| c@)
}

} // verus!
