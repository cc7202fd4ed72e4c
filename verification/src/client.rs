//! One stream-transport (ordered, reliable) connection: the transport itself
//! guarantees ordering and delivery, so a connection here carries no
//! reliability machinery — just its identity, endpoint and player snapshot.
//! The transport handle that actually writes frames lives in the host.

use vstd::prelude::*;

use crate::message::{spec_new_player, Player, PlayerView};

verus! {

/// One registered stream connection.
#[derive(Debug, Clone, PartialEq, Eq)]
pub struct Client {
    pub id: u128,
    pub addr: u64,
    pub player: Player,
}

/// Mathematical model of a `Client`.
pub struct StreamClientView {
    pub id: u128,
    pub addr: u64,
    pub player: PlayerView,
}

impl View for Client {
    type V = StreamClientView;

    open spec fn view(&self) -> StreamClientView {
        StreamClientView { id: self.id, addr: self.addr, player: self.player@ }
    }
}

impl Client {
    /// Registers a stream connection with a fresh player snapshot.
    pub fn new(id: u128, addr: u64, name: Vec<u8>) -> (c: Client)
        ensures
            c@ == (StreamClientView { id, addr, player: spec_new_player(id, name@) }),
    {
        Client { id, addr, player: Player::new(id, name) }
    }

    /// Applies a move: stores the new coordinates.
    pub fn update_position(&mut self, x_bits: u32, y_bits: u32)
        ensures
            final(self)@ == (StreamClientView {
                player: PlayerView { x_bits, y_bits, ..old(self)@.player },
                ..old(self)@
            }),
    {
        self.player.x_bits = x_bits;
        self.player.y_bits = y_bits;
    }

    /// Stores a new health encoding.
    pub fn update_health(&mut self, health_bits: u32)
        ensures
            final(self)@ == (StreamClientView {
                player: PlayerView { health_bits, ..old(self)@.player },
                ..old(self)@
            }),
    {
        self.player.health_bits = health_bits;
    }

    /// Grants points; the score saturates at the counter's maximum.
    pub fn add_score(&mut self, points: u32)
        ensures
            final(self)@ == (StreamClientView {
                player: PlayerView {
                    score: if old(self)@.player.score + points <= u32::MAX {
                        (old(self)@.player.score + points) as u32
                    } else {
                        u32::MAX
                    },
                    ..old(self)@.player
                },
                ..old(self)@
            }),
    {
        if points <= u32::MAX - self.player.score {
            self.player.score = self.player.score + points;
        } else {
            self.player.score = u32::MAX;
        }
    }
}

} // verus!
