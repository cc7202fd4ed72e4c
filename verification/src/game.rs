//! The stream-transport core: the registry of stream connections and the
//! dispatcher that turns an inbound message into state mutations, store
//! calls and message deliveries.
//!
//! The stream transport is ordered and reliable by itself, so deliveries
//! here are plain (recipient, message) pairs: the host writes each one to
//! the recipient's frame sender and nothing is retried by the core.

use vstd::prelude::*;

use crate::client::{Client, StreamClientView};
use crate::message::{copy_bytes, copy_message, copy_player, players_view, GameMessage,
    MessageView, Player, PlayerView};
use crate::persist::{db_calls_view, DbCall, DbCallView, EventKind};
use crate::udp_server::{spec_action_attack, spec_action_pickup, action_attack, action_pickup,
    bytes_eq, PICKUP_POINTS};

verus! {

/// One message delivery: the recipient's identity and the message.
#[derive(Debug, Clone, PartialEq, Eq)]
pub struct Delivery {
    pub to: u128,
    pub message: GameMessage,
}

/// Mathematical model of a `Delivery`.
pub struct DeliveryView {
    pub to: u128,
    pub message: MessageView,
}

impl View for Delivery {
    type V = DeliveryView;

    open spec fn view(&self) -> DeliveryView {
        DeliveryView { to: self.to, message: self.message@ }
    }
}

/// The model of a list of deliveries.
pub open spec fn deliveries_view(s: Seq<Delivery>) -> Seq<DeliveryView> {
    s.map_values(|d: Delivery| d@)
}

/// Everything a stream dispatcher step decided to do beyond mutating the
/// registry: the deliveries, in order, and the durable-store calls.
pub struct StreamEffects {
    pub deliveries: Vec<Delivery>,
    pub db: Vec<DbCall>,
}

/// Mathematical model of a `StreamEffects`.
pub struct StreamEffectsView {
    pub deliveries: Seq<DeliveryView>,
    pub db: Seq<DbCallView>,
}

impl View for StreamEffects {
    type V = StreamEffectsView;

    open spec fn view(&self) -> StreamEffectsView {
        StreamEffectsView {
            deliveries: deliveries_view(self.deliveries@),
            db: db_calls_view(self.db@),
        }
    }
}

/// The model of stream effects that do nothing.
pub open spec fn no_stream_effects() -> StreamEffectsView {
    StreamEffectsView { deliveries: Seq::empty(), db: Seq::empty() }
}

/// The model of a stream registry.
pub open spec fn stream_clients_view(cs: Seq<Client>) -> Seq<StreamClientView> {
    cs.map_values(|c: Client| c@)
}

/// Well-formedness of the stream registry: identities are distinct.
pub open spec fn game_wf(cs: Seq<StreamClientView>) -> bool {
    forall|i: int, j: int|
        #![trigger cs[i].id, cs[j].id]
        0 <= i < j < cs.len() ==> cs[i].id != cs[j].id
}

/// Whether some stream connection carries this identity.
pub open spec fn g_has_id(cs: Seq<StreamClientView>, id: u128) -> bool {
    exists|i: int| 0 <= i < cs.len() && cs[i].id == id
}

/// The index of the stream connection with this identity (meaningful when
/// `g_has_id` holds; unique in a well-formed registry).
pub open spec fn g_id_idx(cs: Seq<StreamClientView>, id: u128) -> int {
    choose|i: int| 0 <= i < cs.len() && cs[i].id == id
}

/// The player snapshots of the stream registry, in registry order.
pub open spec fn g_players_of(cs: Seq<StreamClientView>) -> Seq<PlayerView> {
    cs.map_values(|c: StreamClientView| c.player)
}

/// Whether a stream connection is the excluded recipient of a broadcast.
pub open spec fn g_excluded(c: StreamClientView, exclude: Option<u128>) -> bool {
    match exclude {
        Some(id) => c.id == id,
        None => false,
    }
}

/// The deliveries of a stream broadcast: the message to every connection in
/// registry order, skipping the excluded identity.
pub open spec fn deliver_fanout(
    cs: Seq<StreamClientView>,
    m: MessageView,
    exclude: Option<u128>,
) -> Seq<DeliveryView>
    decreases cs.len(),
{
    if cs.len() == 0 {
        Seq::empty()
    } else {
        deliver_fanout(cs.drop_last(), m, exclude) + if g_excluded(cs.last(), exclude) {
            Seq::empty()
        } else {
            seq![DeliveryView { to: cs.last().id, message: m }]
        }
    }
}

/// The full state snapshot message at time `now` (the stamp is in seconds).
pub open spec fn spec_snapshot(cs: Seq<StreamClientView>, now: u64) -> MessageView {
    MessageView::GameState { players: g_players_of(cs), timestamp: now / 1000 }
}

/// The model of one stream dispatcher step.
pub struct StreamStep {
    pub clients: Seq<StreamClientView>,
    pub fx: StreamEffectsView,
}

/// A stream step that changes nothing and does nothing.
pub open spec fn no_stream_step(cs: Seq<StreamClientView>) -> StreamStep {
    StreamStep { clients: cs, fx: no_stream_effects() }
}

/// The step for registering a stream connection: the store is told to upsert
/// the player and log the join; the connection is registered (a connection
/// with the same identity, if any, is replaced); the join is delivered to
/// the newcomer itself, then broadcast to everyone else; finally the
/// newcomer gets the full state snapshot.
pub open spec fn spec_add_client(
    cs: Seq<StreamClientView>,
    c: StreamClientView,
    session_id: Option<i64>,
    now: u64,
) -> StreamStep {
    let cs2 = if g_has_id(cs, c.id) {
        cs.update(g_id_idx(cs, c.id), c)
    } else {
        cs.push(c)
    };
    let join = MessageView::PlayerJoin { player_id: c.id, name: c.player.name };
    StreamStep {
        clients: cs2,
        fx: StreamEffectsView {
            deliveries: seq![DeliveryView { to: c.id, message: join }] + deliver_fanout(
                cs2,
                join,
                Some(c.id),
            ) + seq![DeliveryView { to: c.id, message: spec_snapshot(cs2, now) }],
            db: seq![
                DbCallView::CreateOrUpdatePlayer { player: c.player },
                DbCallView::LogEvent {
                    player_id: c.id,
                    session_id,
                    kind: EventKind::Join,
                    data: None,
                },
            ],
        },
    }
}

/// The step for an explicit disconnect: if the identity is registered, the
/// connection is detached, the store is told to log the leave, and the leave
/// is broadcast to everyone still registered. A duplicate removal is an
/// idempotent no-op.
pub open spec fn spec_remove_client(
    cs: Seq<StreamClientView>,
    client_id: u128,
    session_id: Option<i64>,
) -> StreamStep {
    if g_has_id(cs, client_id) {
        let cs2 = cs.remove(g_id_idx(cs, client_id));
        StreamStep {
            clients: cs2,
            fx: StreamEffectsView {
                deliveries: deliver_fanout(
                    cs2,
                    MessageView::PlayerLeave { player_id: client_id },
                    None,
                ),
                db: seq![
                    DbCallView::LogEvent {
                        player_id: client_id,
                        session_id,
                        kind: EventKind::Leave,
                        data: None,
                    },
                ],
            },
        }
    } else {
        no_stream_step(cs)
    }
}

/// The step for an action on the stream path (the dispatcher has already
/// checked the identity): a recognized `attack` logs an attack event; a
/// recognized `pickup` by a registered connection grants points (saturating)
/// and tells the store; anything else is ignored.
pub open spec fn spec_handle_stream_action(
    cs: Seq<StreamClientView>,
    client_id: u128,
    action: Seq<u8>,
    session_id: Option<i64>,
) -> StreamStep {
    if action == spec_action_attack() {
        StreamStep {
            clients: cs,
            fx: StreamEffectsView {
                deliveries: Seq::empty(),
                db: seq![
                    DbCallView::LogEvent {
                        player_id: client_id,
                        session_id,
                        kind: EventKind::Attack,
                        data: None,
                    },
                ],
            },
        }
    } else if action == spec_action_pickup() {
        if g_has_id(cs, client_id) {
            let i = g_id_idx(cs, client_id);
            let ns = if cs[i].player.score + PICKUP_POINTS <= u32::MAX {
                (cs[i].player.score + PICKUP_POINTS) as u32
            } else {
                u32::MAX
            };
            StreamStep {
                clients: cs.update(
                    i,
                    StreamClientView { player: PlayerView { score: ns, ..cs[i].player }, ..cs[i] },
                ),
                fx: StreamEffectsView {
                    deliveries: Seq::empty(),
                    db: seq![
                        DbCallView::UpdateScore { player_id: client_id, score: ns },
                        DbCallView::LogEvent {
                            player_id: client_id,
                            session_id,
                            kind: EventKind::Pickup,
                            data: None,
                        },
                    ],
                },
            }
        } else {
            no_stream_step(cs)
        }
    } else {
        no_stream_step(cs)
    }
}

/// The step for one inbound stream message. A move with a matching identity
/// by a registered connection updates its position, tells the store, fans
/// the move out to everyone else and then broadcasts a fresh state snapshot
/// to everyone. An action with a matching identity is handled as above. A
/// chat with a matching identity is saved, logged and broadcast to everyone,
/// the sender included. A mismatched identity — or any other variant —
/// changes nothing at all.
pub open spec fn spec_handle_stream_message(
    cs: Seq<StreamClientView>,
    client_id: u128,
    m: MessageView,
    session_id: Option<i64>,
    now: u64,
) -> StreamStep {
    match m {
        MessageView::PlayerMove { player_id, x_bits, y_bits } => {
            if player_id == client_id && g_has_id(cs, client_id) {
                let i = g_id_idx(cs, client_id);
                let cs2 = cs.update(
                    i,
                    StreamClientView {
                        player: PlayerView { x_bits, y_bits, ..cs[i].player },
                        ..cs[i]
                    },
                );
                let mv = MessageView::PlayerMove { player_id, x_bits, y_bits };
                StreamStep {
                    clients: cs2,
                    fx: StreamEffectsView {
                        deliveries: deliver_fanout(cs2, mv, Some(client_id)) + (
                        if cs2.len() > 0 {
                            deliver_fanout(cs2, spec_snapshot(cs2, now), None)
                        } else {
                            Seq::empty()
                        }),
                        db: seq![
                            DbCallView::UpdatePosition { player_id, x_bits, y_bits },
                            DbCallView::LogEvent {
                                player_id,
                                session_id,
                                kind: EventKind::Move,
                                data: Some(mv),
                            },
                        ],
                    },
                }
            } else {
                no_stream_step(cs)
            }
        },
        MessageView::PlayerAction { player_id, action, data: _ } => {
            if player_id == client_id {
                spec_handle_stream_action(cs, client_id, action, session_id)
            } else {
                no_stream_step(cs)
            }
        },
        MessageView::Chat { player_id, message } => {
            if player_id == client_id {
                let chat = MessageView::Chat { player_id, message };
                StreamStep {
                    clients: cs,
                    fx: StreamEffectsView {
                        deliveries: deliver_fanout(cs, chat, None),
                        db: seq![
                            DbCallView::SaveChat { player_id, session_id, message },
                            DbCallView::LogEvent {
                                player_id,
                                session_id,
                                kind: EventKind::Chat,
                                data: Some(chat),
                            },
                        ],
                    },
                }
            } else {
                no_stream_step(cs)
            }
        },
        _ => no_stream_step(cs),
    }
}

/// In a well-formed stream registry the index of an identity is unique.
pub proof fn lemma_g_id_idx_unique(cs: Seq<StreamClientView>, id: u128, i: int)
    requires
        game_wf(cs),
        0 <= i < cs.len(),
        cs[i].id == id,
    ensures
        g_has_id(cs, id),
        g_id_idx(cs, id) == i,
{
    assert(g_has_id(cs, id));
    let j = g_id_idx(cs, id);
    if i != j {
        assert(cs[i].id != cs[j].id);
    }
}

/// A stream broadcast delivers to every registered connection except the
/// excluded identity, and to no one else; an empty registry gets nothing.
pub proof fn lemma_deliver_coverage(cs: Seq<StreamClientView>, m: MessageView, exclude: Option<
    u128,
>)
    ensures
        cs.len() == 0 ==> deliver_fanout(cs, m, exclude) == Seq::<DeliveryView>::empty(),
        forall|j: int|
            0 <= j < cs.len() && !g_excluded(#[trigger] cs[j], exclude) ==> deliver_fanout(
                cs,
                m,
                exclude,
            ).contains((DeliveryView { to: cs[j].id, message: m })),
        forall|k: int|
            0 <= k < deliver_fanout(cs, m, exclude).len() ==> exists|j: int|
                0 <= j < cs.len() && !g_excluded(cs[j], exclude) && #[trigger] deliver_fanout(
                    cs,
                    m,
                    exclude,
                )[k] == (DeliveryView { to: cs[j].id, message: m }),
    decreases cs.len(),
{
    if cs.len() > 0 {
        let pre = cs.drop_last();
        lemma_deliver_coverage(pre, m, exclude);
        let df = deliver_fanout(cs, m, exclude);
        let dp = deliver_fanout(pre, m, exclude);
        assert forall|j: int|
            0 <= j < cs.len() && !g_excluded(#[trigger] cs[j], exclude) implies df.contains(
            (DeliveryView { to: cs[j].id, message: m }),
        ) by {
            if j < cs.len() - 1 {
                assert(pre[j] == cs[j]);
                let x = choose|x: int|
                    0 <= x < dp.len() && dp[x] == (DeliveryView { to: pre[j].id, message: m });
                assert(df[x] == (DeliveryView { to: cs[j].id, message: m }));
            } else {
                assert(df[df.len() - 1] == (DeliveryView { to: cs[j].id, message: m }));
            }
        }
        assert forall|k: int| 0 <= k < df.len() implies exists|j: int|
            0 <= j < cs.len() && !g_excluded(cs[j], exclude) && #[trigger] df[k] == (DeliveryView {
                to: cs[j].id,
                message: m,
            }) by {
            if k < dp.len() {
                assert(df[k] == dp[k]);
                let j = choose|j: int|
                    0 <= j < pre.len() && !g_excluded(pre[j], exclude) && dp[k] == (DeliveryView {
                        to: pre[j].id,
                        message: m,
                    });
                assert(df[k] == (DeliveryView { to: cs[j].id, message: m }) && !g_excluded(
                    cs[j],
                    exclude,
                ));
            } else {
                assert(df[k] == (DeliveryView { to: cs[cs.len() - 1].id, message: m }));
            }
        }
    }
}

/// The stream registry and dispatcher.
pub struct GameState {
    pub clients: Vec<Client>,
}

impl View for GameState {
    type V = Seq<StreamClientView>;

    open spec fn view(&self) -> Seq<StreamClientView> {
        stream_clients_view(self.clients@)
    }
}

impl GameState {
    /// An empty stream registry.
    pub fn new() -> (g: GameState)
        ensures
            g@ == Seq::<StreamClientView>::empty(),
            game_wf(g@),
    {
        let g = GameState { clients: Vec::new() };
        proof {
            assert(g@ =~= Seq::<StreamClientView>::empty());
        }
        g
    }

    /// The number of registered stream connections.
    pub fn get_client_count(&self) -> (n: usize)
        ensures
            n == self@.len(),
    {
        self.clients.len()
    }

    /// Whether a stream connection carries this identity.
    pub fn contains_id(&self, id: u128) -> (r: bool)
        ensures
            r == g_has_id(self@, id),
    {
        let mut i: usize = 0;
        while i < self.clients.len()
            invariant
                i <= self@.len(),
                forall|j: int| 0 <= j < i ==> self@[j].id != id,
            decreases self@.len() - i,
        {
            if self.clients[i].id == id {
                proof {
                    assert(self@[i as int].id == id);
                }
                return true;
            }
            i = i + 1;
        }
        false
    }

    /// Looks an identity up in the stream registry.
    fn find_by_id(&self, id: u128) -> (r: Option<usize>)
        ensures
            match r {
                Some(i) => i < self@.len() && self@[i as int].id == id,
                None => !g_has_id(self@, id),
            },
    {
        let mut i: usize = 0;
        while i < self.clients.len()
            invariant
                i <= self@.len(),
                forall|j: int| 0 <= j < i ==> self@[j].id != id,
            decreases self@.len() - i,
        {
            if self.clients[i].id == id {
                return Some(i);
            }
            i = i + 1;
        }
        None
    }

    /// A point-in-time copy of every registered player snapshot.
    pub fn collect_players(&self) -> (ps: Vec<Player>)
        ensures
            players_view(ps@) == g_players_of(self@),
    {
        let mut ps: Vec<Player> = Vec::new();
        let mut i: usize = 0;
        while i < self.clients.len()
            invariant
                i <= self@.len(),
                players_view(ps@) == g_players_of(self@.take(i as int)),
            decreases self@.len() - i,
        {
            let ghost prev = players_view(ps@);
            let p = copy_player(&self.clients[i].player);
            ps.push(p);
            proof {
                assert forall|j: int| 0 <= j < i + 1 implies prev.push(p@)[j] == g_players_of(
                    self@.take(i + 1),
                )[j] by {
                    if j < i {
                        assert(prev[j] == g_players_of(self@.take(i as int))[j]);
                    }
                }
                assert(players_view(ps@) =~= prev.push(p@));
                assert(players_view(ps@) =~= g_players_of(self@.take(i + 1)));
            }
            i = i + 1;
        }
        proof {
            assert(self@.take(self@.len() as int) == self@);
        }
        ps
    }

    /// A stream broadcast: delivers the message to every registered
    /// connection except the excluded identity; to no one if the registry is
    /// empty. The registry does not change.
    pub fn broadcast_message(&self, message: &GameMessage, exclude: Option<u128>) -> (out: Vec<
        Delivery,
    >)
        ensures
            deliveries_view(out@) == deliver_fanout(self@, message@, exclude),
    {
        let mut out: Vec<Delivery> = Vec::new();
        let mut i: usize = 0;
        while i < self.clients.len()
            invariant
                i <= self@.len(),
                deliveries_view(out@) == deliver_fanout(self@.take(i as int), message@, exclude),
            decreases self@.len() - i,
        {
            proof {
                assert(self@.take(i + 1).drop_last() =~= self@.take(i as int));
            }
            let c = &self.clients[i];
            let skip = match exclude {
                Some(id) => c.id == id,
                None => false,
            };
            if !skip {
                let ghost prev = deliveries_view(out@);
                let d = Delivery { to: c.id, message: copy_message(message) };
                out.push(d);
                proof {
                    assert(deliveries_view(out@) =~= prev.push(d@));
                }
            }
            i = i + 1;
        }
        proof {
            assert(self@.take(self@.len() as int) == self@);
        }
        out
    }

    /// Delivers the full state snapshot to one registered connection; an
    /// unknown identity gets nothing. The registry does not change.
    pub fn send_game_state_to_client(&self, client_id: u128, now: u64) -> (out: Vec<Delivery>)
        ensures
            deliveries_view(out@) == if g_has_id(self@, client_id) {
                seq![DeliveryView { to: client_id, message: spec_snapshot(self@, now) }]
            } else {
                Seq::<DeliveryView>::empty()
            },
    {
        let mut out: Vec<Delivery> = Vec::new();
        if self.contains_id(client_id) {
            let players = self.collect_players();
            let snap = GameMessage::GameState { players, timestamp: now / 1000 };
            out.push(Delivery { to: client_id, message: snap });
        }
        proof {
            if g_has_id(self@, client_id) {
                assert(deliveries_view(out@) =~= seq![
                    DeliveryView { to: client_id, message: spec_snapshot(self@, now) },
                ]);
            } else {
                assert(deliveries_view(out@) =~= Seq::<DeliveryView>::empty());
            }
        }
        out
    }

    /// Broadcasts the full state snapshot to everyone; nothing goes out of
    /// an empty registry. The registry does not change.
    pub fn broadcast_game_state(&self, now: u64) -> (out: Vec<Delivery>)
        ensures
            deliveries_view(out@) == if self@.len() > 0 {
                deliver_fanout(self@, spec_snapshot(self@, now), None)
            } else {
                Seq::<DeliveryView>::empty()
            },
    {
        let mut out: Vec<Delivery> = Vec::new();
        if self.clients.len() > 0 {
            let players = self.collect_players();
            let snap = GameMessage::GameState { players, timestamp: now / 1000 };
            let mut bs = self.broadcast_message(&snap, None);
            out.append(&mut bs);
            proof {
                assert(deliveries_view(out@) =~= deliver_fanout(
                    self@,
                    spec_snapshot(self@, now),
                    None,
                ));
            }
        } else {
            proof {
                assert(deliveries_view(out@) =~= Seq::<DeliveryView>::empty());
            }
        }
        out
    }

    /// Registers a stream connection (see `spec_add_client`): store calls,
    /// registration (replacing a same-identity entry), the join delivered to
    /// the newcomer and broadcast to everyone else, and the snapshot to the
    /// newcomer.
    pub fn add_client(&mut self, client: Client, session_id: Option<i64>, now: u64) -> (fx:
        StreamEffects)
        requires
            game_wf(old(self)@),
        ensures
            final(self)@ == spec_add_client(old(self)@, client@, session_id, now).clients,
            fx@ == spec_add_client(old(self)@, client@, session_id, now).fx,
            game_wf(final(self)@),
    {
        let ghost pre = self@;
        let ghost cv = client@;
        let cid = client.id;
        let mut db: Vec<DbCall> = Vec::new();
        let mut deliveries: Vec<Delivery> = Vec::new();
        db.push(DbCall::CreateOrUpdatePlayer { player: copy_player(&client.player) });
        db.push(
            DbCall::LogEvent { player_id: cid, session_id, kind: EventKind::Join, data: None },
        );
        let join = GameMessage::PlayerJoin {
            player_id: cid,
            name: copy_bytes(&client.player.name),
        };
        match self.find_by_id(cid) {
            Some(i) => {
                proof {
                    lemma_g_id_idx_unique(pre, cid, i as int);
                }
                let slot = &mut self.clients[i];
                *slot = client;
                proof {
                    assert(self@ =~= pre.update(i as int, cv));
                }
            },
            None => {
                self.clients.push(client);
                proof {
                    assert(self@ =~= pre.push(cv));
                }
            },
        }
        proof {
            assert(game_wf(self@)) by {
                let cs2 = self@;
                assert forall|k1: int, k2: int|
                    #![trigger cs2[k1].id, cs2[k2].id]
                    0 <= k1 < k2 < cs2.len() implies cs2[k1].id != cs2[k2].id by {
                    if k2 < pre.len() {
                        if cs2[k1].id == cs2[k2].id {
                            if cs2[k1] == pre[k1] && cs2[k2] == pre[k2] {
                                assert(pre[k1].id != pre[k2].id);
                            }
                        }
                    } else {
                        assert(cs2[k1] == pre[k1]);
                        if pre[k1].id == cv.id {
                            assert(g_has_id(pre, cv.id));
                            lemma_g_id_idx_unique(pre, cv.id, k1);
                        }
                    }
                }
            }
        }
        deliveries.push(Delivery { to: cid, message: copy_message(&join) });
        let mut bs = self.broadcast_message(&join, Some(cid));
        deliveries.append(&mut bs);
        let mut st = self.send_game_state_to_client(cid, now);
        deliveries.append(&mut st);
        proof {
            assert(g_has_id(self@, cid)) by {
                if g_has_id(pre, cid) {
                    assert(self@[g_id_idx(pre, cid)].id == cid);
                } else {
                    assert(self@[pre.len() as int].id == cid);
                }
            }
        }
        let fx = StreamEffects { deliveries, db };
        proof {
            let goal = spec_add_client(pre, cv, session_id, now);
            assert(fx@.deliveries =~= goal.fx.deliveries);
            assert(fx@.db =~= goal.fx.db);
        }
        fx
    }

    /// Detaches a stream connection on explicit disconnect (see
    /// `spec_remove_client`): logs the leave and broadcasts it to everyone
    /// still registered. A duplicate removal is an idempotent no-op.
    pub fn remove_client(&mut self, client_id: u128, session_id: Option<i64>) -> (fx:
        StreamEffects)
        requires
            game_wf(old(self)@),
        ensures
            final(self)@ == spec_remove_client(old(self)@, client_id, session_id).clients,
            fx@ == spec_remove_client(old(self)@, client_id, session_id).fx,
            game_wf(final(self)@),
    {
        let ghost pre = self@;
        let mut db: Vec<DbCall> = Vec::new();
        let mut deliveries: Vec<Delivery> = Vec::new();
        match self.find_by_id(client_id) {
            Some(i) => {
                proof {
                    lemma_g_id_idx_unique(pre, client_id, i as int);
                }
                self.clients.remove(i);
                proof {
                    assert(self@ =~= pre.remove(i as int));
                    pre.remove_ensures(i as int);
                    assert(game_wf(self@)) by {
                        let cs2 = self@;
                        assert forall|k1: int, k2: int|
                            #![trigger cs2[k1].id, cs2[k2].id]
                            0 <= k1 < k2 < cs2.len() implies cs2[k1].id != cs2[k2].id by {
                            let j1: int = if k1 < i { k1 } else { k1 + 1 };
                            let j2: int = if k2 < i { k2 } else { k2 + 1 };
                            assert(cs2[k1] == pre[j1] && cs2[k2] == pre[j2]);
                            assert(pre[j1].id != pre[j2].id);
                        }
                    }
                }
                db.push(
                    DbCall::LogEvent {
                        player_id: client_id,
                        session_id,
                        kind: EventKind::Leave,
                        data: None,
                    },
                );
                let leave = GameMessage::PlayerLeave { player_id: client_id };
                let mut bs = self.broadcast_message(&leave, None);
                deliveries.append(&mut bs);
            },
            None => {},
        }
        let fx = StreamEffects { deliveries, db };
        proof {
            let goal = spec_remove_client(pre, client_id, session_id);
            assert(fx@.deliveries =~= goal.fx.deliveries);
            assert(fx@.db =~= goal.fx.db);
        }
        fx
    }

    /// Handles an action on the stream path (see
    /// `spec_handle_stream_action`); the caller has checked the identity.
    fn handle_player_action(
        &mut self,
        client_id: u128,
        action: &Vec<u8>,
        session_id: Option<i64>,
    ) -> (fx: StreamEffects)
        requires
            game_wf(old(self)@),
        ensures
            final(self)@ == spec_handle_stream_action(
                old(self)@,
                client_id,
                action@,
                session_id,
            ).clients,
            fx@ == spec_handle_stream_action(old(self)@, client_id, action@, session_id).fx,
            game_wf(final(self)@),
    {
        let ghost pre = self@;
        let mut db: Vec<DbCall> = Vec::new();
        let attack = action_attack();
        let pickup = action_pickup();
        if bytes_eq(action, &attack) {
            db.push(
                DbCall::LogEvent {
                    player_id: client_id,
                    session_id,
                    kind: EventKind::Attack,
                    data: None,
                },
            );
        } else if bytes_eq(action, &pickup) {
            match self.find_by_id(client_id) {
                Some(i) => {
                    let ghost cpre = pre[i as int];
                    proof {
                        lemma_g_id_idx_unique(pre, client_id, i as int);
                    }
                    let c = &mut self.clients[i];
                    c.add_score(PICKUP_POINTS);
                    let new_score = self.clients[i].player.score;
                    proof {
                        let upd = StreamClientView {
                            player: PlayerView { score: new_score, ..cpre.player },
                            ..cpre
                        };
                        assert(self@[i as int] == upd);
                        assert(self@ =~= pre.update(i as int, upd));
                        assert forall|k1: int, k2: int|
                            #![trigger self@[k1].id, self@[k2].id]
                            0 <= k1 < k2 < self@.len() implies self@[k1].id != self@[k2].id by {
                            assert(pre[k1].id != pre[k2].id);
                        }
                    }
                    db.push(DbCall::UpdateScore { player_id: client_id, score: new_score });
                    db.push(
                        DbCall::LogEvent {
                            player_id: client_id,
                            session_id,
                            kind: EventKind::Pickup,
                            data: None,
                        },
                    );
                },
                None => {},
            }
        }
        let fx = StreamEffects { deliveries: Vec::new(), db };
        proof {
            let goal = spec_handle_stream_action(pre, client_id, action@, session_id);
            assert(fx@.deliveries =~= goal.fx.deliveries);
            assert(fx@.db =~= goal.fx.db);
        }
        fx
    }

    /// Dispatches one inbound stream message (see
    /// `spec_handle_stream_message`): moves, actions and chats with a
    /// matching identity act; everything else changes nothing.
    pub fn handle_message(
        &mut self,
        client_id: u128,
        message: GameMessage,
        session_id: Option<i64>,
        now: u64,
    ) -> (fx: StreamEffects)
        requires
            game_wf(old(self)@),
        ensures
            final(self)@ == spec_handle_stream_message(
                old(self)@,
                client_id,
                message@,
                session_id,
                now,
            ).clients,
            fx@ == spec_handle_stream_message(old(self)@, client_id, message@, session_id, now).fx,
            game_wf(final(self)@),
    {
        let ghost pre = self@;
        let ghost m0 = message@;
        match message {
            GameMessage::PlayerMove { player_id, x_bits, y_bits } => {
                let mut db: Vec<DbCall> = Vec::new();
                let mut deliveries: Vec<Delivery> = Vec::new();
                if player_id == client_id {
                    match self.find_by_id(client_id) {
                        Some(i) => {
                            let ghost cpre = pre[i as int];
                            proof {
                                lemma_g_id_idx_unique(pre, client_id, i as int);
                            }
                            let c = &mut self.clients[i];
                            c.update_position(x_bits, y_bits);
                            proof {
                                let upd = StreamClientView {
                                    player: PlayerView { x_bits, y_bits, ..cpre.player },
                                    ..cpre
                                };
                                assert(c@ == upd);
                                assert(self@ =~= pre.update(i as int, upd));
                                assert forall|k1: int, k2: int|
                                    #![trigger self@[k1].id, self@[k2].id]
                                    0 <= k1 < k2 < self@.len() implies self@[k1].id
                                    != self@[k2].id by {
                                    assert(pre[k1].id != pre[k2].id);
                                }
                            }
                            let mv = GameMessage::PlayerMove { player_id, x_bits, y_bits };
                            db.push(DbCall::UpdatePosition { player_id, x_bits, y_bits });
                            db.push(
                                DbCall::LogEvent {
                                    player_id,
                                    session_id,
                                    kind: EventKind::Move,
                                    data: Some(copy_message(&mv)),
                                },
                            );
                            let mut bs = self.broadcast_message(&mv, Some(client_id));
                            deliveries.append(&mut bs);
                            let mut gs = self.broadcast_game_state(now);
                            deliveries.append(&mut gs);
                        },
                        None => {},
                    }
                }
                let fx = StreamEffects { deliveries, db };
                proof {
                    let goal = spec_handle_stream_message(pre, client_id, m0, session_id, now);
                    assert(fx@.deliveries =~= goal.fx.deliveries);
                    assert(fx@.db =~= goal.fx.db);
                }
                fx
            },
            GameMessage::PlayerAction { player_id, action, data: _ } => {
                if player_id == client_id {
                    self.handle_player_action(client_id, &action, session_id)
                } else {
                    let fx = StreamEffects { deliveries: Vec::new(), db: Vec::new() };
                    proof {
                        assert(fx@.deliveries =~= no_stream_effects().deliveries);
                        assert(fx@.db =~= no_stream_effects().db);
                    }
                    fx
                }
            },
            GameMessage::Chat { player_id, message: text } => {
                let mut db: Vec<DbCall> = Vec::new();
                let mut deliveries: Vec<Delivery> = Vec::new();
                if player_id == client_id {
                    db.push(
                        DbCall::SaveChat {
                            player_id,
                            session_id,
                            message: copy_bytes(&text),
                        },
                    );
                    let chat = GameMessage::Chat { player_id, message: text };
                    db.push(
                        DbCall::LogEvent {
                            player_id,
                            session_id,
                            kind: EventKind::Chat,
                            data: Some(copy_message(&chat)),
                        },
                    );
                    let mut bs = self.broadcast_message(&chat, None);
                    deliveries.append(&mut bs);
                }
                let fx = StreamEffects { deliveries, db };
                proof {
                    let goal = spec_handle_stream_message(pre, client_id, m0, session_id, now);
                    assert(fx@.deliveries =~= goal.fx.deliveries);
                    assert(fx@.db =~= goal.fx.db);
                }
                fx
            },
            _ => {
                let fx = StreamEffects { deliveries: Vec::new(), db: Vec::new() };
                proof {
                    assert(fx@.deliveries =~= no_stream_effects().deliveries);
                    assert(fx@.db =~= no_stream_effects().db);
                }
                fx
            },
        }
    }
}

} // verus!
