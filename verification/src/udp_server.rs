//! The datagram-transport core: per-connection reliability state, the
//! connection registry, the periodic sweeps and the message dispatcher.
//!
//! Endpoints are opaque 64-bit handles (the host keeps the mapping to real
//! network addresses); times are milliseconds on the host's clock, handed in
//! as arguments. Every dispatcher function returns the outbound envelopes and
//! the durable-store calls it decided on; the host performs them.

use vstd::prelude::*;

use crate::message::{
    copy_bytes, copy_message, copy_player, players_view, spec_new_player, GameMessage,
    MessageView, PacketView, Player, PlayerView, UdpPacket,
};
use crate::persist::{db_calls_view, DbCall, DbCallView, EventKind};

verus! {

/// A connection with no activity for longer than this is evicted by the
/// timeout sweep (milliseconds).
pub const TIMEOUT_MS: u64 = 30_000;

/// A pending acknowledgement older than this is retransmitted by the
/// retransmit sweep (milliseconds).
pub const RETRY_MS: u64 = 100;

/// Period of the server-initiated keep-alive heartbeat (milliseconds).
pub const HEARTBEAT_PERIOD_MS: u64 = 5_000;

/// Period of the timeout sweep (milliseconds).
pub const TIMEOUT_SWEEP_PERIOD_MS: u64 = 10_000;

/// Period of the retransmit sweep (milliseconds).
pub const RETRY_SWEEP_PERIOD_MS: u64 = 100;

/// Points granted by a recognized pickup action.
pub const PICKUP_POINTS: u32 = 10;

/// Only every Nth move (by inbound sequence number) is logged to the store,
/// to bound persistence load on the datagram path.
pub const MOVE_LOG_SAMPLE: u32 = 10;

/// One not-yet-acknowledged reliable send: the exact envelope that went out
/// and the time of its last (re)transmission.
#[derive(Debug, Clone, PartialEq, Eq)]
pub struct PendingAck {
    pub sequence: u32,
    pub packet: UdpPacket,
    pub sent_at: u64,
}

/// Mathematical model of a `PendingAck`.
pub struct PendingAckView {
    pub sequence: u32,
    pub packet: PacketView,
    pub sent_at: u64,
}

impl View for PendingAck {
    type V = PendingAckView;

    open spec fn view(&self) -> PendingAckView {
        PendingAckView { sequence: self.sequence, packet: self.packet@, sent_at: self.sent_at }
    }
}

/// The model of a pending-acknowledgement table.
pub open spec fn pending_view(s: Seq<PendingAck>) -> Seq<PendingAckView> {
    s.map_values(|e: PendingAck| e@)
}

/// One registered datagram connection: identity, endpoint, player snapshot,
/// last-activity time, outbound sequence counter, inbound ack cursor and the
/// pending-acknowledgement table.
#[derive(Debug, Clone, PartialEq, Eq)]
pub struct UdpClient {
    pub id: u128,
    pub addr: u64,
    pub player: Player,
    pub last_seen: u64,
    pub sequence: u32,
    pub ack_sequence: u32,
    pub pending_acks: Vec<PendingAck>,
    pub session_id: Option<i64>,
}

/// Mathematical model of a `UdpClient`.
pub struct ClientView {
    pub id: u128,
    pub addr: u64,
    pub player: PlayerView,
    pub last_seen: u64,
    pub sequence: u32,
    pub ack_sequence: u32,
    pub pending: Seq<PendingAckView>,
    pub session_id: Option<i64>,
}

impl View for UdpClient {
    type V = ClientView;

    open spec fn view(&self) -> ClientView {
        ClientView {
            id: self.id,
            addr: self.addr,
            player: self.player@,
            last_seen: self.last_seen,
            sequence: self.sequence,
            ack_sequence: self.ack_sequence,
            pending: pending_view(self.pending_acks@),
            session_id: self.session_id,
        }
    }
}

impl ClientView {
    /// Well-formedness of one connection: no sequence number appears twice
    /// in the pending table, every pending sequence number was assigned by
    /// the counter (so it is positive and at most the counter), and every
    /// stored envelope carries its own sequence number and the reliable flag.
    pub open spec fn wf(self) -> bool {
        &&& forall|i: int, j: int|
            #![trigger self.pending[i].sequence, self.pending[j].sequence]
            0 <= i < j < self.pending.len() ==> self.pending[i].sequence
                != self.pending[j].sequence
        &&& forall|i: int|
            0 <= i < self.pending.len() ==> 0 < #[trigger] self.pending[i].sequence
                <= self.sequence
        &&& forall|i: int|
            0 <= i < self.pending.len() ==> (#[trigger] self.pending[i].packet.sequence
                == self.pending[i].sequence && self.pending[i].packet.reliable)
    }

    /// Whether the pending table holds an entry for this sequence number.
    pub open spec fn has_pending(self, sequence: u32) -> bool {
        exists|i: int| 0 <= i < self.pending.len() && self.pending[i].sequence == sequence
    }

    /// The index of the pending entry for this sequence number (meaningful
    /// when `has_pending` holds; unique in a well-formed connection).
    pub open spec fn pending_idx(self, sequence: u32) -> int {
        choose|i: int| 0 <= i < self.pending.len() && self.pending[i].sequence == sequence
    }
}

/// The model of a freshly registered connection: a fresh player snapshot,
/// last activity now, counter at zero, no cursor, nothing pending.
pub open spec fn spec_new_client(
    id: u128,
    addr: u64,
    name: Seq<u8>,
    session_id: Option<i64>,
    now: u64,
) -> ClientView {
    ClientView {
        id,
        addr,
        player: spec_new_player(id, name),
        last_seen: now,
        sequence: 0,
        ack_sequence: 0,
        pending: Seq::empty(),
        session_id,
    }
}

/// Whether a connection has been silent for longer than the timeout
/// threshold at time `now`.
pub open spec fn spec_timed_out(c: ClientView, now: u64) -> bool {
    c.last_seen + TIMEOUT_MS < now
}

/// Whether a pending entry is older than the retry threshold at time `now`.
pub open spec fn spec_ack_due(e: PendingAckView, now: u64) -> bool {
    e.sent_at + RETRY_MS < now
}

/// The pending table after a sweep at time `now`: every due entry keeps its
/// envelope and gets its timestamp refreshed; the others are untouched.
pub open spec fn refreshed_pending(p: Seq<PendingAckView>, now: u64) -> Seq<PendingAckView> {
    p.map_values(
        |e: PendingAckView|
            if spec_ack_due(e, now) {
                PendingAckView { sent_at: now, ..e }
            } else {
                e
            },
    )
}

/// The envelopes a sweep at time `now` retransmits, in table order: exactly
/// the stored envelopes of the due entries, unchanged.
pub open spec fn due_packets(p: Seq<PendingAckView>, now: u64) -> Seq<PacketView>
    decreases p.len(),
{
    if p.len() == 0 {
        Seq::empty()
    } else {
        due_packets(p.drop_last(), now) + if spec_ack_due(p.last(), now) {
            seq![p.last().packet]
        } else {
            Seq::empty()
        }
    }
}

/// The model of a list of envelopes.
pub open spec fn packets_view(s: Seq<UdpPacket>) -> Seq<PacketView> {
    s.map_values(|p: UdpPacket| p@)
}

impl UdpClient {
    /// Registers first contact: a fresh connection with a fresh player.
    pub fn new(id: u128, addr: u64, name: Vec<u8>, session_id: Option<i64>, now: u64) -> (c:
        UdpClient)
        ensures
            c@ == spec_new_client(id, addr, name@, session_id, now),
            c@.wf(),
    {
        let c = UdpClient {
            id,
            addr,
            player: Player::new(id, name),
            last_seen: now,
            sequence: 0,
            ack_sequence: 0,
            pending_acks: Vec::new(),
            session_id,
        };
        proof {
            assert(c@.pending =~= Seq::<PendingAckView>::empty());
        }
        c
    }

    /// Applies a move: stores the new coordinates and refreshes the
    /// last-activity time.
    pub fn update_position(&mut self, x_bits: u32, y_bits: u32, now: u64)
        ensures
            final(self)@ == (ClientView {
                player: PlayerView { x_bits, y_bits, ..old(self)@.player },
                last_seen: now,
                ..old(self)@
            }),
    {
        self.player.x_bits = x_bits;
        self.player.y_bits = y_bits;
        self.last_seen = now;
    }

    /// Stores a new health encoding.
    pub fn update_health(&mut self, health_bits: u32)
        ensures
            final(self)@ == (ClientView {
                player: PlayerView { health_bits, ..old(self)@.player },
                ..old(self)@
            }),
    {
        self.player.health_bits = health_bits;
    }

    /// Grants points; the score saturates at the counter's maximum.
    pub fn add_score(&mut self, points: u32)
        ensures
            final(self)@ == (ClientView {
                player: PlayerView {
                    score: if old(self)@.player.score + points <= u32::MAX {
                        (old(self)@.player.score + points) as u32
                    } else {
                        u32::MAX
                    },
                    ..old(self)@.player
                },
                ..old(self)@
            }),
    {
        if points <= u32::MAX - self.player.score {
            self.player.score = self.player.score + points;
        } else {
            self.player.score = u32::MAX;
        }
    }

    /// Allocates the next outbound sequence number: strictly increasing,
    /// starting at 1; the Nth allocation on a connection returns exactly N.
    pub fn next_sequence(&mut self) -> (s: u32)
        requires
            old(self).sequence < u32::MAX,
        ensures
            s == old(self)@.sequence + 1,
            final(self)@ == (ClientView { sequence: s, ..old(self)@ }),
    {
        self.sequence = self.sequence + 1;
        self.sequence
    }

    /// Whether this connection has been silent past the timeout threshold.
    pub fn is_timeout(&self, now: u64) -> (r: bool)
        ensures
            r == spec_timed_out(self@, now),
    {
        now > TIMEOUT_MS && self.last_seen < now - TIMEOUT_MS
    }

    /// Records a reliable send in the pending table, timestamped `now`.
    /// The caller hands in a freshly sequenced reliable envelope.
    pub fn add_pending_ack(&mut self, packet: UdpPacket, now: u64)
        requires
            !old(self)@.has_pending(packet.sequence),
        ensures
            final(self)@ == (ClientView {
                pending: old(self)@.pending.push(
                    PendingAckView { sequence: packet@.sequence, packet: packet@, sent_at: now },
                ),
                ..old(self)@
            }),
    {
        let sequence = packet.sequence;
        self.pending_acks.push(PendingAck { sequence, packet, sent_at: now });
        proof {
            assert(pending_view(self.pending_acks@) =~= pending_view(
                old(self).pending_acks@,
            ).push(final(self).pending_acks@.last()@));
        }
    }

    /// Acknowledges a sequence number: removes the matching pending entry if
    /// one exists and reports whether one did. Unknown or already-removed
    /// sequence numbers are a silent no-op.
    pub fn remove_pending_ack(&mut self, sequence: u32) -> (r: bool)
        ensures
            r == old(self)@.has_pending(sequence),
            !r ==> final(self)@ == old(self)@,
            r ==> exists|i: int|
                0 <= i < old(self)@.pending.len() && old(self)@.pending[i].sequence == sequence
                    && final(self)@ == (ClientView {
                    pending: old(self)@.pending.remove(i),
                    ..old(self)@
                }),
    {
        let mut i: usize = 0;
        let n = self.pending_acks.len();
        while i < n
            invariant
                i <= n,
                n == self.pending_acks.len(),
                *self == *old(self),
                forall|j: int| 0 <= j < i ==> self@.pending[j].sequence != sequence,
            decreases n - i,
        {
            if self.pending_acks[i].sequence == sequence {
                let ghost idx = i as int;
                proof {
                    assert(old(self)@.pending[idx].sequence == sequence);
                    assert(old(self)@.has_pending(sequence));
                }
                self.pending_acks.remove(i);
                proof {
                    assert(pending_view(self.pending_acks@) =~= pending_view(
                        old(self).pending_acks@,
                    ).remove(idx));
                    assert(self@ == (ClientView {
                        pending: old(self)@.pending.remove(idx),
                        ..old(self)@
                    }));
                }
                return true;
            }
            i = i + 1;
        }
        proof {
            assert(!old(self)@.has_pending(sequence));
        }
        false
    }

    /// The sequence numbers whose pending entries are older than the retry
    /// threshold, in table order.
    pub fn get_timeout_packets(&self, now: u64) -> (r: Vec<u32>)
        ensures
            r@ == due_sequences(self@.pending, now),
    {
        let mut r: Vec<u32> = Vec::new();
        let mut i: usize = 0;
        while i < self.pending_acks.len()
            invariant
                i <= self.pending_acks.len(),
                r@ == due_sequences(pending_view(self.pending_acks@).take(i as int), now),
            decreases self.pending_acks.len() - i,
        {
            let e = &self.pending_acks[i];
            proof {
                lemma_prefix_step_pending(pending_view(self.pending_acks@), i as int, now);
            }
            if now > RETRY_MS && e.sent_at < now - RETRY_MS {
                r.push(e.sequence);
            }
            i = i + 1;
        }
        proof {
            assert(pending_view(self.pending_acks@).take(self.pending_acks@.len() as int)
                == pending_view(self.pending_acks@));
        }
        r
    }
}

impl UdpClient {
    /// One reliable send on this connection: allocates the next sequence
    /// number (strictly increasing, starting at 1), records the envelope in
    /// the pending table timestamped `now`, and returns the envelope for
    /// transmission. The sweep retransmits it until the number is
    /// acknowledged or the connection is evicted.
    pub fn send_reliable(&mut self, message: &GameMessage, now: u64) -> (p: UdpPacket)
        requires
            old(self)@.wf(),
            old(self).sequence < u32::MAX,
        ensures
            final(self)@ == client_after_reliable(old(self)@, message@, now),
            final(self)@.wf(),
            p@ == reliable_packet_for(old(self)@, message@, now),
    {
        let ghost pre = self@;
        let s = self.next_sequence();
        let pkt = UdpPacket::new(s, copy_message(message), true, now);
        let out = pkt.copy();
        proof {
            assert(!self@.has_pending(pkt.sequence)) by {
                assert(forall|k: int|
                    0 <= k < pre.pending.len() ==> #[trigger] pre.pending[k].sequence
                        <= pre.sequence);
            }
        }
        self.add_pending_ack(pkt, now);
        proof {
            lemma_client_after_reliable_wf(pre, message@, now);
        }
        out
    }

    /// One unreliable send: an envelope with the reserved tag 0, no pending
    /// entry, no retry. Loss is invisible to the sender and the connection
    /// does not change.
    pub fn send_unreliable(&self, message: &GameMessage, now: u64) -> (p: UdpPacket)
        ensures
            p@ == spec_packet(0, now, message@, false),
    {
        UdpPacket::new(0, copy_message(message), false, now)
    }

    /// One retransmit sweep over this connection's pending table: returns
    /// the stored envelopes of every entry older than the retry threshold,
    /// unchanged and in table order, and refreshes those entries' timestamps.
    /// Nothing else about the connection changes.
    pub fn retransmit_due(&mut self, now: u64) -> (out: Vec<UdpPacket>)
        ensures
            final(self)@ == (ClientView {
                pending: refreshed_pending(old(self)@.pending, now),
                ..old(self)@
            }),
            packets_view(out@) == due_packets(old(self)@.pending, now),
    {
        sweep_pending(&mut self.pending_acks, now)
    }
}

/// Walks one pending table for the retransmit sweep: refreshes the due
/// entries and hands back their envelopes.
fn sweep_pending(pending: &mut Vec<PendingAck>, now: u64) -> (out: Vec<UdpPacket>)
    ensures
        pending_view(final(pending)@) == refreshed_pending(pending_view(old(pending)@), now),
        packets_view(out@) == due_packets(pending_view(old(pending)@), now),
{
    let ghost orig = pending_view(old(pending)@);
    let mut out: Vec<UdpPacket> = Vec::new();
    let mut i: usize = 0;
    while i < pending.len()
        invariant
            i <= pending@.len(),
            pending@.len() == old(pending)@.len(),
            forall|j: int| i <= j < pending@.len() ==> pending@[j] == old(pending)@[j],
            forall|j: int|
                0 <= j < i ==> pending_view(pending@)[j] == refreshed_pending(orig, now)[j],
            packets_view(out@) == due_packets(orig.take(i as int), now),
            orig == pending_view(old(pending)@),
        decreases pending@.len() - i,
    {
        proof {
            lemma_prefix_step_pending(orig, i as int, now);
        }
        let due = now > RETRY_MS && pending[i].sent_at < now - RETRY_MS;
        if due {
            let ghost prev_out = packets_view(out@);
            let pk = pending[i].packet.copy();
            out.push(pk);
            proof {
                assert(packets_view(out@) =~= prev_out.push(pk@));
            }
            let e = &mut pending[i];
            e.sent_at = now;
        }
        proof {
            assert(pending_view(pending@)[i as int] == refreshed_pending(orig, now)[i as int]);
        }
        i = i + 1;
    }
    proof {
        assert(orig.take(orig.len() as int) == orig);
        assert(pending_view(pending@) =~= refreshed_pending(orig, now));
    }
    out
}

/// The sequence numbers of the due pending entries, in table order.
pub open spec fn due_sequences(p: Seq<PendingAckView>, now: u64) -> Seq<u32>
    decreases p.len(),
{
    if p.len() == 0 {
        Seq::empty()
    } else {
        due_sequences(p.drop_last(), now) + if spec_ack_due(p.last(), now) {
            seq![p.last().sequence]
        } else {
            Seq::empty()
        }
    }
}

/// One outbound envelope together with the endpoint it goes to.
#[derive(Debug, Clone, PartialEq, Eq)]
pub struct Outgoing {
    pub dest: u64,
    pub packet: UdpPacket,
}

/// Mathematical model of an `Outgoing`.
pub struct OutgoingView {
    pub dest: u64,
    pub packet: PacketView,
}

impl View for Outgoing {
    type V = OutgoingView;

    open spec fn view(&self) -> OutgoingView {
        OutgoingView { dest: self.dest, packet: self.packet@ }
    }
}

/// The model of a list of outbound envelopes.
pub open spec fn outgoing_view(s: Seq<Outgoing>) -> Seq<OutgoingView> {
    s.map_values(|o: Outgoing| o@)
}

/// Everything a dispatcher step decided to do beyond mutating the registry:
/// the envelopes to transmit, in order, and the durable-store calls to make.
pub struct Effects {
    pub sends: Vec<Outgoing>,
    pub db: Vec<DbCall>,
}

/// Mathematical model of an `Effects`.
pub struct EffectsView {
    pub sends: Seq<OutgoingView>,
    pub db: Seq<DbCallView>,
}

impl View for Effects {
    type V = EffectsView;

    open spec fn view(&self) -> EffectsView {
        EffectsView { sends: outgoing_view(self.sends@), db: db_calls_view(self.db@) }
    }
}

/// The model of effects that do nothing.
pub open spec fn no_effects() -> EffectsView {
    EffectsView { sends: Seq::empty(), db: Seq::empty() }
}

/// An envelope as the core builds it.
pub open spec fn spec_packet(
    sequence: u32,
    timestamp: u64,
    message: MessageView,
    reliable: bool,
) -> PacketView {
    PacketView { sequence, timestamp, message, reliable }
}

/// The acknowledgement reply for an inbound sequence number: untracked
/// (sequence 0), unreliable, addressed to the originating endpoint.
pub open spec fn spec_ack_out(addr: u64, sequence: u32, now: u64) -> OutgoingView {
    OutgoingView {
        dest: addr,
        packet: spec_packet(0, now, MessageView::Ack { sequence }, false),
    }
}

/// Whether a connection is the excluded recipient of a broadcast.
pub open spec fn spec_excluded(c: ClientView, exclude: Option<u64>) -> bool {
    match exclude {
        Some(a) => c.addr == a,
        None => false,
    }
}

/// An unreliable (fire-and-forget) send to one connection: untracked
/// sequence 0, no pending entry, no retry.
pub open spec fn spec_unreliable_out(c: ClientView, m: MessageView, now: u64) -> OutgoingView {
    OutgoingView { dest: c.addr, packet: spec_packet(0, now, m, false) }
}

/// The sends of an unreliable broadcast: one envelope per connection in
/// registry order, skipping the excluded endpoint.
pub open spec fn unreliable_fanout(
    cs: Seq<ClientView>,
    m: MessageView,
    exclude: Option<u64>,
    now: u64,
) -> Seq<OutgoingView>
    decreases cs.len(),
{
    if cs.len() == 0 {
        Seq::empty()
    } else {
        unreliable_fanout(cs.drop_last(), m, exclude, now) + if spec_excluded(
            cs.last(),
            exclude,
        ) {
            Seq::empty()
        } else {
            seq![spec_unreliable_out(cs.last(), m, now)]
        }
    }
}

/// The envelope of a reliable send to one connection: the connection's next
/// sequence number, the message, the reliable flag.
pub open spec fn reliable_packet_for(c: ClientView, m: MessageView, now: u64) -> PacketView {
    spec_packet((c.sequence + 1) as u32, now, m, true)
}

/// A connection after one reliable send: the counter advanced by one and the
/// sent envelope recorded in the pending table, timestamped `now`.
pub open spec fn client_after_reliable(c: ClientView, m: MessageView, now: u64) -> ClientView {
    ClientView {
        sequence: (c.sequence + 1) as u32,
        pending: c.pending.push(
            PendingAckView {
                sequence: (c.sequence + 1) as u32,
                packet: reliable_packet_for(c, m, now),
                sent_at: now,
            },
        ),
        ..c
    }
}

/// The registry after a reliable broadcast: every connection but the
/// excluded one has made one reliable send.
pub open spec fn clients_after_reliable(
    cs: Seq<ClientView>,
    m: MessageView,
    exclude: Option<u64>,
    now: u64,
) -> Seq<ClientView> {
    cs.map_values(
        |c: ClientView|
            if spec_excluded(c, exclude) {
                c
            } else {
                client_after_reliable(c, m, now)
            },
    )
}

/// The sends of a reliable broadcast: one freshly sequenced envelope per
/// connection in registry order, skipping the excluded endpoint.
pub open spec fn reliable_fanout_sends(
    cs: Seq<ClientView>,
    m: MessageView,
    exclude: Option<u64>,
    now: u64,
) -> Seq<OutgoingView>
    decreases cs.len(),
{
    if cs.len() == 0 {
        Seq::empty()
    } else {
        reliable_fanout_sends(cs.drop_last(), m, exclude, now) + if spec_excluded(
            cs.last(),
            exclude,
        ) {
            Seq::empty()
        } else {
            seq![
                OutgoingView {
                    dest: cs.last().addr,
                    packet: reliable_packet_for(cs.last(), m, now),
                },
            ]
        }
    }
}

/// The sends of one keep-alive round: an unreliable heartbeat to every
/// connection, in registry order.
pub open spec fn heartbeat_fanout(cs: Seq<ClientView>, now: u64) -> Seq<OutgoingView>
    decreases cs.len(),
{
    if cs.len() == 0 {
        Seq::empty()
    } else {
        heartbeat_fanout(cs.drop_last(), now) + seq![
            spec_unreliable_out(
                cs.last(),
                MessageView::Heartbeat { player_id: cs.last().id, sequence: 0 },
                now,
            ),
        ]
    }
}

/// The model of a registry.
pub open spec fn clients_view(cs: Seq<UdpClient>) -> Seq<ClientView> {
    cs.map_values(|c: UdpClient| c@)
}

/// Well-formedness of the registry: endpoints are distinct, identities are
/// distinct, and every connection is well-formed.
pub open spec fn server_wf(cs: Seq<ClientView>) -> bool {
    &&& forall|i: int, j: int|
        #![trigger cs[i].addr, cs[j].addr]
        0 <= i < j < cs.len() ==> cs[i].addr != cs[j].addr
    &&& forall|i: int, j: int|
        #![trigger cs[i].id, cs[j].id]
        0 <= i < j < cs.len() ==> cs[i].id != cs[j].id
    &&& forall|i: int| 0 <= i < cs.len() ==> (#[trigger] cs[i]).wf()
}

/// Whether some connection lives at this endpoint.
pub open spec fn has_addr(cs: Seq<ClientView>, addr: u64) -> bool {
    exists|i: int| 0 <= i < cs.len() && cs[i].addr == addr
}

/// The index of the connection at this endpoint (meaningful when `has_addr`
/// holds; unique in a well-formed registry).
pub open spec fn addr_idx(cs: Seq<ClientView>, addr: u64) -> int {
    choose|i: int| 0 <= i < cs.len() && cs[i].addr == addr
}

/// Whether some connection carries this identity.
pub open spec fn has_id(cs: Seq<ClientView>, id: u128) -> bool {
    exists|i: int| 0 <= i < cs.len() && cs[i].id == id
}

/// Whether every connection can still allocate a sequence number (the
/// counter is a 32-bit wire field and must not wrap).
pub open spec fn can_send(cs: Seq<ClientView>) -> bool {
    forall|i: int| 0 <= i < cs.len() ==> (#[trigger] cs[i]).sequence < u32::MAX
}

/// The player snapshots of the registry, in registry order.
pub open spec fn players_of(cs: Seq<ClientView>) -> Seq<PlayerView> {
    cs.map_values(|c: ClientView| c.player)
}

/// The connection registry of the datagram transport, with the reliability
/// and liveness machinery over it.
pub struct UdpGameServer {
    pub clients: Vec<UdpClient>,
}

impl View for UdpGameServer {
    type V = Seq<ClientView>;

    open spec fn view(&self) -> Seq<ClientView> {
        clients_view(self.clients@)
    }
}

impl UdpGameServer {
    /// An empty registry.
    pub fn new() -> (s: UdpGameServer)
        ensures
            s@ == Seq::<ClientView>::empty(),
            server_wf(s@),
    {
        let s = UdpGameServer { clients: Vec::new() };
        proof {
            assert(s@ =~= Seq::<ClientView>::empty());
        }
        s
    }

    /// The number of live connections.
    pub fn get_client_count(&self) -> (n: usize)
        ensures
            n == self@.len(),
    {
        self.clients.len()
    }

    /// Whether a connection lives at this endpoint.
    pub fn contains_addr(&self, addr: u64) -> (r: bool)
        ensures
            r == has_addr(self@, addr),
    {
        let mut i: usize = 0;
        while i < self.clients.len()
            invariant
                i <= self@.len(),
                forall|j: int| 0 <= j < i ==> self@[j].addr != addr,
            decreases self@.len() - i,
        {
            if self.clients[i].addr == addr {
                proof {
                    assert(self@[i as int].addr == addr);
                }
                return true;
            }
            i = i + 1;
        }
        false
    }

    /// Whether a connection carries this identity.
    pub fn contains_id(&self, id: u128) -> (r: bool)
        ensures
            r == has_id(self@, id),
    {
        let mut i: usize = 0;
        while i < self.clients.len()
            invariant
                i <= self@.len(),
                forall|j: int| 0 <= j < i ==> self@[j].id != id,
            decreases self@.len() - i,
        {
            if self.clients[i].id == id {
                proof {
                    assert(self@[i as int].id == id);
                }
                return true;
            }
            i = i + 1;
        }
        false
    }

    /// Looks an endpoint up in the registry.
    fn find_by_addr(&self, addr: u64) -> (r: Option<usize>)
        ensures
            match r {
                Some(i) => i < self@.len() && self@[i as int].addr == addr,
                None => !has_addr(self@, addr),
            },
    {
        let mut i: usize = 0;
        while i < self.clients.len()
            invariant
                i <= self@.len(),
                forall|j: int| 0 <= j < i ==> self@[j].addr != addr,
            decreases self@.len() - i,
        {
            if self.clients[i].addr == addr {
                return Some(i);
            }
            i = i + 1;
        }
        None
    }

    /// Registers a connection. Fails, leaving the registry unchanged, if the
    /// endpoint or the identity is already present; otherwise the connection
    /// is appended.
    pub fn insert(&mut self, c: UdpClient) -> (r: bool)
        ensures
            r == (!has_addr(old(self)@, c.addr) && !has_id(old(self)@, c.id)),
            r ==> final(self)@ == old(self)@.push(c@),
            !r ==> final(self)@ == old(self)@,
    {
        if self.contains_addr(c.addr) || self.contains_id(c.id) {
            return false;
        }
        let ghost pre = self@;
        let ghost cv = c@;
        self.clients.push(c);
        proof {
            assert(self@ =~= pre.push(cv));
        }
        true
    }

    /// Detaches the connection with this identity, discarding its pending
    /// table, and reports whether one was present (a duplicate removal is an
    /// idempotent no-op).
    pub fn remove(&mut self, id: u128) -> (r: bool)
        ensures
            r == has_id(old(self)@, id),
            !r ==> final(self)@ == old(self)@,
            r ==> exists|i: int|
                0 <= i < old(self)@.len() && old(self)@[i].id == id && final(self)@ == old(
                    self,
                )@.remove(i),
    {
        let mut i: usize = 0;
        let n = self.clients.len();
        while i < n
            invariant
                i <= n,
                n == self@.len(),
                *self == *old(self),
                forall|j: int| 0 <= j < i ==> self@[j].id != id,
            decreases n - i,
        {
            if self.clients[i].id == id {
                let ghost idx = i as int;
                proof {
                    assert(old(self)@[idx].id == id);
                }
                self.clients.remove(i);
                proof {
                    assert(self@ =~= old(self)@.remove(idx));
                }
                return true;
            }
            i = i + 1;
        }
        false
    }

    /// A point-in-time copy of every live player snapshot, in registry
    /// order, for the state snapshot message.
    pub fn collect_players(&self) -> (ps: Vec<Player>)
        ensures
            players_view(ps@) == players_of(self@),
    {
        let mut ps: Vec<Player> = Vec::new();
        let mut i: usize = 0;
        while i < self.clients.len()
            invariant
                i <= self@.len(),
                players_view(ps@) == players_of(self@.take(i as int)),
            decreases self@.len() - i,
        {
            let ghost prev = players_view(ps@);
            let p = copy_player(&self.clients[i].player);
            ps.push(p);
            proof {
                assert(players_view(ps@) =~= players_of(self@.take(i + 1))) by {
                    assert(players_view(ps@) =~= prev.push(p@));
                    assert forall|j: int| 0 <= j < i + 1 implies prev.push(p@)[j] == players_of(
                        self@.take(i + 1),
                    )[j] by {
                        if j < i {
                            assert(prev[j] == players_of(self@.take(i as int))[j]);
                        }
                    }
                }
            }
            i = i + 1;
        }
        proof {
            assert(self@.take(self@.len() as int) == self@);
        }
        ps
    }

    /// An unreliable broadcast: sends the message fire-and-forget to every
    /// connection except the excluded endpoint; delivers to no one if the
    /// registry is empty. The registry itself does not change.
    pub fn broadcast_unreliable(&self, message: &GameMessage, exclude: Option<u64>, now: u64) -> (
        out: Vec<Outgoing>)
        ensures
            outgoing_view(out@) == unreliable_fanout(self@, message@, exclude, now),
    {
        let mut out: Vec<Outgoing> = Vec::new();
        let mut i: usize = 0;
        while i < self.clients.len()
            invariant
                i <= self@.len(),
                outgoing_view(out@) == unreliable_fanout(self@.take(i as int), message@, exclude, now),
            decreases self@.len() - i,
        {
            proof {
                assert(self@.take(i + 1).drop_last() =~= self@.take(i as int));
            }
            let c = &self.clients[i];
            let skip = match exclude {
                Some(a) => c.addr == a,
                None => false,
            };
            if !skip {
                let ghost prev = outgoing_view(out@);
                let o = Outgoing { dest: c.addr, packet: c.send_unreliable(message, now) };
                out.push(o);
                proof {
                    assert(outgoing_view(out@) =~= prev.push(o@));
                }
            }
            i = i + 1;
        }
        proof {
            assert(self@.take(self@.len() as int) == self@);
        }
        out
    }

    /// A reliable broadcast: to every connection except the excluded
    /// endpoint (and to no one if the registry is empty), allocates that
    /// connection's next sequence number, records the envelope in its pending
    /// table timestamped `now`, and emits the envelope. Order across
    /// recipients follows the registry; one recipient's state never affects
    /// another's delivery.
    pub fn broadcast_reliable(&mut self, message: &GameMessage, exclude: Option<u64>, now: u64)
        -> (out: Vec<Outgoing>)
        requires
            server_wf(old(self)@),
            can_send(old(self)@),
        ensures
            final(self)@ == clients_after_reliable(old(self)@, message@, exclude, now),
            outgoing_view(out@) == reliable_fanout_sends(old(self)@, message@, exclude, now),
            server_wf(final(self)@),
    {
        let ghost pre = self@;
        let ghost m = message@;
        let mut out: Vec<Outgoing> = Vec::new();
        let n = self.clients.len();
        let mut i: usize = 0;
        while i < n
            invariant
                i <= n,
                n == self@.len(),
                pre.len() == n,
                server_wf(pre),
                can_send(pre),
                m == message@,
                forall|j: int| i <= j < n ==> self@[j] == pre[j],
                forall|j: int|
                    0 <= j < i ==> self@[j] == clients_after_reliable(pre, m, exclude, now)[j],
                outgoing_view(out@) == reliable_fanout_sends(pre.take(i as int), m, exclude, now),
            decreases n - i,
        {
            proof {
                assert(pre.take(i + 1).drop_last() =~= pre.take(i as int));
            }
            let ghost snap = self.clients@;
            let dest = self.clients[i].addr;
            let skip = match exclude {
                Some(a) => dest == a,
                None => false,
            };
            if !skip {
                let ghost cpre = pre[i as int];
                let c = &mut self.clients[i];
                let pkt = c.send_reliable(message, now);
                proof {
                    assert(self@[i as int] == client_after_reliable(cpre, m, now));
                }
                let ghost prev_out = outgoing_view(out@);
                let o = Outgoing { dest, packet: pkt };
                out.push(o);
                proof {
                    assert(outgoing_view(out@) =~= prev_out.push(o@));
                    assert(self@[i as int] == clients_after_reliable(pre, m, exclude, now)[i as int]);
                }
            } else {
                proof {
                    assert(spec_excluded(pre[i as int], exclude));
                    assert(self@[i as int] == clients_after_reliable(pre, m, exclude, now)[i as int]);
                }
            }
            proof {
                assert forall|j: int|
                    0 <= j < i implies self@[j] == clients_after_reliable(pre, m, exclude, now)[j]
                    by {
                    assert(self.clients@[j] == snap[j]);
                    assert(clients_view(snap)[j] == clients_after_reliable(pre, m, exclude, now)[j]);
                }
            }
            i = i + 1;
        }
        proof {
            assert(pre.take(pre.len() as int) == pre);
            assert(self@ =~= clients_after_reliable(pre, m, exclude, now));
            lemma_reliable_broadcast_wf(pre, m, exclude, now);
        }
        out
    }

    /// One timeout sweep: evicts every connection that has been silent past
    /// the threshold, discarding its pending table; every connection active
    /// within the threshold survives. Evictions do not broadcast nor close
    /// the stored session (the explicit-disconnect path does both).
    pub fn cleanup_tick(&mut self, now: u64)
        ensures
            final(self)@ == retained(old(self)@, now),
    {
        let ghost pre = self@;
        let ghost mut done: int = 0;
        let mut i: usize = 0;
        while i < self.clients.len()
            invariant
                0 <= done <= pre.len(),
                i as int == retained(pre.take(done), now).len(),
                i <= self@.len(),
                self@ == retained(pre.take(done), now) + pre.skip(done),
            decreases pre.len() - done,
        {
            proof {
                assert(pre.take(done + 1).drop_last() =~= pre.take(done));
                assert(done < pre.len()) by {
                    lemma_retained_len(pre.take(done), now);
                }
                assert(self@[i as int] == pre.skip(done)[0]);
                assert(pre.skip(done)[0] == pre[done]);
            }
            let timed = self.clients[i].is_timeout(now);
            if timed {
                let ghost before = self@;
                self.clients.remove(i);
                proof {
                    done = done + 1;
                    assert(retained(pre.take(done), now) == retained(pre.take(done - 1), now));
                    let goal = retained(pre.take(done), now) + pre.skip(done);
                    assert forall|j: int| 0 <= j < self@.len() implies self@[j] == goal[j] by {
                        if j < i {
                            assert(self@[j] == before[j]);
                        } else {
                            assert(self@[j] == before[j + 1]);
                            assert(before[j + 1] == pre.skip(done - 1)[j + 1 - i]);
                            assert(pre.skip(done - 1)[j + 1 - i] == pre[done - 1 + (j + 1 - i)]);
                            assert(goal[j] == pre.skip(done)[j - i]);
                            assert(pre.skip(done)[j - i] == pre[done + (j - i)]);
                        }
                    }
                    assert(self@ =~= goal);
                }
            } else {
                i = i + 1;
                proof {
                    done = done + 1;
                    assert(retained(pre.take(done), now) =~= retained(
                        pre.take(done - 1),
                        now,
                    ).push(pre[done - 1]));
                    assert(self@ =~= retained(pre.take(done), now) + pre.skip(done));
                }
            }
        }
        proof {
            lemma_retained_len(pre.take(done), now);
            assert(done == pre.len());
            assert(pre.take(done) == pre);
            assert(self@ =~= retained(pre, now));
        }
    }

    /// One retransmit sweep: for every connection, retransmits the stored
    /// envelope of every pending entry older than the retry threshold —
    /// byte-identical, same sequence number — and refreshes that entry's
    /// timestamp. Nothing is removed and nothing else changes.
    pub fn reliability_tick(&mut self, now: u64) -> (out: Vec<Outgoing>)
        ensures
            final(self)@ == clients_after_sweep(old(self)@, now),
            outgoing_view(out@) == sweep_sends(old(self)@, now),
    {
        let ghost pre = self@;
        let mut out: Vec<Outgoing> = Vec::new();
        let n = self.clients.len();
        let mut i: usize = 0;
        while i < n
            invariant
                i <= n,
                n == self@.len(),
                pre.len() == n,
                forall|j: int| i <= j < n ==> self@[j] == pre[j],
                forall|j: int| 0 <= j < i ==> self@[j] == clients_after_sweep(pre, now)[j],
                outgoing_view(out@) == sweep_sends(pre.take(i as int), now),
            decreases n - i,
        {
            proof {
                assert(pre.take(i + 1).drop_last() =~= pre.take(i as int));
            }
            let dest = self.clients[i].addr;
            let ghost cpre = pre[i as int];
            let c = &mut self.clients[i];
            let pks = c.retransmit_due(now);
            proof {
                assert(self@[i as int] == clients_after_sweep(pre, now)[i as int]);
            }
            let ghost base = outgoing_view(out@);
            let mut k: usize = 0;
            while k < pks.len()
                invariant
                    k <= pks.len(),
                    packets_view(pks@) == due_packets(cpre.pending, now),
                    outgoing_view(out@) == base + to_dest(
                        dest,
                        packets_view(pks@).take(k as int),
                    ),
                decreases pks.len() - k,
            {
                let ghost prev_out = outgoing_view(out@);
                let o = Outgoing { dest, packet: pks[k].copy() };
                out.push(o);
                proof {
                    assert(outgoing_view(out@) =~= prev_out.push(o@));
                    assert(to_dest(dest, packets_view(pks@).take(k + 1)) =~= to_dest(
                        dest,
                        packets_view(pks@).take(k as int),
                    ).push(o@));
                    assert(outgoing_view(out@) =~= base + to_dest(
                        dest,
                        packets_view(pks@).take(k + 1),
                    ));
                }
                k = k + 1;
            }
            proof {
                assert(packets_view(pks@).take(pks@.len() as int) == packets_view(pks@));
                assert(outgoing_view(out@) == base + to_dest(dest, due_packets(cpre.pending, now)));
                assert(outgoing_view(out@) =~= sweep_sends(pre.take(i + 1), now));
            }
            i = i + 1;
        }
        proof {
            assert(pre.take(pre.len() as int) == pre);
            assert(self@ =~= clients_after_sweep(pre, now));
        }
        out
    }

    /// Whether every connection can still allocate an outbound sequence
    /// number (the counter is a 32-bit wire field and must not wrap). The
    /// host checks this before dispatching work that sends reliably.
    pub fn can_allocate(&self) -> (r: bool)
        ensures
            r == can_send(self@),
    {
        let mut i: usize = 0;
        while i < self.clients.len()
            invariant
                i <= self@.len(),
                forall|j: int| 0 <= j < i ==> (#[trigger] self@[j]).sequence < u32::MAX,
            decreases self@.len() - i,
        {
            if self.clients[i].sequence == u32::MAX {
                proof {
                    assert(self@[i as int].sequence == u32::MAX);
                }
                return false;
            }
            i = i + 1;
        }
        true
    }

    /// Builds the acknowledgement reply for an inbound sequence number:
    /// untracked, unreliable, addressed to the originating endpoint.
    pub fn send_ack(&self, addr: u64, sequence: u32, now: u64) -> (o: Outgoing)
        ensures
            o@ == spec_ack_out(addr, sequence, now),
    {
        Outgoing {
            dest: addr,
            packet: UdpPacket::new(0, GameMessage::Ack { sequence }, false, now),
        }
    }

    /// Handles an inbound acknowledgement: removes the matching pending
    /// entry — at most one — of the connection at the originating endpoint
    /// and refreshes its activity time. An unknown endpoint, an unknown
    /// sequence number or a duplicate ack changes nothing; none is an error.
    pub fn handle_ack(&mut self, addr: u64, sequence: u32, now: u64) -> (fx: Effects)
        requires
            server_wf(old(self)@),
        ensures
            final(self)@ == spec_handle_ack(old(self)@, addr, sequence, now).clients,
            fx@ == spec_handle_ack(old(self)@, addr, sequence, now).fx,
            server_wf(final(self)@),
    {
        let ghost pre = self@;
        match self.find_by_addr(addr) {
            Some(i) => {
                let ghost cpre = pre[i as int];
                proof {
                    lemma_addr_idx_unique(pre, addr, i as int);
                }
                let c = &mut self.clients[i];
                c.last_seen = now;
                let present = c.remove_pending_ack(sequence);
                proof {
                    if present {
                        let k = choose|k: int|
                            0 <= k < cpre.pending.len() && cpre.pending[k].sequence == sequence
                                && c@ == (ClientView {
                                pending: cpre.pending.remove(k),
                                last_seen: now,
                                ..cpre
                            });
                        lemma_pending_idx_unique(cpre, sequence, k);
                    }
                    assert(c@ == client_after_ack(cpre, sequence, now));
                }
                proof {
                    assert(self@ =~= pre.update(i as int, client_after_ack(cpre, sequence, now)));
                    lemma_client_after_ack_wf(cpre, sequence, now);
                    lemma_update_wf(pre, i as int, client_after_ack(cpre, sequence, now));
                }
            },
            None => {},
        }
        let fx = Effects { sends: Vec::new(), db: Vec::new() };
        proof {
            assert(fx@.sends =~= no_effects().sends);
            assert(fx@.db =~= no_effects().db);
        }
        fx
    }

    /// Sends the full state snapshot, reliably, to the connection at this
    /// endpoint: every live player's snapshot in registry order, stamped
    /// with the clock in seconds. An unknown endpoint gets nothing.
    pub fn send_game_state_to_client(&mut self, addr: u64, now: u64) -> (out: Vec<Outgoing>)
        requires
            server_wf(old(self)@),
            can_send_at(old(self)@, addr),
        ensures
            final(self)@ == spec_send_state(old(self)@, addr, now).clients,
            outgoing_view(out@) == spec_send_state(old(self)@, addr, now).fx.sends,
            server_wf(final(self)@),
    {
        let ghost pre = self@;
        let mut out: Vec<Outgoing> = Vec::new();
        let players = self.collect_players();
        match self.find_by_addr(addr) {
            Some(i) => {
                let ghost cpre = pre[i as int];
                proof {
                    lemma_addr_idx_unique(pre, addr, i as int);
                }
                let snap = GameMessage::GameState { players, timestamp: now / 1000 };
                let c = &mut self.clients[i];
                let pkt = c.send_reliable(&snap, now);
                let ghost snapv = MessageView::GameState {
                    players: players_of(pre),
                    timestamp: now / 1000,
                };
                proof {
                    assert(c@ == client_after_reliable(cpre, snapv, now));
                }
                out.push(Outgoing { dest: addr, packet: pkt });
                proof {
                    assert(self@ =~= pre.update(
                        i as int,
                        client_after_reliable(cpre, snapv, now),
                    ));
                    assert(outgoing_view(out@) =~= spec_send_state(pre, addr, now).fx.sends);
                    lemma_client_after_reliable_wf(cpre, snapv, now);
                    lemma_update_wf(pre, i as int, client_after_reliable(cpre, snapv, now));
                }
            },
            None => {
                proof {
                    assert(outgoing_view(out@) =~= spec_send_state(pre, addr, now).fx.sends);
                }
            },
        }
        out
    }

    /// Handles an inbound client heartbeat (see `spec_handle_heartbeat`):
    /// refreshes a known connection, registers an unknown endpoint with a
    /// fresh identity (join broadcast, snapshot, store calls), and always
    /// acknowledges.
    pub fn handle_heartbeat(
        &mut self,
        addr: u64,
        player_id: u128,
        sequence: u32,
        session_id: Option<i64>,
        now: u64,
    ) -> (fx: Effects)
        requires
            server_wf(old(self)@),
            can_send(old(self)@),
        ensures
            final(self)@ == spec_handle_heartbeat(
                old(self)@,
                addr,
                player_id,
                sequence,
                session_id,
                now,
            ).clients,
            fx@ == spec_handle_heartbeat(
                old(self)@,
                addr,
                player_id,
                sequence,
                session_id,
                now,
            ).fx,
            server_wf(final(self)@),
    {
        let ghost pre = self@;
        let mut sends: Vec<Outgoing> = Vec::new();
        let mut db: Vec<DbCall> = Vec::new();
        match self.find_by_addr(addr) {
            Some(i) => {
                let ghost cpre = pre[i as int];
                proof {
                    lemma_addr_idx_unique(pre, addr, i as int);
                }
                let c = &mut self.clients[i];
                c.last_seen = now;
                c.ack_sequence = sequence;
                proof {
                    let upd = ClientView { last_seen: now, ack_sequence: sequence, ..cpre };
                    assert(c@ == upd);
                    assert(self@ =~= pre.update(i as int, upd));
                    assert(upd.wf());
                    lemma_update_wf(pre, i as int, upd);
                }
            },
            None => {
                if !self.contains_id(player_id) {
                    let name = default_name(player_id);
                    let client = UdpClient::new(
                        player_id,
                        addr,
                        copy_bytes(&name),
                        session_id,
                        now,
                    );
                    let ghost nc = client@;
                    db.push(DbCall::CreateOrUpdatePlayer { player: copy_player(&client.player) });
                    db.push(
                        DbCall::LogEvent {
                            player_id,
                            session_id,
                            kind: EventKind::Join,
                            data: None,
                        },
                    );
                    let join = GameMessage::PlayerJoin { player_id, name };
                    let ghost jm = join@;
                    let mut bs = self.broadcast_reliable(&join, Some(addr), now);
                    sends.append(&mut bs);
                    let ghost after_join = self@;
                    proof {
                        assert forall|k: int| 0 <= k < after_join.len() implies (
                        #[trigger] after_join[k]).addr == pre[k].addr && after_join[k].id
                            == pre[k].id by {}
                        assert(!has_addr(after_join, addr)) by {
                            if has_addr(after_join, addr) {
                                let k = choose|k: int|
                                    0 <= k < after_join.len() && after_join[k].addr == addr;
                                assert(pre[k].addr == addr);
                                assert(has_addr(pre, addr));
                            }
                        }
                        assert(!has_id(after_join, player_id)) by {
                            if has_id(after_join, player_id) {
                                let k = choose|k: int|
                                    0 <= k < after_join.len() && after_join[k].id == player_id;
                                assert(pre[k].id == player_id);
                                assert(has_id(pre, player_id));
                            }
                        }
                    }
                    let ok = self.insert(client);
                    proof {
                        assert(ok);
                        assert(self@ == after_join.push(nc));
                        lemma_push_wf(after_join, nc);
                        assert(can_send_at(self@, addr)) by {
                            lemma_addr_idx_unique(self@, addr, after_join.len() as int);
                        }
                    }
                    let mut st = self.send_game_state_to_client(addr, now);
                    sends.append(&mut st);
                }
            },
        }
        sends.push(self.send_ack(addr, sequence, now));
        let fx = Effects { sends, db };
        proof {
            let goal = spec_handle_heartbeat(pre, addr, player_id, sequence, session_id, now);
            assert(fx@.sends =~= goal.fx.sends);
            assert(fx@.db =~= goal.fx.db);
        }
        fx
    }

    /// Handles an inbound move (see `spec_handle_move`): with a matching
    /// identity, updates position and activity, informs the store,
    /// acknowledges if asked, and fans the move out unreliably to everyone
    /// else; otherwise rejects silently with no mutation and no broadcast.
    pub fn handle_player_move(
        &mut self,
        addr: u64,
        player_id: u128,
        x_bits: u32,
        y_bits: u32,
        sequence: u32,
        reliable: bool,
        now: u64,
    ) -> (fx: Effects)
        requires
            server_wf(old(self)@),
        ensures
            final(self)@ == spec_handle_move(
                old(self)@,
                addr,
                player_id,
                x_bits,
                y_bits,
                sequence,
                reliable,
                now,
            ).clients,
            fx@ == spec_handle_move(
                old(self)@,
                addr,
                player_id,
                x_bits,
                y_bits,
                sequence,
                reliable,
                now,
            ).fx,
            server_wf(final(self)@),
    {
        let ghost pre = self@;
        let mut sends: Vec<Outgoing> = Vec::new();
        let mut db: Vec<DbCall> = Vec::new();
        match self.find_by_addr(addr) {
            Some(i) => {
                let ghost cpre = pre[i as int];
                proof {
                    lemma_addr_idx_unique(pre, addr, i as int);
                }
                if self.clients[i].id == player_id {
                let sid = self.clients[i].session_id;
                let c = &mut self.clients[i];
                c.update_position(x_bits, y_bits, now);
                let ghost moved = ClientView {
                    player: PlayerView { x_bits, y_bits, ..cpre.player },
                    last_seen: now,
                    ..cpre
                };
                proof {
                    assert(c@ == moved);
                    assert(self@ =~= pre.update(i as int, moved));
                    assert(moved.wf());
                    lemma_update_wf(pre, i as int, moved);
                }
                db.push(DbCall::UpdatePosition { player_id, x_bits, y_bits });
                let mv = GameMessage::PlayerMove { player_id, x_bits, y_bits };
                if sequence % MOVE_LOG_SAMPLE == 0 {
                    db.push(
                        DbCall::LogEvent {
                            player_id,
                            session_id: sid,
                            kind: EventKind::Move,
                            data: Some(copy_message(&mv)),
                        },
                    );
                }
                if reliable {
                    sends.push(self.send_ack(addr, sequence, now));
                }
                let mut bs = self.broadcast_unreliable(&mv, Some(addr), now);
                sends.append(&mut bs);
                }
            },
            None => {},
        }
        let fx = Effects { sends, db };
        proof {
            let goal = spec_handle_move(
                pre,
                addr,
                player_id,
                x_bits,
                y_bits,
                sequence,
                reliable,
                now,
            );
            assert(fx@.sends =~= goal.fx.sends);
            assert(fx@.db =~= goal.fx.db);
        }
        fx
    }

    /// Handles an inbound action (see `spec_handle_action`): with a matching
    /// identity, performs the recognized action (`attack` logs; `pickup`
    /// grants points and informs the store), ignores unrecognized ones, and
    /// acknowledges if asked; otherwise rejects silently.
    pub fn handle_player_action(
        &mut self,
        addr: u64,
        player_id: u128,
        action: &Vec<u8>,
        sequence: u32,
        reliable: bool,
        now: u64,
    ) -> (fx: Effects)
        requires
            server_wf(old(self)@),
        ensures
            final(self)@ == spec_handle_action(
                old(self)@,
                addr,
                player_id,
                action@,
                sequence,
                reliable,
                now,
            ).clients,
            fx@ == spec_handle_action(
                old(self)@,
                addr,
                player_id,
                action@,
                sequence,
                reliable,
                now,
            ).fx,
            server_wf(final(self)@),
    {
        let ghost pre = self@;
        let mut sends: Vec<Outgoing> = Vec::new();
        let mut db: Vec<DbCall> = Vec::new();
        match self.find_by_addr(addr) {
            Some(i) => {
                let ghost cpre = pre[i as int];
                proof {
                    lemma_addr_idx_unique(pre, addr, i as int);
                }
                if self.clients[i].id == player_id {
                let sid = self.clients[i].session_id;
                let attack = action_attack();
                let pickup = action_pickup();
                if bytes_eq(action, &attack) {
                    let c = &mut self.clients[i];
                    c.last_seen = now;
                    proof {
                        let upd = ClientView { last_seen: now, ..cpre };
                        assert(c@ == upd);
                        assert(self@ =~= pre.update(i as int, upd));
                        lemma_update_wf(pre, i as int, upd);
                    }
                    db.push(
                        DbCall::LogEvent {
                            player_id,
                            session_id: sid,
                            kind: EventKind::Attack,
                            data: None,
                        },
                    );
                } else if bytes_eq(action, &pickup) {
                    let c = &mut self.clients[i];
                    c.add_score(PICKUP_POINTS);
                    c.last_seen = now;
                    let new_score = self.clients[i].player.score;
                    proof {
                        let upd = ClientView {
                            player: PlayerView { score: new_score, ..cpre.player },
                            last_seen: now,
                            ..cpre
                        };
                        assert(self@[i as int] == upd);
                        assert(self@ =~= pre.update(i as int, upd));
                        assert(cpre.wf());
                        assert(upd.pending == cpre.pending && upd.sequence == cpre.sequence);
                        assert(upd.wf());
                        lemma_update_wf(pre, i as int, upd);
                    }
                    db.push(DbCall::UpdateScore { player_id, score: new_score });
                    db.push(
                        DbCall::LogEvent {
                            player_id,
                            session_id: sid,
                            kind: EventKind::Pickup,
                            data: None,
                        },
                    );
                } else {
                    let c = &mut self.clients[i];
                    c.last_seen = now;
                    proof {
                        let upd = ClientView { last_seen: now, ..cpre };
                        assert(c@ == upd);
                        assert(self@ =~= pre.update(i as int, upd));
                        lemma_update_wf(pre, i as int, upd);
                    }
                }
                if reliable {
                    sends.push(self.send_ack(addr, sequence, now));
                }
                }
            },
            None => {},
        }
        let fx = Effects { sends, db };
        proof {
            let goal = spec_handle_action(pre, addr, player_id, action@, sequence, reliable, now);
            assert(fx@.sends =~= goal.fx.sends);
            assert(fx@.db =~= goal.fx.db);
        }
        fx
    }

    /// Handles an inbound chat line (see `spec_handle_chat`): with a
    /// matching identity, informs the store, acknowledges if asked, and
    /// broadcasts the line reliably to everyone, the sender included;
    /// otherwise rejects silently.
    pub fn handle_chat(
        &mut self,
        addr: u64,
        player_id: u128,
        message: &Vec<u8>,
        sequence: u32,
        reliable: bool,
        now: u64,
    ) -> (fx: Effects)
        requires
            server_wf(old(self)@),
            can_send(old(self)@),
        ensures
            final(self)@ == spec_handle_chat(
                old(self)@,
                addr,
                player_id,
                message@,
                sequence,
                reliable,
                now,
            ).clients,
            fx@ == spec_handle_chat(
                old(self)@,
                addr,
                player_id,
                message@,
                sequence,
                reliable,
                now,
            ).fx,
            server_wf(final(self)@),
    {
        let ghost pre = self@;
        let mut sends: Vec<Outgoing> = Vec::new();
        let mut db: Vec<DbCall> = Vec::new();
        match self.find_by_addr(addr) {
            Some(i) => {
                let ghost cpre = pre[i as int];
                proof {
                    lemma_addr_idx_unique(pre, addr, i as int);
                }
                if self.clients[i].id == player_id {
                let sid = self.clients[i].session_id;
                let c = &mut self.clients[i];
                c.last_seen = now;
                let ghost cs2 = pre.update(i as int, ClientView { last_seen: now, ..cpre });
                proof {
                    assert(self@ =~= cs2);
                    lemma_update_wf(pre, i as int, ClientView { last_seen: now, ..cpre });
                    assert(can_send(cs2)) by {
                        assert forall|k: int| 0 <= k < cs2.len() implies (
                        #[trigger] cs2[k]).sequence < u32::MAX by {
                            assert(pre[k].sequence < u32::MAX);
                        }
                    }
                }
                db.push(
                    DbCall::SaveChat { player_id, session_id: sid, message: copy_bytes(message) },
                );
                let chat = GameMessage::Chat { player_id, message: copy_bytes(message) };
                db.push(
                    DbCall::LogEvent {
                        player_id,
                        session_id: sid,
                        kind: EventKind::Chat,
                        data: Some(copy_message(&chat)),
                    },
                );
                if reliable {
                    sends.push(self.send_ack(addr, sequence, now));
                }
                let mut bs = self.broadcast_reliable(&chat, None, now);
                sends.append(&mut bs);
                }
            },
            None => {},
        }
        let fx = Effects { sends, db };
        proof {
            let goal = spec_handle_chat(pre, addr, player_id, message@, sequence, reliable, now);
            assert(fx@.sends =~= goal.fx.sends);
            assert(fx@.db =~= goal.fx.db);
        }
        fx
    }

    /// Dispatches one decoded inbound envelope (see `spec_handle_packet`).
    /// `session_id` is the store session the host opened for this endpoint,
    /// used only if the envelope registers a new connection.
    pub fn handle_packet(
        &mut self,
        addr: u64,
        packet: &UdpPacket,
        session_id: Option<i64>,
        now: u64,
    ) -> (fx: Effects)
        requires
            server_wf(old(self)@),
            can_send(old(self)@),
        ensures
            final(self)@ == spec_handle_packet(old(self)@, addr, packet@, session_id, now).clients,
            fx@ == spec_handle_packet(old(self)@, addr, packet@, session_id, now).fx,
            server_wf(final(self)@),
    {
        match &packet.message {
            GameMessage::Heartbeat { player_id, sequence } => self.handle_heartbeat(
                addr,
                *player_id,
                *sequence,
                session_id,
                now,
            ),
            GameMessage::Ack { sequence } => self.handle_ack(addr, *sequence, now),
            GameMessage::PlayerMove { player_id, x_bits, y_bits } => self.handle_player_move(
                addr,
                *player_id,
                *x_bits,
                *y_bits,
                packet.sequence,
                packet.reliable,
                now,
            ),
            GameMessage::PlayerAction { player_id, action, data: _ } => self
                .handle_player_action(
                addr,
                *player_id,
                action,
                packet.sequence,
                packet.reliable,
                now,
            ),
            GameMessage::Chat { player_id, message } => self.handle_chat(
                addr,
                *player_id,
                message,
                packet.sequence,
                packet.reliable,
                now,
            ),
            _ => {
                let fx = Effects { sends: Vec::new(), db: Vec::new() };
                proof {
                    assert(fx@.sends =~= no_effects().sends);
                    assert(fx@.db =~= no_effects().db);
                }
                fx
            },
        }
    }

    /// One keep-alive round: an unreliable server-initiated heartbeat to
    /// every connection. The registry does not change.
    pub fn heartbeat_tick(&self, now: u64) -> (out: Vec<Outgoing>)
        ensures
            outgoing_view(out@) == heartbeat_fanout(self@, now),
    {
        let mut out: Vec<Outgoing> = Vec::new();
        let mut i: usize = 0;
        while i < self.clients.len()
            invariant
                i <= self@.len(),
                outgoing_view(out@) == heartbeat_fanout(self@.take(i as int), now),
            decreases self@.len() - i,
        {
            proof {
                assert(self@.take(i + 1).drop_last() =~= self@.take(i as int));
            }
            let c = &self.clients[i];
            let ghost prev = outgoing_view(out@);
            let hb = GameMessage::Heartbeat { player_id: c.id, sequence: 0 };
            let o = Outgoing { dest: c.addr, packet: c.send_unreliable(&hb, now) };
            out.push(o);
            proof {
                assert(outgoing_view(out@) =~= prev.push(o@));
            }
            i = i + 1;
        }
        proof {
            assert(self@.take(self@.len() as int) == self@);
        }
        out
    }
}

/// The registry after a timeout sweep at time `now`: exactly the connections
/// that were not silent past the threshold, in registry order.
pub open spec fn retained(cs: Seq<ClientView>, now: u64) -> Seq<ClientView>
    decreases cs.len(),
{
    if cs.len() == 0 {
        Seq::empty()
    } else {
        retained(cs.drop_last(), now) + if spec_timed_out(cs.last(), now) {
            Seq::empty()
        } else {
            seq![cs.last()]
        }
    }
}

/// The registry after a retransmit sweep: every connection's due pending
/// entries refreshed, nothing else changed.
pub open spec fn clients_after_sweep(cs: Seq<ClientView>, now: u64) -> Seq<ClientView> {
    cs.map_values(
        |c: ClientView| ClientView { pending: refreshed_pending(c.pending, now), ..c },
    )
}

/// Envelopes addressed to one endpoint.
pub open spec fn to_dest(addr: u64, pks: Seq<PacketView>) -> Seq<OutgoingView> {
    pks.map_values(|p: PacketView| OutgoingView { dest: addr, packet: p })
}

/// The sends of a retransmit sweep: for each connection in registry order,
/// the stored envelopes of its due pending entries, unchanged.
pub open spec fn sweep_sends(cs: Seq<ClientView>, now: u64) -> Seq<OutgoingView>
    decreases cs.len(),
{
    if cs.len() == 0 {
        Seq::empty()
    } else {
        sweep_sends(cs.drop_last(), now) + to_dest(
            cs.last().addr,
            due_packets(cs.last().pending, now),
        )
    }
}

/// One reliable send preserves a connection's well-formedness and touches
/// neither its endpoint, identity, player nor activity time.
pub proof fn lemma_client_after_reliable_wf(c: ClientView, m: MessageView, now: u64)
    requires
        c.wf(),
        c.sequence < u32::MAX,
    ensures
        client_after_reliable(c, m, now).wf(),
        client_after_reliable(c, m, now).addr == c.addr,
        client_after_reliable(c, m, now).id == c.id,
{
}

/// A reliable broadcast preserves registry well-formedness.
pub proof fn lemma_reliable_broadcast_wf(
    cs: Seq<ClientView>,
    m: MessageView,
    exclude: Option<u64>,
    now: u64,
)
    requires
        server_wf(cs),
        can_send(cs),
    ensures
        server_wf(clients_after_reliable(cs, m, exclude, now)),
{
    let post = clients_after_reliable(cs, m, exclude, now);
    assert forall|i: int| 0 <= i < post.len() implies (#[trigger] post[i]).wf()
        && post[i].addr == cs[i].addr && post[i].id == cs[i].id by {
        if !spec_excluded(cs[i], exclude) {
            lemma_client_after_reliable_wf(cs[i], m, now);
        }
    }
}

/// A retransmit sweep preserves a connection's well-formedness: the table
/// keeps its sequence numbers and envelopes, only timestamps move.
pub proof fn lemma_client_after_sweep_wf(c: ClientView, now: u64)
    requires
        c.wf(),
    ensures
        (ClientView { pending: refreshed_pending(c.pending, now), ..c }).wf(),
{
    let r = refreshed_pending(c.pending, now);
    assert forall|i: int| 0 <= i < r.len() implies #[trigger] r[i].sequence
        == c.pending[i].sequence && r[i].packet == c.pending[i].packet by {}
}

/// A retransmit sweep preserves registry well-formedness.
pub proof fn lemma_sweep_wf(cs: Seq<ClientView>, now: u64)
    requires
        server_wf(cs),
    ensures
        server_wf(clients_after_sweep(cs, now)),
{
    let post = clients_after_sweep(cs, now);
    assert forall|i: int| 0 <= i < post.len() implies (#[trigger] post[i]).wf()
        && post[i].addr == cs[i].addr && post[i].id == cs[i].id by {
        lemma_client_after_sweep_wf(cs[i], now);
    }
}

/// The lowercase hex digit for a nibble.
pub open spec fn spec_hex_digit(n: u8) -> u8 {
    if n < 10 {
        (48 + n) as u8
    } else {
        (87 + n) as u8
    }
}

/// The display name given to a connection on first contact: `Player_`
/// followed by the first eight hex digits of its identity (the top 32 bits,
/// lowercase).
pub open spec fn spec_default_name(id: u128) -> Seq<u8> {
    let top = (id >> 96) as u32;
    seq![80u8, 108u8, 97u8, 121u8, 101u8, 114u8, 95u8] + seq![
        spec_hex_digit(((top >> 28) & 0xf) as u8),
        spec_hex_digit(((top >> 24) & 0xf) as u8),
        spec_hex_digit(((top >> 20) & 0xf) as u8),
        spec_hex_digit(((top >> 16) & 0xf) as u8),
        spec_hex_digit(((top >> 12) & 0xf) as u8),
        spec_hex_digit(((top >> 8) & 0xf) as u8),
        spec_hex_digit(((top >> 4) & 0xf) as u8),
        spec_hex_digit((top & 0xf) as u8),
    ]
}

/// The lowercase hex digit for a nibble.
fn hex_digit(n: u8) -> (r: u8)
    requires
        n < 16,
    ensures
        r == spec_hex_digit(n),
{
    if n < 10 {
        48 + n
    } else {
        87 + n
    }
}

/// Derives the default display name from an identity.
pub fn default_name(id: u128) -> (r: Vec<u8>)
    ensures
        r@ == spec_default_name(id),
{
    let top = (id >> 96) as u32;
    proof {
        assert((top >> 28) & 0xf < 16 && (top >> 24) & 0xf < 16 && (top >> 20) & 0xf < 16 && (top
            >> 16) & 0xf < 16 && (top >> 12) & 0xf < 16 && (top >> 8) & 0xf < 16 && (top >> 4)
            & 0xf < 16 && top & 0xf < 16) by (bit_vector);
    }
    let mut r: Vec<u8> = Vec::new();
    r.push(80);
    r.push(108);
    r.push(97);
    r.push(121);
    r.push(101);
    r.push(114);
    r.push(95);
    r.push(hex_digit(((top >> 28) & 0xf) as u8));
    r.push(hex_digit(((top >> 24) & 0xf) as u8));
    r.push(hex_digit(((top >> 20) & 0xf) as u8));
    r.push(hex_digit(((top >> 16) & 0xf) as u8));
    r.push(hex_digit(((top >> 12) & 0xf) as u8));
    r.push(hex_digit(((top >> 8) & 0xf) as u8));
    r.push(hex_digit(((top >> 4) & 0xf) as u8));
    r.push(hex_digit((top & 0xf) as u8));
    proof {
        assert(r@ =~= spec_default_name(id));
    }
    r
}

/// Byte-string equality.
pub fn bytes_eq(a: &Vec<u8>, b: &Vec<u8>) -> (r: bool)
    ensures
        r == (a@ == b@),
{
    if a.len() != b.len() {
        proof {
            assert(a@ != b@);
        }
        return false;
    }
    let mut i: usize = 0;
    while i < a.len()
        invariant
            i <= a.len(),
            a@.len() == b@.len(),
            forall|j: int| 0 <= j < i ==> a@[j] == b@[j],
        decreases a.len() - i,
    {
        if a[i] != b[i] {
            proof {
                assert(a@ != b@);
            }
            return false;
        }
        i = i + 1;
    }
    proof {
        assert(a@ =~= b@);
    }
    true
}

/// The recognized action names.
pub fn action_attack() -> (r: Vec<u8>)
    ensures
        r@ == spec_action_attack(),
{
    let mut r: Vec<u8> = Vec::new();
    r.push(97);
    r.push(116);
    r.push(116);
    r.push(97);
    r.push(99);
    r.push(107);
    proof {
        assert(r@ =~= spec_action_attack());
    }
    r
}

/// The bytes of the `attack` action name.
pub open spec fn spec_action_attack() -> Seq<u8> {
    seq![97u8, 116u8, 116u8, 97u8, 99u8, 107u8]
}

/// The recognized action names.
pub fn action_pickup() -> (r: Vec<u8>)
    ensures
        r@ == spec_action_pickup(),
{
    let mut r: Vec<u8> = Vec::new();
    r.push(112);
    r.push(105);
    r.push(99);
    r.push(107);
    r.push(117);
    r.push(112);
    proof {
        assert(r@ =~= spec_action_pickup());
    }
    r
}

/// The bytes of the `pickup` action name.
pub open spec fn spec_action_pickup() -> Seq<u8> {
    seq![112u8, 105u8, 99u8, 107u8, 117u8, 112u8]
}

/// In a well-formed registry the index of an endpoint is unique.
pub proof fn lemma_addr_idx_unique(cs: Seq<ClientView>, addr: u64, i: int)
    requires
        server_wf(cs),
        0 <= i < cs.len(),
        cs[i].addr == addr,
    ensures
        has_addr(cs, addr),
        addr_idx(cs, addr) == i,
{
    assert(has_addr(cs, addr));
    let j = addr_idx(cs, addr);
    assert(0 <= j < cs.len() && cs[j].addr == addr);
    if i != j {
        assert(cs[i].addr != cs[j].addr);
    }
}

/// In a well-formed connection the index of a pending sequence number is
/// unique.
pub proof fn lemma_pending_idx_unique(c: ClientView, sequence: u32, i: int)
    requires
        c.wf(),
        0 <= i < c.pending.len(),
        c.pending[i].sequence == sequence,
    ensures
        c.has_pending(sequence),
        c.pending_idx(sequence) == i,
{
    assert(c.has_pending(sequence));
    let j = c.pending_idx(sequence);
    assert(0 <= j < c.pending.len() && c.pending[j].sequence == sequence);
    if i != j {
        assert(c.pending[i].sequence != c.pending[j].sequence);
    }
}

/// The model of one dispatcher step: the registry afterwards and the
/// effects decided on.
pub struct StepView {
    pub clients: Seq<ClientView>,
    pub fx: EffectsView,
}

/// A step that changes nothing and does nothing.
pub open spec fn no_step(cs: Seq<ClientView>) -> StepView {
    StepView { clients: cs, fx: no_effects() }
}

/// A connection after an acknowledgement at time `now`: the matching
/// pending entry — if one exists — is removed (exactly one, never more), and
/// the activity time is refreshed. An unknown or duplicate sequence number
/// removes nothing.
pub open spec fn client_after_ack(c: ClientView, sequence: u32, now: u64) -> ClientView {
    if c.has_pending(sequence) {
        ClientView { pending: c.pending.remove(c.pending_idx(sequence)), last_seen: now, ..c }
    } else {
        ClientView { last_seen: now, ..c }
    }
}

/// The step for an inbound `Ack`: applies the acknowledgement to the
/// connection at the originating endpoint; a stranger's ack does nothing.
/// No reply, no broadcast, no store call.
pub open spec fn spec_handle_ack(
    cs: Seq<ClientView>,
    addr: u64,
    sequence: u32,
    now: u64,
) -> StepView {
    if has_addr(cs, addr) {
        let i = addr_idx(cs, addr);
        StepView {
            clients: cs.update(i, client_after_ack(cs[i], sequence, now)),
            fx: no_effects(),
        }
    } else {
        no_step(cs)
    }
}

/// The step for sending the full state snapshot to one connection: a
/// reliable send of every live player's snapshot, stamped with the clock in
/// seconds.
pub open spec fn spec_send_state(cs: Seq<ClientView>, addr: u64, now: u64) -> StepView {
    if has_addr(cs, addr) {
        let i = addr_idx(cs, addr);
        let snap = MessageView::GameState { players: players_of(cs), timestamp: now / 1000 };
        StepView {
            clients: cs.update(i, client_after_reliable(cs[i], snap, now)),
            fx: EffectsView {
                sends: seq![
                    OutgoingView { dest: addr, packet: reliable_packet_for(cs[i], snap, now) },
                ],
                db: Seq::empty(),
            },
        }
    } else {
        no_step(cs)
    }
}

/// Removing a pending entry preserves a connection's well-formedness, as
/// does refreshing its activity time.
pub proof fn lemma_client_after_ack_wf(c: ClientView, sequence: u32, now: u64)
    requires
        c.wf(),
    ensures
        client_after_ack(c, sequence, now).wf(),
        client_after_ack(c, sequence, now).addr == c.addr,
        client_after_ack(c, sequence, now).id == c.id,
{
    if c.has_pending(sequence) {
        let i = c.pending_idx(sequence);
        let p = c.pending.remove(i);
        c.pending.remove_ensures(i);
        assert forall|k: int| 0 <= k < p.len() implies 0 < (#[trigger] p[k]).sequence
            <= c.sequence && p[k].packet.sequence == p[k].sequence && p[k].packet.reliable by {
            if k < i {
                assert(p[k] == c.pending[k]);
            } else {
                assert(p[k] == c.pending[k + 1]);
            }
        }
        assert forall|k1: int, k2: int|
            #![trigger p[k1].sequence, p[k2].sequence]
            0 <= k1 < k2 < p.len() implies p[k1].sequence != p[k2].sequence by {
            if k2 < i {
            } else if k1 < i {
                assert(p[k1] == c.pending[k1] && p[k2] == c.pending[k2 + 1]);
            } else {
                assert(p[k1] == c.pending[k1 + 1] && p[k2] == c.pending[k2 + 1]);
            }
        }
    }
}

/// Updating one connection in place preserves registry well-formedness as
/// long as its endpoint, identity and own well-formedness are kept.
pub proof fn lemma_update_wf(cs: Seq<ClientView>, i: int, c: ClientView)
    requires
        server_wf(cs),
        0 <= i < cs.len(),
        c.wf(),
        c.addr == cs[i].addr,
        c.id == cs[i].id,
    ensures
        server_wf(cs.update(i, c)),
{
    let post = cs.update(i, c);
    assert forall|k1: int, k2: int|
        #![trigger post[k1].addr, post[k2].addr]
        #![trigger post[k1].id, post[k2].id]
        0 <= k1 < k2 < post.len() implies post[k1].addr != post[k2].addr && post[k1].id
        != post[k2].id by {
        assert(cs[k1].addr != cs[k2].addr && cs[k1].id != cs[k2].id);
    }
    assert forall|k: int| 0 <= k < post.len() implies (#[trigger] post[k]).wf() by {
        assert(k != i ==> post[k] == cs[k]);
    }
}

/// Whether the connection at this endpoint (if any) can still allocate a
/// sequence number.
pub open spec fn can_send_at(cs: Seq<ClientView>, addr: u64) -> bool {
    has_addr(cs, addr) ==> cs[addr_idx(cs, addr)].sequence < u32::MAX
}

/// The step for an inbound client heartbeat. A known endpoint merely has its
/// activity time and inbound ack cursor refreshed. An unknown endpoint with
/// a fresh identity joins: a connection with a default-named player is
/// registered, the store is told to upsert the player and log the join, the
/// join is broadcast reliably to everyone else, and the newcomer is sent the
/// full state snapshot reliably. An unknown endpoint whose identity is
/// already registered elsewhere joins nothing (identities are never shared).
/// In all cases the heartbeat is acknowledged.
pub open spec fn spec_handle_heartbeat(
    cs: Seq<ClientView>,
    addr: u64,
    player_id: u128,
    sequence: u32,
    session_id: Option<i64>,
    now: u64,
) -> StepView {
    let ack = seq![spec_ack_out(addr, sequence, now)];
    if has_addr(cs, addr) {
        let i = addr_idx(cs, addr);
        StepView {
            clients: cs.update(
                i,
                ClientView { last_seen: now, ack_sequence: sequence, ..cs[i] },
            ),
            fx: EffectsView { sends: ack, db: Seq::empty() },
        }
    } else if has_id(cs, player_id) {
        StepView { clients: cs, fx: EffectsView { sends: ack, db: Seq::empty() } }
    } else {
        let name = spec_default_name(player_id);
        let nc = spec_new_client(player_id, addr, name, session_id, now);
        let join = MessageView::PlayerJoin { player_id, name };
        let inserted = clients_after_reliable(cs, join, Some(addr), now).push(nc);
        let st = spec_send_state(inserted, addr, now);
        StepView {
            clients: st.clients,
            fx: EffectsView {
                sends: reliable_fanout_sends(cs, join, Some(addr), now) + st.fx.sends + ack,
                db: seq![
                    DbCallView::CreateOrUpdatePlayer { player: nc.player },
                    DbCallView::LogEvent {
                        player_id,
                        session_id,
                        kind: EventKind::Join,
                        data: None,
                    },
                ],
            },
        }
    }
}

/// The step for an inbound move. If the embedded identity matches the
/// originating connection's, the connection's position and activity time are
/// updated, the store is told the new position (and, for every Nth inbound
/// sequence number, to log the move), the move is acknowledged if it asked
/// for reliability, and it is broadcast unreliably to everyone else. A
/// mismatched identity or an unknown endpoint changes nothing at all.
pub open spec fn spec_handle_move(
    cs: Seq<ClientView>,
    addr: u64,
    player_id: u128,
    x_bits: u32,
    y_bits: u32,
    sequence: u32,
    reliable: bool,
    now: u64,
) -> StepView {
    if has_addr(cs, addr) && cs[addr_idx(cs, addr)].id == player_id {
        let i = addr_idx(cs, addr);
        let moved = ClientView {
            player: PlayerView { x_bits, y_bits, ..cs[i].player },
            last_seen: now,
            ..cs[i]
        };
        let cs2 = cs.update(i, moved);
        let mv = MessageView::PlayerMove { player_id, x_bits, y_bits };
        StepView {
            clients: cs2,
            fx: EffectsView {
                sends: (if reliable {
                    seq![spec_ack_out(addr, sequence, now)]
                } else {
                    Seq::empty()
                }) + unreliable_fanout(cs2, mv, Some(addr), now),
                db: seq![DbCallView::UpdatePosition { player_id, x_bits, y_bits }] + (
                if sequence % MOVE_LOG_SAMPLE == 0 {
                    seq![
                        DbCallView::LogEvent {
                            player_id,
                            session_id: cs[i].session_id,
                            kind: EventKind::Move,
                            data: Some(mv),
                        },
                    ]
                } else {
                    Seq::empty()
                }),
            },
        }
    } else {
        no_step(cs)
    }
}

/// The step for an inbound action. With a matching identity: a recognized
/// `attack` logs an attack event; a recognized `pickup` grants points
/// (saturating) and tells the store the new score and the pickup; an
/// unrecognized action is ignored. Activity is refreshed either way and the
/// action is acknowledged if it asked for reliability. A mismatched identity
/// changes nothing.
pub open spec fn spec_handle_action(
    cs: Seq<ClientView>,
    addr: u64,
    player_id: u128,
    action: Seq<u8>,
    sequence: u32,
    reliable: bool,
    now: u64,
) -> StepView {
    if has_addr(cs, addr) && cs[addr_idx(cs, addr)].id == player_id {
        let i = addr_idx(cs, addr);
        let ack = if reliable {
            seq![spec_ack_out(addr, sequence, now)]
        } else {
            Seq::<OutgoingView>::empty()
        };
        if action == spec_action_attack() {
            StepView {
                clients: cs.update(i, ClientView { last_seen: now, ..cs[i] }),
                fx: EffectsView {
                    sends: ack,
                    db: seq![
                        DbCallView::LogEvent {
                            player_id,
                            session_id: cs[i].session_id,
                            kind: EventKind::Attack,
                            data: None,
                        },
                    ],
                },
            }
        } else if action == spec_action_pickup() {
            let ns = if cs[i].player.score + PICKUP_POINTS <= u32::MAX {
                (cs[i].player.score + PICKUP_POINTS) as u32
            } else {
                u32::MAX
            };
            StepView {
                clients: cs.update(
                    i,
                    ClientView {
                        player: PlayerView { score: ns, ..cs[i].player },
                        last_seen: now,
                        ..cs[i]
                    },
                ),
                fx: EffectsView {
                    sends: ack,
                    db: seq![
                        DbCallView::UpdateScore { player_id, score: ns },
                        DbCallView::LogEvent {
                            player_id,
                            session_id: cs[i].session_id,
                            kind: EventKind::Pickup,
                            data: None,
                        },
                    ],
                },
            }
        } else {
            StepView {
                clients: cs.update(i, ClientView { last_seen: now, ..cs[i] }),
                fx: EffectsView { sends: ack, db: Seq::empty() },
            }
        }
    } else {
        no_step(cs)
    }
}

/// The step for an inbound chat line. With a matching identity: activity is
/// refreshed, the store is told to save the line and log the chat, the line
/// is acknowledged if it asked for reliability, and it is broadcast reliably
/// to everyone, the sender included. A mismatched identity changes nothing.
pub open spec fn spec_handle_chat(
    cs: Seq<ClientView>,
    addr: u64,
    player_id: u128,
    message: Seq<u8>,
    sequence: u32,
    reliable: bool,
    now: u64,
) -> StepView {
    if has_addr(cs, addr) && cs[addr_idx(cs, addr)].id == player_id {
        let i = addr_idx(cs, addr);
        let cs2 = cs.update(i, ClientView { last_seen: now, ..cs[i] });
        let chat = MessageView::Chat { player_id, message };
        StepView {
            clients: clients_after_reliable(cs2, chat, None, now),
            fx: EffectsView {
                sends: (if reliable {
                    seq![spec_ack_out(addr, sequence, now)]
                } else {
                    Seq::empty()
                }) + reliable_fanout_sends(cs2, chat, None, now),
                db: seq![
                    DbCallView::SaveChat {
                        player_id,
                        session_id: cs[i].session_id,
                        message,
                    },
                    DbCallView::LogEvent {
                        player_id,
                        session_id: cs[i].session_id,
                        kind: EventKind::Chat,
                        data: Some(chat),
                    },
                ],
            },
        }
    } else {
        no_step(cs)
    }
}

/// The step for one inbound envelope: heartbeats, acks, moves, actions and
/// chats are dispatched; the variants the server itself emits (join, leave,
/// snapshot, error) are ignored when they arrive from outside.
pub open spec fn spec_handle_packet(
    cs: Seq<ClientView>,
    addr: u64,
    p: PacketView,
    session_id: Option<i64>,
    now: u64,
) -> StepView {
    match p.message {
        MessageView::Heartbeat { player_id, sequence } => spec_handle_heartbeat(
            cs,
            addr,
            player_id,
            sequence,
            session_id,
            now,
        ),
        MessageView::Ack { sequence } => spec_handle_ack(cs, addr, sequence, now),
        MessageView::PlayerMove { player_id, x_bits, y_bits } => spec_handle_move(
            cs,
            addr,
            player_id,
            x_bits,
            y_bits,
            p.sequence,
            p.reliable,
            now,
        ),
        MessageView::PlayerAction { player_id, action, data: _ } => spec_handle_action(
            cs,
            addr,
            player_id,
            action,
            p.sequence,
            p.reliable,
            now,
        ),
        MessageView::Chat { player_id, message } => spec_handle_chat(
            cs,
            addr,
            player_id,
            message,
            p.sequence,
            p.reliable,
            now,
        ),
        _ => no_step(cs),
    }
}

/// Registering a fresh connection preserves registry well-formedness.
pub proof fn lemma_push_wf(cs: Seq<ClientView>, c: ClientView)
    requires
        server_wf(cs),
        c.wf(),
        !has_addr(cs, c.addr),
        !has_id(cs, c.id),
    ensures
        server_wf(cs.push(c)),
{
    let post = cs.push(c);
    assert forall|k1: int, k2: int|
        #![trigger post[k1].addr, post[k2].addr]
        #![trigger post[k1].id, post[k2].id]
        0 <= k1 < k2 < post.len() implies post[k1].addr != post[k2].addr && post[k1].id
        != post[k2].id by {
        if k2 < cs.len() {
            assert(cs[k1].addr != cs[k2].addr && cs[k1].id != cs[k2].id);
        } else {
            assert(post[k1] == cs[k1]);
            if post[k1].addr == c.addr {
                assert(has_addr(cs, c.addr));
            }
            if post[k1].id == c.id {
                assert(has_id(cs, c.id));
            }
        }
    }
    assert forall|k: int| 0 <= k < post.len() implies (#[trigger] post[k]).wf() by {
        if k < cs.len() {
            assert(cs[k].wf());
        }
    }
}

/// A sweep keeps at most as many connections as it saw.
proof fn lemma_retained_len(cs: Seq<ClientView>, now: u64)
    ensures
        retained(cs, now).len() <= cs.len(),
    decreases cs.len(),
{
    if cs.len() > 0 {
        lemma_retained_len(cs.drop_last(), now);
    }
}

/// A connection survives the timeout sweep exactly when it was live and not
/// silent past the threshold.
pub proof fn lemma_retained_membership(cs: Seq<ClientView>, now: u64)
    ensures
        forall|c: ClientView|
            retained(cs, now).contains(c) <==> (cs.contains(c) && !spec_timed_out(c, now)),
    decreases cs.len(),
{
    if cs.len() > 0 {
        let pre = cs.drop_last();
        lemma_retained_membership(pre, now);
        let r = retained(cs, now);
        assert forall|c: ClientView| r.contains(c) implies cs.contains(c) && !spec_timed_out(
            c,
            now,
        ) by {
            let k = choose|k: int| 0 <= k < r.len() && r[k] == c;
            if k < retained(pre, now).len() {
                assert(r[k] == retained(pre, now)[k]);
                assert(retained(pre, now).contains(c));
                assert(pre.contains(c) && !spec_timed_out(c, now));
                let j = choose|j: int| 0 <= j < pre.len() && pre[j] == c;
                assert(cs[j] == c);
            } else {
                assert(c == cs.last());
                assert(cs[cs.len() - 1] == c);
            }
        }
        assert forall|c: ClientView| cs.contains(c) && !spec_timed_out(c, now) implies r.contains(
            c,
        ) by {
            let j = choose|j: int| 0 <= j < cs.len() && cs[j] == c;
            if j < cs.len() - 1 {
                assert(pre[j] == c);
                assert(pre.contains(c));
                assert(retained(pre, now).contains(c));
                let k = choose|k: int| 0 <= k < retained(pre, now).len() && retained(pre, now)[k] == c;
                assert(r[k] == c);
            } else {
                assert(r[r.len() - 1] == c);
            }
        }
    }
}

/// In a well-formed registry no connection value repeats, and the sweep
/// keeps it so.
proof fn lemma_retained_no_dup(cs: Seq<ClientView>, now: u64)
    requires
        server_wf(cs),
    ensures
        retained(cs, now).no_duplicates(),
    decreases cs.len(),
{
    if cs.len() > 0 {
        let pre = cs.drop_last();
        assert(server_wf(pre));
        lemma_retained_no_dup(pre, now);
        lemma_retained_membership(pre, now);
        let r = retained(cs, now);
        let rp = retained(pre, now);
        let last = cs.last();
        if !spec_timed_out(last, now) {
            assert(!pre.contains(last)) by {
                if pre.contains(last) {
                    let j = choose|j: int| 0 <= j < pre.len() && pre[j] == last;
                    assert(cs[j].addr == cs[cs.len() - 1].addr);
                }
            }
            assert(!rp.contains(last));
            assert(r =~= rp.push(last));
            assert forall|i: int, j: int| 0 <= i < j < r.len() implies r[i] != r[j] by {
                if j < rp.len() {
                    assert(rp[i] != rp[j]);
                } else {
                    assert(r[j] == last);
                    assert(rp.contains(r[i]));
                }
            }
        } else {
            assert(r =~= rp);
        }
    }
}

/// The timeout sweep keeps exactly the connections active within the
/// threshold, and preserves registry well-formedness.
pub proof fn lemma_timeout_sweep(cs: Seq<ClientView>, now: u64)
    requires
        server_wf(cs),
    ensures
        server_wf(retained(cs, now)),
        forall|c: ClientView|
            retained(cs, now).contains(c) <==> (cs.contains(c) && !spec_timed_out(c, now)),
{
    lemma_retained_membership(cs, now);
    lemma_retained_no_dup(cs, now);
    let r = retained(cs, now);
    assert forall|k1: int, k2: int|
        #![trigger r[k1].addr, r[k2].addr]
        #![trigger r[k1].id, r[k2].id]
        0 <= k1 < k2 < r.len() implies r[k1].addr != r[k2].addr && r[k1].id != r[k2].id by {
        assert(r[k1] != r[k2]);
        assert(r.contains(r[k1]));
        assert(r.contains(r[k2]));
        assert(cs.contains(r[k1]));
        assert(cs.contains(r[k2]));
        let j1 = choose|j: int| 0 <= j < cs.len() && cs[j] == r[k1];
        let j2 = choose|j: int| 0 <= j < cs.len() && cs[j] == r[k2];
        assert(j1 != j2);
        assert(cs[j1].addr != cs[j2].addr);
        assert(cs[j1].id != cs[j2].id);
    }
    assert forall|k: int| 0 <= k < r.len() implies (#[trigger] r[k]).wf() by {
        assert(r.contains(r[k]));
        assert(cs.contains(r[k]));
        let j = choose|j: int| 0 <= j < cs.len() && cs[j] == r[k];
        assert(cs[j].wf());
    }
}

/// A connection after a chain of reliable sends, all at time `now`.
pub open spec fn client_after_sends(c: ClientView, ms: Seq<MessageView>, now: u64) -> ClientView
    decreases ms.len(),
{
    if ms.len() == 0 {
        c
    } else {
        client_after_reliable(client_after_sends(c, ms.drop_last(), now), ms.last(), now)
    }
}

/// The sequence numbers a chain of reliable sends assigns, in order.
pub open spec fn assigned_numbers(c: ClientView, ms: Seq<MessageView>, now: u64) -> Seq<u32>
    decreases ms.len(),
{
    if ms.len() == 0 {
        Seq::empty()
    } else {
        assigned_numbers(c, ms.drop_last(), now).push(
            (client_after_sends(c, ms.drop_last(), now).sequence + 1) as u32,
        )
    }
}

/// On a connection whose counter starts at zero, the Nth reliable send is
/// assigned exactly N (1-indexed), the assigned numbers strictly increase,
/// and no number is ever assigned twice. Unreliable sends carry the reserved
/// tag 0 and leave the counter untouched, so they cannot reuse a number
/// either.
pub proof fn lemma_nth_send_sequence(c0: ClientView, ms: Seq<MessageView>, now: u64)
    requires
        c0.sequence == 0,
        ms.len() <= u32::MAX,
    ensures
        client_after_sends(c0, ms, now).sequence == ms.len(),
        assigned_numbers(c0, ms, now).len() == ms.len(),
        forall|n: int| 0 <= n < ms.len() ==> assigned_numbers(c0, ms, now)[n] == n + 1,
        forall|n: int, m: int|
            0 <= n < m < ms.len() ==> assigned_numbers(c0, ms, now)[n] < assigned_numbers(
                c0,
                ms,
                now,
            )[m],
    decreases ms.len(),
{
    if ms.len() > 0 {
        lemma_nth_send_sequence(c0, ms.drop_last(), now);
    }
}

/// Acknowledging a sequence number removes at most one pending entry;
/// acknowledging an unknown, or an already acknowledged, sequence number
/// changes the table not at all. In particular a concurrent duplicate of the
/// same acknowledgement can never remove a second entry.
pub proof fn lemma_ack_at_most_once(c: ClientView, sequence: u32, t1: u64, t2: u64)
    requires
        c.wf(),
    ensures
        c.has_pending(sequence) ==> client_after_ack(c, sequence, t1).pending.len()
            == c.pending.len() - 1,
        !c.has_pending(sequence) ==> client_after_ack(c, sequence, t1).pending == c.pending,
        !client_after_ack(c, sequence, t1).has_pending(sequence),
        client_after_ack(client_after_ack(c, sequence, t1), sequence, t2).pending
            == client_after_ack(c, sequence, t1).pending,
{
    let a1 = client_after_ack(c, sequence, t1);
    if c.has_pending(sequence) {
        let i = c.pending_idx(sequence);
        assert(0 <= i < c.pending.len() && c.pending[i].sequence == sequence);
        c.pending.remove_ensures(i);
        assert forall|k: int| 0 <= k < a1.pending.len() implies (#[trigger] a1.pending[k]).sequence
            != sequence by {
            if k < i {
                assert(a1.pending[k] == c.pending[k]);
            } else {
                assert(a1.pending[k] == c.pending[k + 1]);
            }
        }
    }
    assert(!a1.has_pending(sequence));
}

/// A retransmit sweep sends exactly the due entries' stored envelopes: every
/// entry older than the retry threshold is retransmitted unchanged, and
/// nothing else goes out.
pub proof fn lemma_sweep_retransmits(p: Seq<PendingAckView>, now: u64)
    ensures
        forall|k: int|
            0 <= k < p.len() && spec_ack_due(#[trigger] p[k], now) ==> due_packets(
                p,
                now,
            ).contains(p[k].packet),
        forall|pk: PacketView|
            due_packets(p, now).contains(pk) ==> exists|k: int|
                0 <= k < p.len() && #[trigger] p[k].packet == pk && spec_ack_due(p[k], now),
    decreases p.len(),
{
    if p.len() > 0 {
        let pre = p.drop_last();
        lemma_sweep_retransmits(pre, now);
        let d = due_packets(p, now);
        let dp = due_packets(pre, now);
        assert forall|k: int|
            0 <= k < p.len() && spec_ack_due(#[trigger] p[k], now) implies d.contains(
            p[k].packet,
        ) by {
            if k < p.len() - 1 {
                assert(pre[k] == p[k]);
                assert(dp.contains(p[k].packet));
                let x = choose|x: int| 0 <= x < dp.len() && dp[x] == p[k].packet;
                assert(d[x] == p[k].packet);
            } else {
                assert(d[d.len() - 1] == p[k].packet);
            }
        }
        assert forall|pk: PacketView| d.contains(pk) implies exists|k: int|
            0 <= k < p.len() && #[trigger] p[k].packet == pk && spec_ack_due(p[k], now) by {
            let x = choose|x: int| 0 <= x < d.len() && d[x] == pk;
            if x < dp.len() {
                assert(dp[x] == pk);
                assert(dp.contains(pk));
                let k = choose|k: int|
                    0 <= k < pre.len() && #[trigger] pre[k].packet == pk && spec_ack_due(
                        pre[k],
                        now,
                    );
                assert(p[k].packet == pk && spec_ack_due(p[k], now));
            } else {
                assert(pk == p.last().packet);
                assert(p[p.len() - 1].packet == pk && spec_ack_due(p[p.len() - 1], now));
            }
        }
    }
}

/// Once a sequence number is acknowledged, no later sweep retransmits it:
/// its envelope is gone from the pending table for good.
pub proof fn lemma_ack_stops_retransmit(c: ClientView, sequence: u32, t: u64, now: u64)
    requires
        c.wf(),
    ensures
        forall|pk: PacketView|
            due_packets(client_after_ack(c, sequence, t).pending, now).contains(pk)
                ==> pk.sequence != sequence,
{
    let a = client_after_ack(c, sequence, t);
    lemma_client_after_ack_wf(c, sequence, t);
    lemma_ack_at_most_once(c, sequence, t, t);
    lemma_sweep_retransmits(a.pending, now);
    assert forall|pk: PacketView|
        due_packets(a.pending, now).contains(pk) implies pk.sequence != sequence by {
        let k = choose|k: int|
            0 <= k < a.pending.len() && #[trigger] a.pending[k].packet == pk && spec_ack_due(
                a.pending[k],
                now,
            );
        assert(a.pending[k].packet.sequence == a.pending[k].sequence);
        if a.pending[k].sequence == sequence {
            assert(a.has_pending(sequence));
        }
    }
}

/// A broadcast delivers to every live connection except the excluded
/// endpoint, and to no one else; an empty registry gets no sends at all.
/// This holds of the unreliable and of the reliable fan-out alike.
pub proof fn lemma_broadcast_coverage(
    cs: Seq<ClientView>,
    m: MessageView,
    exclude: Option<u64>,
    now: u64,
)
    ensures
        cs.len() == 0 ==> unreliable_fanout(cs, m, exclude, now) == Seq::<OutgoingView>::empty()
            && reliable_fanout_sends(cs, m, exclude, now) == Seq::<OutgoingView>::empty(),
        forall|j: int|
            0 <= j < cs.len() && !spec_excluded(#[trigger] cs[j], exclude) ==> unreliable_fanout(
                cs,
                m,
                exclude,
                now,
            ).contains(spec_unreliable_out(cs[j], m, now)),
        forall|k: int|
            0 <= k < unreliable_fanout(cs, m, exclude, now).len() ==> exists|j: int|
                0 <= j < cs.len() && !spec_excluded(cs[j], exclude) && #[trigger] unreliable_fanout(
                    cs,
                    m,
                    exclude,
                    now,
                )[k] == spec_unreliable_out(cs[j], m, now),
        forall|j: int|
            0 <= j < cs.len() && !spec_excluded(#[trigger] cs[j], exclude)
                ==> reliable_fanout_sends(cs, m, exclude, now).contains(
                (OutgoingView { dest: cs[j].addr, packet: reliable_packet_for(cs[j], m, now) }),
            ),
        forall|k: int|
            0 <= k < reliable_fanout_sends(cs, m, exclude, now).len() ==> exists|j: int|
                0 <= j < cs.len() && !spec_excluded(cs[j], exclude)
                    && #[trigger] reliable_fanout_sends(cs, m, exclude, now)[k] == (OutgoingView {
                    dest: cs[j].addr,
                    packet: reliable_packet_for(cs[j], m, now),
                }),
    decreases cs.len(),
{
    if cs.len() > 0 {
        let pre = cs.drop_last();
        lemma_broadcast_coverage(pre, m, exclude, now);
        let uf = unreliable_fanout(cs, m, exclude, now);
        let up = unreliable_fanout(pre, m, exclude, now);
        let rf = reliable_fanout_sends(cs, m, exclude, now);
        let rp = reliable_fanout_sends(pre, m, exclude, now);
        assert forall|j: int|
            0 <= j < cs.len() && !spec_excluded(#[trigger] cs[j], exclude) implies uf.contains(
            spec_unreliable_out(cs[j], m, now),
        ) && rf.contains(
            (OutgoingView { dest: cs[j].addr, packet: reliable_packet_for(cs[j], m, now) }),
        ) by {
            if j < cs.len() - 1 {
                assert(pre[j] == cs[j]);
                let x = choose|x: int|
                    0 <= x < up.len() && up[x] == spec_unreliable_out(pre[j], m, now);
                assert(uf[x] == spec_unreliable_out(cs[j], m, now));
                let y = choose|y: int|
                    0 <= y < rp.len() && rp[y] == (OutgoingView {
                        dest: pre[j].addr,
                        packet: reliable_packet_for(pre[j], m, now),
                    });
                assert(rf[y] == (OutgoingView {
                    dest: cs[j].addr,
                    packet: reliable_packet_for(cs[j], m, now),
                }));
            } else {
                assert(uf[uf.len() - 1] == spec_unreliable_out(cs[j], m, now));
                assert(rf[rf.len() - 1] == (OutgoingView {
                    dest: cs[j].addr,
                    packet: reliable_packet_for(cs[j], m, now),
                }));
            }
        }
        assert forall|k: int| 0 <= k < uf.len() implies exists|j: int|
            0 <= j < cs.len() && !spec_excluded(cs[j], exclude) && #[trigger] uf[k]
                == spec_unreliable_out(cs[j], m, now) by {
            if k < up.len() {
                assert(uf[k] == up[k]);
                let j = choose|j: int|
                    0 <= j < pre.len() && !spec_excluded(pre[j], exclude) && up[k]
                        == spec_unreliable_out(pre[j], m, now);
                assert(uf[k] == spec_unreliable_out(cs[j], m, now) && !spec_excluded(
                    cs[j],
                    exclude,
                ));
            } else {
                assert(uf[k] == spec_unreliable_out(cs[cs.len() - 1], m, now));
            }
        }
        assert forall|k: int| 0 <= k < rf.len() implies exists|j: int|
            0 <= j < cs.len() && !spec_excluded(cs[j], exclude) && #[trigger] rf[k]
                == (OutgoingView {
                dest: cs[j].addr,
                packet: reliable_packet_for(cs[j], m, now),
            }) by {
            if k < rp.len() {
                assert(rf[k] == rp[k]);
                let j = choose|j: int|
                    0 <= j < pre.len() && !spec_excluded(pre[j], exclude) && rp[k]
                        == (OutgoingView {
                        dest: pre[j].addr,
                        packet: reliable_packet_for(pre[j], m, now),
                    });
                assert(rf[k] == (OutgoingView {
                    dest: cs[j].addr,
                    packet: reliable_packet_for(cs[j], m, now),
                }) && !spec_excluded(cs[j], exclude));
            } else {
                assert(rf[k] == (OutgoingView {
                    dest: cs[cs.len() - 1].addr,
                    packet: reliable_packet_for(cs[cs.len() - 1], m, now),
                }));
            }
        }
    }
}

/// An inbound move, action or chat whose embedded identity does not match
/// the originating connection's identity produces no mutation, no send and
/// no store call.
pub proof fn lemma_identity_violation_rejected(
    cs: Seq<ClientView>,
    addr: u64,
    player_id: u128,
    x_bits: u32,
    y_bits: u32,
    action: Seq<u8>,
    message: Seq<u8>,
    sequence: u32,
    reliable: bool,
    now: u64,
)
    requires
        !(has_addr(cs, addr) && cs[addr_idx(cs, addr)].id == player_id),
    ensures
        spec_handle_move(cs, addr, player_id, x_bits, y_bits, sequence, reliable, now) == no_step(
            cs,
        ),
        spec_handle_action(cs, addr, player_id, action, sequence, reliable, now) == no_step(cs),
        spec_handle_chat(cs, addr, player_id, message, sequence, reliable, now) == no_step(cs),
{
}

/// Handling an inbound envelope never evicts: every connection registered
/// before the step keeps its identity and endpoint at its place afterwards.
/// A connection leaves the registry only through the timeout sweep or the
/// host's explicit disconnect.
pub proof fn lemma_dispatch_never_evicts(
    cs: Seq<ClientView>,
    addr: u64,
    p: PacketView,
    session_id: Option<i64>,
    now: u64,
)
    ensures
        spec_handle_packet(cs, addr, p, session_id, now).clients.len() >= cs.len(),
        forall|k: int|
            0 <= k < cs.len() ==> #[trigger] spec_handle_packet(
                cs,
                addr,
                p,
                session_id,
                now,
            ).clients[k].id == cs[k].id && spec_handle_packet(
                cs,
                addr,
                p,
                session_id,
                now,
            ).clients[k].addr == cs[k].addr,
{
    let post = spec_handle_packet(cs, addr, p, session_id, now).clients;
    match p.message {
        MessageView::Heartbeat { player_id, sequence } => {
            if !has_addr(cs, addr) && !has_id(cs, player_id) {
                let name = spec_default_name(player_id);
                let nc = spec_new_client(player_id, addr, name, session_id, now);
                let join = MessageView::PlayerJoin { player_id, name };
                let inserted = clients_after_reliable(cs, join, Some(addr), now).push(nc);
                assert(inserted.len() == cs.len() + 1);
                assert forall|k: int| 0 <= k < cs.len() implies #[trigger] inserted[k].id
                    == cs[k].id && inserted[k].addr == cs[k].addr by {}
                if has_addr(inserted, addr) {
                    let i = addr_idx(inserted, addr);
                    assert(0 <= i < inserted.len());
                    assert forall|k: int| 0 <= k < cs.len() implies #[trigger] post[k].id
                        == cs[k].id && post[k].addr == cs[k].addr by {}
                }
            }
        },
        _ => {},
    }
}

/// A prefix of a pending table extended by one entry.
proof fn lemma_prefix_step_pending(p: Seq<PendingAckView>, i: int, now: u64)
    requires
        0 <= i < p.len(),
    ensures
        p.take(i + 1).drop_last() == p.take(i),
        p.take(i + 1).last() == p[i],
        due_sequences(p.take(i + 1), now) == due_sequences(p.take(i), now) + if spec_ack_due(
            p[i],
            now,
        ) {
            seq![p[i].sequence]
        } else {
            Seq::<u32>::empty()
        },
        due_packets(p.take(i + 1), now) == due_packets(p.take(i), now) + if spec_ack_due(
            p[i],
            now,
        ) {
            seq![p[i].packet]
        } else {
            Seq::<PacketView>::empty()
        },
{
    assert(p.take(i + 1).drop_last() =~= p.take(i));
}

} // verus!
