//! The wire codec of the datagram transport.
//!
//! An envelope is laid out little-endian: the sequence number (4 bytes), the
//! send timestamp in milliseconds (8 bytes), the reliability flag (1 byte,
//! 0 or 1), then the message as a tagged union: a tag byte followed by the
//! variant's fields. Byte strings carry a 4-byte length prefix; a player
//! snapshot is its identity (16 bytes), name, and the four 4-byte fields; a
//! player list carries a 4-byte count. The decoder accepts exactly the
//! encodings this format produces and rejects trailing bytes.

use vstd::bytes::{
    spec_u128_to_le_bytes, spec_u32_to_le_bytes, spec_u64_to_le_bytes, u128_from_le_bytes,
    u128_to_le_bytes, u32_from_le_bytes, u32_to_le_bytes, u64_from_le_bytes, u64_to_le_bytes,
};
use vstd::bytes::{spec_u128_from_le_bytes, spec_u32_from_le_bytes, spec_u64_from_le_bytes};
use vstd::prelude::*;

use crate::message::{GameMessage, MessageView, PacketView, Player, PlayerView, UdpPacket};
use crate::message::players_view;

verus! {

/// A payload that does not decode: not an encoding of this format.
#[derive(Debug, Clone, Copy, PartialEq, Eq, Structural)]
pub struct DecodeError;

/// A player snapshot that fits the wire format: its name fits the 4-byte
/// length prefix.
pub open spec fn player_fits(p: PlayerView) -> bool {
    p.name.len() <= u32::MAX
}

/// A message that fits the wire format: every byte string fits its length
/// prefix and a player list fits its count field.
pub open spec fn msg_fits(m: MessageView) -> bool {
    match m {
        MessageView::PlayerJoin { name, .. } => name.len() <= u32::MAX,
        MessageView::PlayerLeave { .. } => true,
        MessageView::PlayerMove { .. } => true,
        MessageView::PlayerAction { action, data, .. } => action.len() <= u32::MAX && data.len()
            <= u32::MAX,
        MessageView::GameState { players, .. } => players.len() <= u32::MAX && forall|i: int|
            0 <= i < players.len() ==> player_fits(#[trigger] players[i]),
        MessageView::Chat { message, .. } => message.len() <= u32::MAX,
        MessageView::Error { message } => message.len() <= u32::MAX,
        MessageView::Heartbeat { .. } => true,
        MessageView::Ack { .. } => true,
    }
}

/// An envelope that fits the wire format.
pub open spec fn packet_fits(p: PacketView) -> bool {
    msg_fits(p.message)
}

/// A length-prefixed byte string.
pub open spec fn enc_bstr(b: Seq<u8>) -> Seq<u8> {
    spec_u32_to_le_bytes(b.len() as u32) + b
}

/// A player snapshot on the wire.
pub open spec fn enc_player(p: PlayerView) -> Seq<u8> {
    spec_u128_to_le_bytes(p.id) + enc_bstr(p.name) + spec_u32_to_le_bytes(p.x_bits)
        + spec_u32_to_le_bytes(p.y_bits) + spec_u32_to_le_bytes(p.health_bits)
        + spec_u32_to_le_bytes(p.score)
}

/// A player list on the wire, in order.
pub open spec fn enc_players(ps: Seq<PlayerView>) -> Seq<u8>
    decreases ps.len(),
{
    if ps.len() == 0 {
        Seq::empty()
    } else {
        enc_player(ps.first()) + enc_players(ps.drop_first())
    }
}

/// The tag byte of a message variant.
pub open spec fn tag_of(m: MessageView) -> u8 {
    match m {
        MessageView::PlayerJoin { .. } => 0,
        MessageView::PlayerLeave { .. } => 1,
        MessageView::PlayerMove { .. } => 2,
        MessageView::PlayerAction { .. } => 3,
        MessageView::GameState { .. } => 4,
        MessageView::Chat { .. } => 5,
        MessageView::Error { .. } => 6,
        MessageView::Heartbeat { .. } => 7,
        MessageView::Ack { .. } => 8,
    }
}

/// A message on the wire: its tag byte, then its fields.
pub open spec fn enc_message(m: MessageView) -> Seq<u8> {
    seq![tag_of(m)] + match m {
        MessageView::PlayerJoin { player_id, name } => spec_u128_to_le_bytes(player_id)
            + enc_bstr(name),
        MessageView::PlayerLeave { player_id } => spec_u128_to_le_bytes(player_id),
        MessageView::PlayerMove { player_id, x_bits, y_bits } => spec_u128_to_le_bytes(player_id)
            + spec_u32_to_le_bytes(x_bits) + spec_u32_to_le_bytes(y_bits),
        MessageView::PlayerAction { player_id, action, data } => spec_u128_to_le_bytes(player_id)
            + enc_bstr(action) + enc_bstr(data),
        MessageView::GameState { players, timestamp } => spec_u32_to_le_bytes(
            players.len() as u32,
        ) + enc_players(players) + spec_u64_to_le_bytes(timestamp),
        MessageView::Chat { player_id, message } => spec_u128_to_le_bytes(player_id) + enc_bstr(
            message,
        ),
        MessageView::Error { message } => enc_bstr(message),
        MessageView::Heartbeat { player_id, sequence } => spec_u128_to_le_bytes(player_id)
            + spec_u32_to_le_bytes(sequence),
        MessageView::Ack { sequence } => spec_u32_to_le_bytes(sequence),
    }
}

/// An envelope on the wire.
pub open spec fn spec_encode(p: PacketView) -> Seq<u8> {
    spec_u32_to_le_bytes(p.sequence) + spec_u64_to_le_bytes(p.timestamp) + seq![
        if p.reliable {
            1u8
        } else {
            0u8
        },
    ] + enc_message(p.message)
}

/// Reads a 4-byte little-endian integer at a position.
pub open spec fn dec_u32(d: Seq<u8>, i: int) -> Option<(u32, int)> {
    if 0 <= i && i + 4 <= d.len() {
        Some((spec_u32_from_le_bytes(d.subrange(i, i + 4)), i + 4))
    } else {
        None
    }
}

/// Reads an 8-byte little-endian integer at a position.
pub open spec fn dec_u64(d: Seq<u8>, i: int) -> Option<(u64, int)> {
    if 0 <= i && i + 8 <= d.len() {
        Some((spec_u64_from_le_bytes(d.subrange(i, i + 8)), i + 8))
    } else {
        None
    }
}

/// Reads a 16-byte little-endian integer at a position.
pub open spec fn dec_u128(d: Seq<u8>, i: int) -> Option<(u128, int)> {
    if 0 <= i && i + 16 <= d.len() {
        Some((spec_u128_from_le_bytes(d.subrange(i, i + 16)), i + 16))
    } else {
        None
    }
}

/// Reads the reliability flag: one byte that must be 0 or 1.
pub open spec fn dec_bool(d: Seq<u8>, i: int) -> Option<(bool, int)> {
    if 0 <= i && i + 1 <= d.len() {
        if d[i] == 0 {
            Some((false, i + 1))
        } else if d[i] == 1 {
            Some((true, i + 1))
        } else {
            None
        }
    } else {
        None
    }
}

/// Reads a length-prefixed byte string at a position.
pub open spec fn dec_bstr(d: Seq<u8>, i: int) -> Option<(Seq<u8>, int)> {
    match dec_u32(d, i) {
        Some((n, j)) => if j + n <= d.len() {
            Some((d.subrange(j, j + n), j + n))
        } else {
            None
        },
        None => None,
    }
}

/// Reads a player snapshot at a position.
pub open spec fn dec_player(d: Seq<u8>, i: int) -> Option<(PlayerView, int)> {
    match dec_u128(d, i) {
        Some((id, j)) => match dec_bstr(d, j) {
            Some((name, k)) => match dec_u32(d, k) {
                Some((x_bits, l)) => match dec_u32(d, l) {
                    Some((y_bits, m)) => match dec_u32(d, m) {
                        Some((health_bits, n)) => match dec_u32(d, n) {
                            Some((score, e)) => Some(
                                (PlayerView { id, name, x_bits, y_bits, health_bits, score }, e),
                            ),
                            None => None,
                        },
                        None => None,
                    },
                    None => None,
                },
                None => None,
            },
            None => None,
        },
        None => None,
    }
}

/// Reads exactly `k` player snapshots at a position.
pub open spec fn dec_players(d: Seq<u8>, i: int, k: nat) -> Option<(Seq<PlayerView>, int)>
    decreases k,
{
    if k == 0 {
        Some((Seq::empty(), i))
    } else {
        match dec_player(d, i) {
            Some((p, j)) => match dec_players(d, j, (k - 1) as nat) {
                Some((ps, e)) => Some((seq![p] + ps, e)),
                None => None,
            },
            None => None,
        }
    }
}

/// Reads a tagged message at a position.
pub open spec fn dec_message(d: Seq<u8>, i: int) -> Option<(MessageView, int)> {
    if 0 <= i && i < d.len() {
        let tag = d[i];
        let j = i + 1;
        if tag == 0 {
            match dec_u128(d, j) {
                Some((player_id, k)) => match dec_bstr(d, k) {
                    Some((name, e)) => Some((MessageView::PlayerJoin { player_id, name }, e)),
                    None => None,
                },
                None => None,
            }
        } else if tag == 1 {
            match dec_u128(d, j) {
                Some((player_id, e)) => Some((MessageView::PlayerLeave { player_id }, e)),
                None => None,
            }
        } else if tag == 2 {
            match dec_u128(d, j) {
                Some((player_id, k)) => match dec_u32(d, k) {
                    Some((x_bits, l)) => match dec_u32(d, l) {
                        Some((y_bits, e)) => Some(
                            (MessageView::PlayerMove { player_id, x_bits, y_bits }, e),
                        ),
                        None => None,
                    },
                    None => None,
                },
                None => None,
            }
        } else if tag == 3 {
            match dec_u128(d, j) {
                Some((player_id, k)) => match dec_bstr(d, k) {
                    Some((action, l)) => match dec_bstr(d, l) {
                        Some((data, e)) => Some(
                            (MessageView::PlayerAction { player_id, action, data }, e),
                        ),
                        None => None,
                    },
                    None => None,
                },
                None => None,
            }
        } else if tag == 4 {
            match dec_u32(d, j) {
                Some((count, k)) => match dec_players(d, k, count as nat) {
                    Some((players, l)) => match dec_u64(d, l) {
                        Some((timestamp, e)) => Some(
                            (MessageView::GameState { players, timestamp }, e),
                        ),
                        None => None,
                    },
                    None => None,
                },
                None => None,
            }
        } else if tag == 5 {
            match dec_u128(d, j) {
                Some((player_id, k)) => match dec_bstr(d, k) {
                    Some((message, e)) => Some((MessageView::Chat { player_id, message }, e)),
                    None => None,
                },
                None => None,
            }
        } else if tag == 6 {
            match dec_bstr(d, j) {
                Some((message, e)) => Some((MessageView::Error { message }, e)),
                None => None,
            }
        } else if tag == 7 {
            match dec_u128(d, j) {
                Some((player_id, k)) => match dec_u32(d, k) {
                    Some((sequence, e)) => Some(
                        (MessageView::Heartbeat { player_id, sequence }, e),
                    ),
                    None => None,
                },
                None => None,
            }
        } else if tag == 8 {
            match dec_u32(d, j) {
                Some((sequence, e)) => Some((MessageView::Ack { sequence }, e)),
                None => None,
            }
        } else {
            None
        }
    } else {
        None
    }
}

/// Decodes a whole payload as one envelope: header, flag, message, and
/// nothing after it.
pub open spec fn spec_decode(d: Seq<u8>) -> Option<PacketView> {
    match dec_u32(d, 0) {
        Some((sequence, i)) => match dec_u64(d, i) {
            Some((timestamp, j)) => match dec_bool(d, j) {
                Some((reliable, k)) => match dec_message(d, k) {
                    Some((message, e)) => if e == d.len() {
                        Some(PacketView { sequence, timestamp, message, reliable })
                    } else {
                        None
                    },
                    None => None,
                },
                None => None,
            },
            None => None,
        },
        None => None,
    }
}

/// Appends a 4-byte little-endian integer.
fn put_u32(out: &mut Vec<u8>, x: u32)
    ensures
        final(out)@ == old(out)@ + spec_u32_to_le_bytes(x),
{
    let mut b = u32_to_le_bytes(x);
    out.append(&mut b);
}

/// Appends an 8-byte little-endian integer.
fn put_u64(out: &mut Vec<u8>, x: u64)
    ensures
        final(out)@ == old(out)@ + spec_u64_to_le_bytes(x),
{
    let mut b = u64_to_le_bytes(x);
    out.append(&mut b);
}

/// Appends a 16-byte little-endian integer.
fn put_u128(out: &mut Vec<u8>, x: u128)
    ensures
        final(out)@ == old(out)@ + spec_u128_to_le_bytes(x),
{
    let mut b = u128_to_le_bytes(x);
    out.append(&mut b);
}

/// Appends a length-prefixed byte string.
fn put_bstr(out: &mut Vec<u8>, b: &Vec<u8>)
    requires
        b@.len() <= u32::MAX,
    ensures
        final(out)@ == old(out)@ + enc_bstr(b@),
{
    put_u32(out, b.len() as u32);
    let ghost mid = out@;
    let mut i: usize = 0;
    while i < b.len()
        invariant
            i <= b@.len(),
            out@ == mid + b@.take(i as int),
        decreases b@.len() - i,
    {
        out.push(b[i]);
        proof {
            assert(mid + b@.take(i + 1) =~= (mid + b@.take(i as int)).push(b@[i as int]));
        }
        i = i + 1;
    }
    proof {
        assert(b@.take(b@.len() as int) == b@);
        assert(out@ =~= old(out)@ + enc_bstr(b@));
    }
}

/// Appends a player snapshot.
fn put_player(out: &mut Vec<u8>, p: &Player)
    requires
        player_fits(p@),
    ensures
        final(out)@ == old(out)@ + enc_player(p@),
{
    put_u128(out, p.id);
    put_bstr(out, &p.name);
    put_u32(out, p.x_bits);
    put_u32(out, p.y_bits);
    put_u32(out, p.health_bits);
    put_u32(out, p.score);
    proof {
        assert(out@ =~= old(out)@ + enc_player(p@));
    }
}

/// A player list grows at its back on the wire.
proof fn lemma_enc_players_snoc(ps: Seq<PlayerView>)
    requires
        ps.len() > 0,
    ensures
        enc_players(ps) == enc_players(ps.drop_last()) + enc_player(ps.last()),
    decreases ps.len(),
{
    if ps.len() == 1 {
        assert(ps.drop_first() =~= Seq::<PlayerView>::empty());
        assert(ps.drop_last() =~= Seq::<PlayerView>::empty());
        assert(ps.first() == ps.last());
        assert(enc_players(ps) =~= enc_players(ps.drop_last()) + enc_player(ps.last()));
    } else {
        let t = ps.drop_first();
        lemma_enc_players_snoc(t);
        assert(t.last() == ps.last());
        assert(t.drop_last() =~= ps.drop_last().drop_first());
        assert(ps.drop_last().first() == ps.first());
        assert(ps.drop_last().len() > 0);
        assert(enc_players(ps.drop_last()) == enc_player(ps.first()) + enc_players(
            ps.drop_last().drop_first(),
        ));
        assert(enc_players(ps) =~= enc_players(ps.drop_last()) + enc_player(ps.last()));
    }
}

/// Appends a player list.
fn put_players(out: &mut Vec<u8>, ps: &Vec<Player>)
    requires
        forall|i: int| 0 <= i < ps@.len() ==> player_fits(#[trigger] players_view(ps@)[i]),
    ensures
        final(out)@ == old(out)@ + enc_players(players_view(ps@)),
{
    let ghost pv = players_view(ps@);
    let mut i: usize = 0;
    while i < ps.len()
        invariant
            i <= ps@.len(),
            pv == players_view(ps@),
            forall|j: int| 0 <= j < ps@.len() ==> player_fits(#[trigger] pv[j]),
            out@ == old(out)@ + enc_players(pv.take(i as int)),
        decreases ps@.len() - i,
    {
        proof {
            assert(pv.take(i + 1).drop_last() =~= pv.take(i as int));
            lemma_enc_players_snoc(pv.take(i + 1));
        }
        put_player(out, &ps[i]);
        proof {
            assert(out@ =~= old(out)@ + enc_players(pv.take(i + 1)));
        }
        i = i + 1;
    }
    proof {
        assert(pv.take(pv.len() as int) == pv);
    }
}

/// Appends a tagged message.
fn put_message(out: &mut Vec<u8>, m: &GameMessage)
    requires
        msg_fits(m@),
    ensures
        final(out)@ == old(out)@ + enc_message(m@),
{
    match m {
        GameMessage::PlayerJoin { player_id, name } => {
            out.push(0);
            put_u128(out, *player_id);
            put_bstr(out, name);
        },
        GameMessage::PlayerLeave { player_id } => {
            out.push(1);
            put_u128(out, *player_id);
        },
        GameMessage::PlayerMove { player_id, x_bits, y_bits } => {
            out.push(2);
            put_u128(out, *player_id);
            put_u32(out, *x_bits);
            put_u32(out, *y_bits);
        },
        GameMessage::PlayerAction { player_id, action, data } => {
            out.push(3);
            put_u128(out, *player_id);
            put_bstr(out, action);
            put_bstr(out, data);
        },
        GameMessage::GameState { players, timestamp } => {
            out.push(4);
            put_u32(out, players.len() as u32);
            put_players(out, players);
            put_u64(out, *timestamp);
        },
        GameMessage::Chat { player_id, message } => {
            out.push(5);
            put_u128(out, *player_id);
            put_bstr(out, message);
        },
        GameMessage::Error { message } => {
            out.push(6);
            put_bstr(out, message);
        },
        GameMessage::Heartbeat { player_id, sequence } => {
            out.push(7);
            put_u128(out, *player_id);
            put_u32(out, *sequence);
        },
        GameMessage::Ack { sequence } => {
            out.push(8);
            put_u32(out, *sequence);
        },
    }
    proof {
        assert(out@ =~= old(out)@ + enc_message(m@));
    }
}

impl UdpPacket {
    /// Whether this envelope fits the wire format (`packet_fits`), so a host
    /// can test the encoder's precondition at run time. Every envelope the
    /// core builds from decoded input fits; only absurdly long host-supplied
    /// texts or player lists would not.
    pub fn fits_wire(&self) -> (r: bool)
        ensures
            r == packet_fits(self@),
    {
        let cap = u32::MAX as usize;
        match &self.message {
            GameMessage::PlayerJoin { player_id: _, name } => name.len() <= cap,
            GameMessage::PlayerLeave { .. } => true,
            GameMessage::PlayerMove { .. } => true,
            GameMessage::PlayerAction { player_id: _, action, data } => action.len() <= cap
                && data.len() <= cap,
            GameMessage::GameState { players, timestamp } => {
                proof {
                    assert(self@.message == (MessageView::GameState {
                        players: players_view(players@),
                        timestamp: *timestamp,
                    }));
                }
                if players.len() > cap {
                    return false;
                }
                let mut i: usize = 0;
                while i < players.len()
                    invariant
                        i <= players@.len(),
                        self@.message == (MessageView::GameState {
                            players: players_view(players@),
                            timestamp: *timestamp,
                        }),
                        players_view(players@).len() <= u32::MAX,
                        forall|j: int|
                            0 <= j < i ==> player_fits(#[trigger] players_view(players@)[j]),
                    decreases players@.len() - i,
                {
                    if players[i].name.len() > u32::MAX as usize {
                        proof {
                            assert(players_view(players@)[i as int] == players@[i as int]@);
                            assert(!player_fits(players_view(players@)[i as int]));
                            assert(!msg_fits(self@.message));
                        }
                        return false;
                    }
                    proof {
                        assert(players_view(players@)[i as int] == players@[i as int]@);
                        assert(player_fits(players_view(players@)[i as int]));
                    }
                    i = i + 1;
                }
                true
            },
            GameMessage::Chat { player_id: _, message } => message.len() <= cap,
            GameMessage::Error { message } => message.len() <= cap,
            GameMessage::Heartbeat { .. } => true,
            GameMessage::Ack { .. } => true,
        }
    }

    /// Encodes this envelope for the wire. Encoding is a function of the
    /// envelope's model alone, so re-encoding a stored envelope always gives
    /// byte-identical output.
    pub fn serialize(&self) -> (out: Vec<u8>)
        requires
            packet_fits(self@),
        ensures
            out@ == spec_encode(self@),
    {
        let mut out: Vec<u8> = Vec::new();
        put_u32(&mut out, self.sequence);
        put_u64(&mut out, self.timestamp);
        if self.reliable {
            out.push(1);
        } else {
            out.push(0);
        }
        put_message(&mut out, &self.message);
        proof {
            assert(out@ =~= spec_encode(self@));
        }
        out
    }
}

/// Reads a 4-byte little-endian integer.
fn read_u32(d: &[u8], i: usize) -> (r: u32)
    requires
        i + 4 <= d@.len(),
    ensures
        r == spec_u32_from_le_bytes(d@.subrange(i as int, i as int + 4)),
{
    let n = d.len();
    u32_from_le_bytes(&d[i..i + 4])
}

/// Reads an 8-byte little-endian integer.
fn read_u64(d: &[u8], i: usize) -> (r: u64)
    requires
        i + 8 <= d@.len(),
    ensures
        r == spec_u64_from_le_bytes(d@.subrange(i as int, i as int + 8)),
{
    let n = d.len();
    u64_from_le_bytes(&d[i..i + 8])
}

/// Reads a 16-byte little-endian integer.
fn read_u128(d: &[u8], i: usize) -> (r: u128)
    requires
        i + 16 <= d@.len(),
    ensures
        r == spec_u128_from_le_bytes(d@.subrange(i as int, i as int + 16)),
{
    let n = d.len();
    u128_from_le_bytes(&d[i..i + 16])
}

/// Reads a length-prefixed byte string.
fn read_bstr(d: &[u8], i: usize) -> (r: Result<(Vec<u8>, usize), DecodeError>)
    ensures
        match r {
            Ok(bj) => dec_bstr(d@, i as int) == Some((bj.0@, bj.1 as int)) && bj.1 <= d@.len()
                && bj.0@.len() <= u32::MAX,
            Err(_) => dec_bstr(d@, i as int) is None,
        },
{
    let n = d.len();
    if n < 4 || i > n - 4 {
        return Err(DecodeError);
    }
    let len32 = read_u32(d, i);
    let j = i + 4;
    let m = len32 as usize;
    if m > n - j {
        return Err(DecodeError);
    }
    proof {
        assert(j + m <= n);
    }
    let mut b: Vec<u8> = Vec::new();
    let mut k: usize = 0;
    while k < m
        invariant
            k <= m,
            n == d@.len(),
            j + m <= n,
            b@ == d@.subrange(j as int, j as int + k as int),
        decreases m - k,
    {
        b.push(d[j + k]);
        proof {
            assert(d@.subrange(j as int, j as int + (k + 1)) =~= d@.subrange(
                j as int,
                j as int + k as int,
            ).push(d@[j as int + k as int]));
        }
        k = k + 1;
    }
    Ok((b, j + m))
}

/// Reads a player snapshot.
fn read_player(d: &[u8], i: usize) -> (r: Result<(Player, usize), DecodeError>)
    ensures
        match r {
            Ok(pj) => dec_player(d@, i as int) == Some((pj.0@, pj.1 as int)) && i <= pj.1
                <= d@.len() && player_fits(pj.0@),
            Err(_) => dec_player(d@, i as int) is None,
        },
{
    let n = d.len();
    if n < 16 || i > n - 16 {
        return Err(DecodeError);
    }
    let id = read_u128(d, i);
    let (name, j) = match read_bstr(d, i + 16) {
        Ok(x) => x,
        Err(e) => {
            return Err(e);
        },
    };
    if n - j < 16 {
        return Err(DecodeError);
    }
    let x_bits = read_u32(d, j);
    let y_bits = read_u32(d, j + 4);
    let health_bits = read_u32(d, j + 8);
    let score = read_u32(d, j + 12);
    let p = Player { id, name, x_bits, y_bits, health_bits, score };
    Ok((p, j + 16))
}

/// Reads exactly `count` player snapshots.
fn read_players(d: &[u8], i: usize, count: u32) -> (r: Result<(Vec<Player>, usize), DecodeError>)
    requires
        i <= d@.len(),
    ensures
        match r {
            Ok(pj) => dec_players(d@, i as int, count as nat) == Some(
                (players_view(pj.0@), pj.1 as int),
            ) && pj.1 <= d@.len() && pj.0@.len() == count && forall|x: int|
                0 <= x < pj.0@.len() ==> player_fits(#[trigger] players_view(pj.0@)[x]),
            Err(_) => dec_players(d@, i as int, count as nat) is None,
        },
{
    let mut players: Vec<Player> = Vec::new();
    let mut pos: usize = i;
    let mut k: u32 = 0;
    while k < count
        invariant
            k <= count,
            pos <= d@.len(),
            players@.len() == k,
            forall|x: int| 0 <= x < players@.len() ==> player_fits(#[trigger] players_view(players@)[x]),
            match dec_players(d@, pos as int, (count - k) as nat) {
                Some((ps, e)) => dec_players(d@, i as int, count as nat) == Some(
                    (players_view(players@) + ps, e),
                ),
                None => dec_players(d@, i as int, count as nat) is None,
            },
        decreases count - k,
    {
        match read_player(d, pos) {
            Ok((p, np)) => {
                let ghost prev = players_view(players@);
                players.push(p);
                proof {
                    assert(players_view(players@) =~= prev.push(p@));
                    lemma_dec_players_step(d@, pos as int, (count - k) as nat, prev, p@, np as int);
                }
                pos = np;
            },
            Err(e) => {
                return Err(e);
            },
        }
        k = k + 1;
    }
    proof {
        assert(dec_players(d@, pos as int, 0) == Some((Seq::<PlayerView>::empty(), pos as int)));
        assert(players_view(players@) + Seq::<PlayerView>::empty() =~= players_view(players@));
    }
    Ok((players, pos))
}

/// One step of the player-list parse: a parsed head extends the collected
/// prefix.
proof fn lemma_dec_players_step(
    d: Seq<u8>,
    pos: int,
    left: nat,
    prev: Seq<PlayerView>,
    p: PlayerView,
    np: int,
)
    requires
        left > 0,
        dec_player(d, pos) == Some((p, np)),
    ensures
        match dec_players(d, np, (left - 1) as nat) {
            Some((ps, e)) => dec_players(d, pos, left) == Some((seq![p] + ps, e)),
            None => dec_players(d, pos, left) is None,
        },
        match dec_players(d, np, (left - 1) as nat) {
            Some((ps, e)) => prev.push(p) + ps =~= prev + (seq![p] + ps),
            None => true,
        },
{
}

/// Reads a tagged message.
fn decode_message(d: &[u8], pos: usize) -> (r: Result<(GameMessage, usize), DecodeError>)
    ensures
        match r {
            Ok(mp) => dec_message(d@, pos as int) == Some((mp.0@, mp.1 as int)) && mp.1 <= d@.len()
                && msg_fits(mp.0@),
            Err(_) => dec_message(d@, pos as int) is None,
        },
{
    let n = d.len();
    if pos >= n {
        return Err(DecodeError);
    }
    let tag = d[pos];
    let i = pos + 1;
    if tag == 0 {
        if n < 16 || i > n - 16 {
            return Err(DecodeError);
        }
        let player_id = read_u128(d, i);
        let (name, e) = match read_bstr(d, i + 16) {
            Ok(x) => x,
            Err(er) => {
                return Err(er);
            },
        };
        Ok((GameMessage::PlayerJoin { player_id, name }, e))
    } else if tag == 1 {
        if n < 16 || i > n - 16 {
            return Err(DecodeError);
        }
        let player_id = read_u128(d, i);
        Ok((GameMessage::PlayerLeave { player_id }, i + 16))
    } else if tag == 2 {
        if n < 24 || i > n - 24 {
            return Err(DecodeError);
        }
        let player_id = read_u128(d, i);
        let x_bits = read_u32(d, i + 16);
        let y_bits = read_u32(d, i + 20);
        Ok((GameMessage::PlayerMove { player_id, x_bits, y_bits }, i + 24))
    } else if tag == 3 {
        if n < 16 || i > n - 16 {
            return Err(DecodeError);
        }
        let player_id = read_u128(d, i);
        let (action, l) = match read_bstr(d, i + 16) {
            Ok(x) => x,
            Err(er) => {
                return Err(er);
            },
        };
        let (data, e) = match read_bstr(d, l) {
            Ok(x) => x,
            Err(er) => {
                return Err(er);
            },
        };
        Ok((GameMessage::PlayerAction { player_id, action, data }, e))
    } else if tag == 4 {
        if n < 4 || i > n - 4 {
            return Err(DecodeError);
        }
        let count = read_u32(d, i);
        let (players, l) = match read_players(d, i + 4, count) {
            Ok(x) => x,
            Err(er) => {
                return Err(er);
            },
        };
        if n < 8 || l > n - 8 {
            proof {
                assert(dec_u64(d@, l as int) is None);
            }
            return Err(DecodeError);
        }
        let timestamp = read_u64(d, l);
        let m = GameMessage::GameState { players, timestamp };
        proof {
            assert(players_view(players@).len() == players@.len());
            assert(msg_fits(m@));
        }
        Ok((m, l + 8))
    } else if tag == 5 {
        if n < 16 || i > n - 16 {
            return Err(DecodeError);
        }
        let player_id = read_u128(d, i);
        let (message, e) = match read_bstr(d, i + 16) {
            Ok(x) => x,
            Err(er) => {
                return Err(er);
            },
        };
        Ok((GameMessage::Chat { player_id, message }, e))
    } else if tag == 6 {
        let (message, e) = match read_bstr(d, i) {
            Ok(x) => x,
            Err(er) => {
                return Err(er);
            },
        };
        Ok((GameMessage::Error { message }, e))
    } else if tag == 7 {
        if n < 20 || i > n - 20 {
            return Err(DecodeError);
        }
        let player_id = read_u128(d, i);
        let sequence = read_u32(d, i + 16);
        Ok((GameMessage::Heartbeat { player_id, sequence }, i + 20))
    } else if tag == 8 {
        if n < 4 || i > n - 4 {
            return Err(DecodeError);
        }
        let sequence = read_u32(d, i);
        Ok((GameMessage::Ack { sequence }, i + 4))
    } else {
        Err(DecodeError)
    }
}

impl UdpPacket {
    /// Decodes one payload as an envelope. Succeeds on exactly the payloads
    /// this format produces — `spec_decode` says which, and which envelope
    /// comes back; anything else (truncated, a bad tag or flag, trailing
    /// bytes) is a `DecodeError` with no other effect.
    pub fn deserialize(data: &[u8]) -> (r: Result<UdpPacket, DecodeError>)
        ensures
            match r {
                Ok(p) => spec_decode(data@) == Some(p@) && packet_fits(p@),
                Err(_) => spec_decode(data@) is None,
            },
    {
        let n = data.len();
        if n < 4 {
            return Err(DecodeError);
        }
        let sequence = read_u32(data, 0);
        if n < 12 {
            proof {
                assert(dec_u64(data@, 4) is None);
            }
            return Err(DecodeError);
        }
        let timestamp = read_u64(data, 4);
        if n < 13 {
            proof {
                assert(dec_bool(data@, 12) is None);
            }
            return Err(DecodeError);
        }
        let rb = data[12];
        let reliable = if rb == 0 {
            false
        } else if rb == 1 {
            true
        } else {
            return Err(DecodeError);
        };
        let (message, e) = match decode_message(data, 13) {
            Ok(x) => x,
            Err(er) => {
                return Err(er);
            },
        };
        if e != n {
            return Err(DecodeError);
        }
        Ok(UdpPacket { sequence, timestamp, message, reliable })
    }
}

/// Splitting a window that holds a concatenation.
proof fn lemma_subrange_split(d: Seq<u8>, i: int, a: Seq<u8>, b: Seq<u8>)
    requires
        0 <= i,
        i + a.len() + b.len() <= d.len(),
        d.subrange(i, i + a.len() + b.len()) == a + b,
    ensures
        d.subrange(i, i + a.len()) == a,
        d.subrange(i + a.len(), i + a.len() + b.len()) == b,
{
    let w = d.subrange(i, i + a.len() + b.len());
    assert forall|k: int| 0 <= k < a.len() implies d.subrange(i, i + a.len())[k] == a[k] by {
        assert(w[k] == (a + b)[k]);
    }
    assert(d.subrange(i, i + a.len()) =~= a);
    assert forall|k: int| 0 <= k < b.len() implies d.subrange(
        i + a.len(),
        i + a.len() + b.len(),
    )[k] == b[k] by {
        assert(w[a.len() + k] == (a + b)[a.len() + k]);
    }
    assert(d.subrange(i + a.len(), i + a.len() + b.len()) =~= b);
}

/// The fixed-width integers decode back at their position.
proof fn lemma_dec_ints_at(d: Seq<u8>, i: int)
    ensures
        forall|x: u32|
            0 <= i && i + 4 <= d.len() && d.subrange(i, i + 4) == spec_u32_to_le_bytes(x)
                ==> dec_u32(d, i) == Some((x, i + 4)),
        forall|x: u64|
            0 <= i && i + 8 <= d.len() && d.subrange(i, i + 8) == spec_u64_to_le_bytes(x)
                ==> dec_u64(d, i) == Some((x, i + 8)),
        forall|x: u128|
            0 <= i && i + 16 <= d.len() && d.subrange(i, i + 16) == spec_u128_to_le_bytes(x)
                ==> dec_u128(d, i) == Some((x, i + 16)),
{
    assert forall|x: u32|
        0 <= i && i + 4 <= d.len() && d.subrange(i, i + 4) == spec_u32_to_le_bytes(x)
            implies dec_u32(d, i) == Some((x, i + 4)) by {
        vstd::bytes::lemma_auto_spec_u32_to_from_le_bytes();
        assert(spec_u32_to_le_bytes(x).len() == 4);
        assert(spec_u32_from_le_bytes(spec_u32_to_le_bytes(x)) == x);
    }
    assert forall|x: u64|
        0 <= i && i + 8 <= d.len() && d.subrange(i, i + 8) == spec_u64_to_le_bytes(x)
            implies dec_u64(d, i) == Some((x, i + 8)) by {
        vstd::bytes::lemma_auto_spec_u64_to_from_le_bytes();
        assert(spec_u64_to_le_bytes(x).len() == 8);
        assert(spec_u64_from_le_bytes(spec_u64_to_le_bytes(x)) == x);
    }
    assert forall|x: u128|
        0 <= i && i + 16 <= d.len() && d.subrange(i, i + 16) == spec_u128_to_le_bytes(x)
            implies dec_u128(d, i) == Some((x, i + 16)) by {
        vstd::bytes::lemma_auto_spec_u128_to_from_le_bytes();
        assert(spec_u128_to_le_bytes(x).len() == 16);
        assert(spec_u128_from_le_bytes(spec_u128_to_le_bytes(x)) == x);
    }
}

/// A length-prefixed byte string decodes back at its position.
proof fn lemma_dec_bstr_at(d: Seq<u8>, i: int, b: Seq<u8>)
    requires
        b.len() <= u32::MAX,
        0 <= i,
        i + enc_bstr(b).len() <= d.len(),
        d.subrange(i, i + enc_bstr(b).len()) == enc_bstr(b),
    ensures
        enc_bstr(b).len() == 4 + b.len(),
        dec_bstr(d, i) == Some((b, i + 4 + b.len())),
{
    vstd::bytes::lemma_auto_spec_u32_to_from_le_bytes();
    lemma_subrange_split(d, i, spec_u32_to_le_bytes(b.len() as u32), b);
    lemma_dec_ints_at(d, i);
    assert(dec_u32(d, i) == Some((b.len() as u32, i + 4)));
}

/// A player snapshot decodes back at its position.
proof fn lemma_dec_player_at(d: Seq<u8>, i: int, p: PlayerView)
    requires
        player_fits(p),
        0 <= i,
        i + enc_player(p).len() <= d.len(),
        d.subrange(i, i + enc_player(p).len()) == enc_player(p),
    ensures
        enc_player(p).len() == 36 + p.name.len(),
        dec_player(d, i) == Some((p, i + enc_player(p).len())),
{
    vstd::bytes::lemma_auto_spec_u32_to_from_le_bytes();
    vstd::bytes::lemma_auto_spec_u128_to_from_le_bytes();
    let a = spec_u128_to_le_bytes(p.id);
    let b = enc_bstr(p.name);
    let c = spec_u32_to_le_bytes(p.x_bits);
    let e = spec_u32_to_le_bytes(p.y_bits);
    let f = spec_u32_to_le_bytes(p.health_bits);
    let g = spec_u32_to_le_bytes(p.score);
    assert(enc_player(p) =~= a + (b + (c + (e + (f + g)))));
    lemma_subrange_split(d, i, a, b + (c + (e + (f + g))));
    let i1 = i + 16;
    lemma_subrange_split(d, i1, b, c + (e + (f + g)));
    let i2 = i1 + b.len();
    lemma_subrange_split(d, i2, c, e + (f + g));
    let i3 = i2 + 4;
    lemma_subrange_split(d, i3, e, f + g);
    let i4 = i3 + 4;
    lemma_subrange_split(d, i4, f, g);
    let i5 = i4 + 4;
    assert(d.subrange(i5, i5 + 4) == g);
    lemma_dec_ints_at(d, i);
    lemma_dec_bstr_at(d, i1, p.name);
    lemma_dec_ints_at(d, i2);
    lemma_dec_ints_at(d, i3);
    lemma_dec_ints_at(d, i4);
    lemma_dec_ints_at(d, i5);
}

/// A player list decodes back at its position, element by element.
proof fn lemma_dec_players_at(d: Seq<u8>, i: int, ps: Seq<PlayerView>)
    requires
        forall|k: int| 0 <= k < ps.len() ==> player_fits(#[trigger] ps[k]),
        0 <= i,
        i + enc_players(ps).len() <= d.len(),
        d.subrange(i, i + enc_players(ps).len()) == enc_players(ps),
    ensures
        dec_players(d, i, ps.len() as nat) == Some((ps, i + enc_players(ps).len())),
    decreases ps.len(),
{
    if ps.len() == 0 {
        assert(dec_players(d, i, 0) == Some((Seq::<PlayerView>::empty(), i)));
        assert(ps =~= Seq::<PlayerView>::empty());
    } else {
        let p = ps.first();
        let rest = ps.drop_first();
        lemma_subrange_split(d, i, enc_player(p), enc_players(rest));
        lemma_dec_player_at(d, i, p);
        let j = i + enc_player(p).len();
        lemma_dec_players_at(d, j, rest);
        assert(seq![p] + rest =~= ps);
    }
}

/// Decoding inverts encoding: every envelope that fits the wire format comes
/// back from its own bytes, exactly.
pub proof fn lemma_decode_encode(p: PacketView)
    requires
        packet_fits(p),
    ensures
        spec_decode(spec_encode(p)) == Some(p),
{
    vstd::bytes::lemma_auto_spec_u32_to_from_le_bytes();
    vstd::bytes::lemma_auto_spec_u64_to_from_le_bytes();
    vstd::bytes::lemma_auto_spec_u128_to_from_le_bytes();
    let d = spec_encode(p);
    let a = spec_u32_to_le_bytes(p.sequence);
    let b = spec_u64_to_le_bytes(p.timestamp);
    let r = seq![if p.reliable { 1u8 } else { 0u8 }];
    let m = enc_message(p.message);
    assert(d =~= a + (b + (r + m)));
    assert(d.subrange(0, d.len() as int) =~= d);
    lemma_subrange_split(d, 0, a, b + (r + m));
    lemma_subrange_split(d, 4, b, r + m);
    lemma_subrange_split(d, 12, r, m);
    lemma_dec_ints_at(d, 0);
    lemma_dec_ints_at(d, 4);
    assert(dec_u32(d, 0) == Some((p.sequence, 4int)));
    assert(dec_u64(d, 4) == Some((p.timestamp, 12int)));
    assert(d[12] == r[0]);
    assert(dec_bool(d, 12) == Some((p.reliable, 13int)));
    assert(d.subrange(13, 13 + m.len() as int) == m);
    lemma_dec_message_at(d, 13, p.message);
    assert(13 + m.len() as int == d.len() as int);
}

/// A message decodes back at its position.
proof fn lemma_dec_message_at(d: Seq<u8>, i: int, m: MessageView)
    requires
        msg_fits(m),
        0 <= i,
        i + enc_message(m).len() <= d.len(),
        d.subrange(i, i + enc_message(m).len()) == enc_message(m),
    ensures
        dec_message(d, i) == Some((m, i + enc_message(m).len())),
{
    vstd::bytes::lemma_auto_spec_u32_to_from_le_bytes();
    vstd::bytes::lemma_auto_spec_u64_to_from_le_bytes();
    vstd::bytes::lemma_auto_spec_u128_to_from_le_bytes();
    let t = seq![tag_of(m)];
    let body = enc_message(m).skip(1);
    assert(enc_message(m) =~= t + body);
    lemma_subrange_split(d, i, t, body);
    assert(d[i] == d.subrange(i, i + 1)[0]);
    assert(d[i] == tag_of(m));
    let j = i + 1;
    match m {
        MessageView::PlayerJoin { player_id, name } => {
            let a = spec_u128_to_le_bytes(player_id);
            assert(body =~= a + enc_bstr(name));
            lemma_subrange_split(d, j, a, enc_bstr(name));
            lemma_dec_ints_at(d, j);
            lemma_dec_bstr_at(d, j + 16, name);
        },
        MessageView::PlayerLeave { player_id } => {
            let a = spec_u128_to_le_bytes(player_id);
            assert(body =~= a);
            lemma_dec_ints_at(d, j);
        },
        MessageView::PlayerMove { player_id, x_bits, y_bits } => {
            let a = spec_u128_to_le_bytes(player_id);
            let x = spec_u32_to_le_bytes(x_bits);
            let y = spec_u32_to_le_bytes(y_bits);
            assert(body =~= a + (x + y));
            lemma_subrange_split(d, j, a, x + y);
            lemma_subrange_split(d, j + 16, x, y);
            lemma_dec_ints_at(d, j);
            lemma_dec_ints_at(d, j + 16);
            lemma_dec_ints_at(d, j + 20);
        },
        MessageView::PlayerAction { player_id, action, data } => {
            let a = spec_u128_to_le_bytes(player_id);
            assert(body =~= a + (enc_bstr(action) + enc_bstr(data)));
            lemma_subrange_split(d, j, a, enc_bstr(action) + enc_bstr(data));
            lemma_subrange_split(d, j + 16, enc_bstr(action), enc_bstr(data));
            lemma_dec_ints_at(d, j);
            lemma_dec_bstr_at(d, j + 16, action);
            lemma_dec_bstr_at(d, j + 16 + enc_bstr(action).len(), data);
        },
        MessageView::GameState { players, timestamp } => {
            let c = spec_u32_to_le_bytes(players.len() as u32);
            let ep = enc_players(players);
            let ts = spec_u64_to_le_bytes(timestamp);
            assert(body =~= c + (ep + ts));
            lemma_subrange_split(d, j, c, ep + ts);
            lemma_subrange_split(d, j + 4, ep, ts);
            lemma_dec_ints_at(d, j);
            assert(dec_u32(d, j) == Some((players.len() as u32, j + 4)));
            lemma_dec_players_at(d, j + 4, players);
            assert((players.len() as u32) as nat == players.len());
            lemma_dec_ints_at(d, j + 4 + ep.len());
        },
        MessageView::Chat { player_id, message } => {
            let a = spec_u128_to_le_bytes(player_id);
            assert(body =~= a + enc_bstr(message));
            lemma_subrange_split(d, j, a, enc_bstr(message));
            lemma_dec_ints_at(d, j);
            lemma_dec_bstr_at(d, j + 16, message);
        },
        MessageView::Error { message } => {
            assert(body =~= enc_bstr(message));
            lemma_dec_bstr_at(d, j, message);
        },
        MessageView::Heartbeat { player_id, sequence } => {
            let a = spec_u128_to_le_bytes(player_id);
            let s = spec_u32_to_le_bytes(sequence);
            assert(body =~= a + s);
            lemma_subrange_split(d, j, a, s);
            lemma_dec_ints_at(d, j);
            lemma_dec_ints_at(d, j + 16);
        },
        MessageView::Ack { sequence } => {
            let s = spec_u32_to_le_bytes(sequence);
            assert(body =~= s);
            lemma_dec_ints_at(d, j);
        },
    }
}

/// Adjacent windows concatenate.
proof fn lemma_subrange_concat(d: Seq<u8>, a: int, b: int, c: int)
    requires
        0 <= a <= b <= c <= d.len(),
    ensures
        d.subrange(a, c) == d.subrange(a, b) + d.subrange(b, c),
{
    assert(d.subrange(a, c) =~= d.subrange(a, b) + d.subrange(b, c));
}

/// What the fixed-width readers accepted re-encodes to the bytes they read.
proof fn lemma_enc_dec_ints(d: Seq<u8>, i: int)
    ensures
        forall|x: u32, e: int|
            dec_u32(d, i) == Some((x, e)) ==> e == i + 4 && i >= 0 && e <= d.len()
                && d.subrange(i, e) == spec_u32_to_le_bytes(x),
        forall|x: u64, e: int|
            dec_u64(d, i) == Some((x, e)) ==> e == i + 8 && i >= 0 && e <= d.len()
                && d.subrange(i, e) == spec_u64_to_le_bytes(x),
        forall|x: u128, e: int|
            dec_u128(d, i) == Some((x, e)) ==> e == i + 16 && i >= 0 && e <= d.len()
                && d.subrange(i, e) == spec_u128_to_le_bytes(x),
{
    vstd::bytes::lemma_auto_spec_u32_to_from_le_bytes();
    vstd::bytes::lemma_auto_spec_u64_to_from_le_bytes();
    vstd::bytes::lemma_auto_spec_u128_to_from_le_bytes();
}

/// What the byte-string reader accepted re-encodes to the bytes it read.
proof fn lemma_enc_dec_bstr(d: Seq<u8>, i: int, b: Seq<u8>, e: int)
    requires
        dec_bstr(d, i) == Some((b, e)),
    ensures
        i >= 0,
        i + 4 <= e <= d.len(),
        b.len() <= u32::MAX,
        d.subrange(i, e) == enc_bstr(b),
{
    vstd::bytes::lemma_auto_spec_u32_to_from_le_bytes();
    let n = spec_u32_from_le_bytes(d.subrange(i, i + 4));
    assert(b == d.subrange(i + 4, i + 4 + n));
    assert(b.len() == n);
    assert(spec_u32_to_le_bytes(b.len() as u32) == d.subrange(i, i + 4));
    lemma_subrange_concat(d, i, i + 4, e);
}

/// What the player reader accepted re-encodes to the bytes it read.
proof fn lemma_enc_dec_player(d: Seq<u8>, i: int, p: PlayerView, e: int)
    requires
        dec_player(d, i) == Some((p, e)),
    ensures
        0 <= i <= e <= d.len(),
        player_fits(p),
        d.subrange(i, e) == enc_player(p),
{
    lemma_enc_dec_ints(d, i);
    let j = i + 16;
    let (name, k) = dec_bstr(d, j).unwrap();
    lemma_enc_dec_bstr(d, j, name, k);
    lemma_enc_dec_ints(d, k);
    lemma_enc_dec_ints(d, k + 4);
    lemma_enc_dec_ints(d, k + 8);
    lemma_enc_dec_ints(d, k + 12);
    lemma_subrange_concat(d, k, k + 4, e);
    lemma_subrange_concat(d, k, k + 8, e);
    lemma_subrange_concat(d, k, k + 12, e);
    lemma_subrange_concat(d, j, k, e);
    lemma_subrange_concat(d, i, j, e);
    assert(d.subrange(i, e) =~= enc_player(p));
}

/// What the player-list reader accepted re-encodes to the bytes it read.
proof fn lemma_enc_dec_players(d: Seq<u8>, i: int, k: nat, ps: Seq<PlayerView>, e: int)
    requires
        dec_players(d, i, k) == Some((ps, e)),
        0 <= i <= d.len(),
    ensures
        i <= e <= d.len(),
        ps.len() == k,
        forall|x: int| 0 <= x < ps.len() ==> player_fits(#[trigger] ps[x]),
        d.subrange(i, e) == enc_players(ps),
    decreases k,
{
    if k == 0 {
        assert(ps =~= Seq::<PlayerView>::empty());
        assert(d.subrange(i, i) =~= enc_players(ps));
    } else {
        let (p, j) = dec_player(d, i).unwrap();
        let (rest, e2) = dec_players(d, j, (k - 1) as nat).unwrap();
        lemma_enc_dec_player(d, i, p, j);
        lemma_enc_dec_players(d, j, (k - 1) as nat, rest, e2);
        assert(ps == seq![p] + rest);
        assert(ps.first() == p);
        assert(ps.drop_first() =~= rest);
        lemma_subrange_concat(d, i, j, e);
        assert(d.subrange(i, e) == enc_player(p) + enc_players(rest));
        assert(enc_players(ps) == enc_player(p) + enc_players(rest));
    }
}

/// What the message reader accepted re-encodes to the bytes it read.
proof fn lemma_enc_dec_message(d: Seq<u8>, i: int, m: MessageView, e: int)
    requires
        dec_message(d, i) == Some((m, e)),
    ensures
        0 <= i < e <= d.len(),
        msg_fits(m),
        d.subrange(i, e) == enc_message(m),
{
    let tag = d[i];
    let j = i + 1;
    assert(d.subrange(i, j) =~= seq![tag]);
    match m {
        MessageView::PlayerJoin { player_id, name } => {
            lemma_enc_dec_ints(d, j);
            lemma_enc_dec_bstr(d, j + 16, name, e);
            lemma_subrange_concat(d, j, j + 16, e);
            lemma_subrange_concat(d, i, j, e);
            assert(d.subrange(i, e) =~= enc_message(m));
        },
        MessageView::PlayerLeave { player_id } => {
            lemma_enc_dec_ints(d, j);
            lemma_subrange_concat(d, i, j, e);
            assert(d.subrange(i, e) =~= enc_message(m));
        },
        MessageView::PlayerMove { player_id, x_bits, y_bits } => {
            lemma_enc_dec_ints(d, j);
            lemma_enc_dec_ints(d, j + 16);
            lemma_enc_dec_ints(d, j + 20);
            lemma_subrange_concat(d, j + 16, j + 20, e);
            lemma_subrange_concat(d, j, j + 16, e);
            lemma_subrange_concat(d, i, j, e);
            assert(d.subrange(i, e) =~= enc_message(m));
        },
        MessageView::PlayerAction { player_id, action, data } => {
            lemma_enc_dec_ints(d, j);
            let (_a, l) = dec_bstr(d, j + 16).unwrap();
            lemma_enc_dec_bstr(d, j + 16, action, l);
            lemma_enc_dec_bstr(d, l, data, e);
            lemma_subrange_concat(d, j + 16, l, e);
            lemma_subrange_concat(d, j, j + 16, e);
            lemma_subrange_concat(d, i, j, e);
            assert(d.subrange(i, e) =~= enc_message(m));
        },
        MessageView::GameState { players, timestamp } => {
            lemma_enc_dec_ints(d, j);
            let (count, k) = dec_u32(d, j).unwrap();
            let (_ps, l) = dec_players(d, k, count as nat).unwrap();
            lemma_enc_dec_players(d, k, count as nat, players, l);
            lemma_enc_dec_ints(d, l);
            assert(players.len() == count as nat);
            assert(spec_u32_to_le_bytes(players.len() as u32) == d.subrange(j, k));
            lemma_subrange_concat(d, k, l, e);
            lemma_subrange_concat(d, j, k, e);
            lemma_subrange_concat(d, i, j, e);
            assert(d.subrange(i, e) =~= enc_message(m));
        },
        MessageView::Chat { player_id, message } => {
            lemma_enc_dec_ints(d, j);
            lemma_enc_dec_bstr(d, j + 16, message, e);
            lemma_subrange_concat(d, j, j + 16, e);
            lemma_subrange_concat(d, i, j, e);
            assert(d.subrange(i, e) =~= enc_message(m));
        },
        MessageView::Error { message } => {
            lemma_enc_dec_bstr(d, j, message, e);
            lemma_subrange_concat(d, i, j, e);
            assert(d.subrange(i, e) =~= enc_message(m));
        },
        MessageView::Heartbeat { player_id, sequence } => {
            lemma_enc_dec_ints(d, j);
            lemma_enc_dec_ints(d, j + 16);
            lemma_subrange_concat(d, j, j + 16, e);
            lemma_subrange_concat(d, i, j, e);
            assert(d.subrange(i, e) =~= enc_message(m));
        },
        MessageView::Ack { sequence } => {
            lemma_enc_dec_ints(d, j);
            lemma_subrange_concat(d, i, j, e);
            assert(d.subrange(i, e) =~= enc_message(m));
        },
    }
}

/// Encoding inverts decoding: a payload the decoder accepts is exactly the
/// encoding of the envelope it returns. With `lemma_decode_encode` this
/// makes the codec a bijection between well-formed envelopes and valid
/// payloads.
pub proof fn lemma_encode_decode(d: Seq<u8>, p: PacketView)
    requires
        spec_decode(d) == Some(p),
    ensures
        packet_fits(p),
        spec_encode(p) == d,
{
    lemma_enc_dec_ints(d, 0);
    lemma_enc_dec_ints(d, 4);
    let (_rel, k) = dec_bool(d, 12).unwrap();
    assert(k == 13);
    assert(d.subrange(12, 13) =~= seq![if p.reliable { 1u8 } else { 0u8 }]);
    let (_m, e) = dec_message(d, 13).unwrap();
    lemma_enc_dec_message(d, 13, p.message, e);
    assert(e == d.len());
    lemma_subrange_concat(d, 12, 13, e);
    lemma_subrange_concat(d, 4, 12, e);
    lemma_subrange_concat(d, 0, 4, e);
    assert(d.subrange(0, d.len() as int) =~= d);
    assert(spec_encode(p) =~= d);
}

} // verus!
