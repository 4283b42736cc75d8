//! The client's protocol-level state: its own position and health, the
//! visible terrain, and the peers it knows about, kept in sync with what
//! the server transmits.

use crate::protocol::{direction_of_key, ClientPacket, Direction, Packet, PacketView, Player, ServerPacket, ServerPacketView};
use crate::codec::Serialize;
use crate::types::{Coords, MapCell};
use crate::utils::{in_disk, is_inside_circle};
use vstd::prelude::*;

verus! {

/// The difference `b - a`, component-wise: what to add to a world
/// position to land on a screen position.
pub fn get_padding(a: Coords, b: Coords) -> (r: (i16, i16))
    requires
        -0x8000 <= b.0 - a.0 < 0x8000,
        -0x8000 <= b.1 - a.1 < 0x8000,
    ensures
        r.0 == b.0 - a.0,
        r.1 == b.1 - a.1,
{
    let dx: i32 = (b.0 as i32) - (a.0 as i32);
    let dy: i32 = (b.1 as i32) - (a.1 as i32);
    (dx as i16, dy as i16)
}

/// A world position shifted by a padding, as a screen position.
pub fn to_absolute(p: Coords, padding: (i16, i16)) -> (r: Coords)
    requires
        0 <= p.0 + padding.0 <= 0xFFFF,
        0 <= p.1 + padding.1 <= 0xFFFF,
    ensures
        r.0 == p.0 + padding.0,
        r.1 == p.1 + padding.1,
{
    let x: i32 = (p.0 as i32) + (padding.0 as i32);
    let y: i32 = (p.1 as i32) + (padding.1 as i32);
    (x as u16, y as u16)
}

/// Whether some entry carries the id.
pub open spec fn has_id(s: Seq<Player>, id: u32) -> bool {
    exists|k: int| 0 <= k < s.len() && (#[trigger] s[k]).id == id
}

/// All entries of the table carry distinct ids.
pub open spec fn player_ids_unique(s: Seq<Player>) -> bool {
    forall|i: int, j: int|
        0 <= i < s.len() && 0 <= j < s.len() && i != j ==> (#[trigger] s[i]).id != (
        #[trigger] s[j]).id
}

/// The table with the entry for `id` placed at `coords`: updated in place
/// when present, appended otherwise.
pub open spec fn upsert(s: Seq<Player>, id: u32, coords: Coords) -> Seq<Player> {
    if has_id(s, id) {
        s.map_values(
            |p: Player|
                if p.id == id {
                    Player { id, coords }
                } else {
                    p
                },
        )
    } else {
        s.push(Player { id, coords })
    }
}

/// The table without any entry for `id`.
pub open spec fn without_id(s: Seq<Player>, id: u32) -> Seq<Player> {
    s.filter(|p: Player| p.id != id)
}

/// The entries standing inside the disk.
pub open spec fn inside_disk_players(s: Seq<Player>, center: Coords, radius: u8) -> Seq<Player> {
    s.filter(|p: Player| in_disk(center, radius, p.coords))
}

/// The entries standing outside the disk.
pub open spec fn outside_disk_players(s: Seq<Player>, center: Coords, radius: u8) -> Seq<Player> {
    s.filter(|p: Player| !in_disk(center, radius, p.coords))
}

/// The cells lying inside the disk.
pub open spec fn inside_disk_cells(s: Seq<MapCell>, center: Coords, radius: u8) -> Seq<MapCell> {
    s.filter(|c: MapCell| in_disk(center, radius, c.coords))
}

/// One step of taking a filter from the left.
proof fn lemma_filter_take_step<A>(s: Seq<A>, pred: spec_fn(A) -> bool, k: int)
    requires
        0 <= k < s.len(),
    ensures
        s.take(k + 1).filter(pred) == s.take(k).filter(pred) + (if pred(s[k]) {
            seq![s[k]]
        } else {
            Seq::<A>::empty()
        }),
{
    reveal(Seq::filter);
    assert(s.take(k + 1).drop_last() =~= s.take(k));
    assert(s.take(k + 1).last() == s[k]);
    if pred(s[k]) {
        assert(s.take(k + 1).filter(pred) =~= s.take(k).filter(pred) + seq![s[k]]);
    } else {
        assert(s.take(k + 1).filter(pred) =~= s.take(k).filter(pred) + Seq::<A>::empty());
    }
}

/// Everything a filter keeps was in the table.
proof fn lemma_filter_subset<A>(s: Seq<A>, pred: spec_fn(A) -> bool)
    ensures
        forall|i: int| 0 <= i < s.filter(pred).len() ==> s.contains(#[trigger] s.filter(pred)[i]),
    decreases s.len(),
{
    reveal(Seq::filter);
    if s.len() > 0 {
        lemma_filter_subset(s.drop_last(), pred);
        assert forall|i: int| 0 <= i < s.filter(pred).len() implies s.contains(
            #[trigger] s.filter(pred)[i],
        ) by {
            let sub = s.drop_last().filter(pred);
            if i < sub.len() {
                assert(s.drop_last().contains(sub[i]));
                let j = choose|j: int| 0 <= j < s.drop_last().len() && s.drop_last()[j] == sub[i];
                assert(s[j] == sub[i]);
            } else {
                assert(s[s.len() - 1] == s.filter(pred)[i]);
            }
        }
    }
}

/// Filtering keeps ids distinct.
proof fn lemma_filter_unique(s: Seq<Player>, pred: spec_fn(Player) -> bool)
    requires
        player_ids_unique(s),
    ensures
        player_ids_unique(s.filter(pred)),
    decreases s.len(),
{
    reveal(Seq::filter);
    if s.len() > 0 {
        assert(player_ids_unique(s.drop_last())) by {
            assert forall|i: int, j: int|
                0 <= i < s.drop_last().len() && 0 <= j < s.drop_last().len() && i != j implies (
            #[trigger] s.drop_last()[i]).id != (#[trigger] s.drop_last()[j]).id by {
                assert(s.drop_last()[i] == s[i]);
                assert(s.drop_last()[j] == s[j]);
            }
        }
        lemma_filter_unique(s.drop_last(), pred);
        lemma_filter_subset(s.drop_last(), pred);
        let sub = s.drop_last().filter(pred);
        if pred(s.last()) {
            assert forall|i: int, j: int|
                0 <= i < s.filter(pred).len() && 0 <= j < s.filter(pred).len() && i != j implies (
            #[trigger] s.filter(pred)[i]).id != (#[trigger] s.filter(pred)[j]).id by {
                if i < sub.len() && j < sub.len() {
                } else {
                    let m = if i < sub.len() {
                        i
                    } else {
                        j
                    };
                    assert(s.drop_last().contains(sub[m]));
                    let w = choose|w: int|
                        0 <= w < s.drop_last().len() && s.drop_last()[w] == sub[m];
                    assert(s[w] == sub[m]);
                    assert(s[w].id != s.last().id);
                }
            }
        }
    }
}

/// Whatever a filter keeps carries an id the table had.
proof fn lemma_filter_ids(s: Seq<Player>, pred: spec_fn(Player) -> bool, id: u32)
    requires
        !has_id(s, id),
    ensures
        !has_id(s.filter(pred), id),
{
    lemma_filter_subset(s, pred);
    if has_id(s.filter(pred), id) {
        let k = choose|k: int| 0 <= k < s.filter(pred).len() && (#[trigger] s.filter(pred)[k]).id
            == id;
        assert(s.contains(s.filter(pred)[k]));
        let w = choose|w: int| 0 <= w < s.len() && s[w] == s.filter(pred)[k];
        assert(s[w].id == id);
    }
}

/// The tables after folding one position report per listed player: each
/// reported peer is placed in the known table and withdrawn from the
/// out-of-sight table.
pub open spec fn fold_updates(
    other: Seq<Player>,
    outside: Seq<Player>,
    ps: Seq<Player>,
) -> (Seq<Player>, Seq<Player>)
    decreases ps.len(),
{
    if ps.len() == 0 {
        (other, outside)
    } else {
        fold_updates(
            upsert(other, ps[0].id, ps[0].coords),
            without_id(outside, ps[0].id),
            ps.skip(1),
        )
    }
}

/// The client's protocol-level state.
pub struct ClientState {
    pub id: u32,
    pub coords: Coords,
    pub visible_map: Vec<MapCell>,
    pub other_players: Vec<Player>,
    pub players_outside: Vec<Player>,
    pub radius: u8,
    pub max_hp: u8,
    pub current_hp: u8,
    pub weapon_range: u8,
    pub shooting_angle: Direction,
    pub quit: bool,
}

impl ClientState {
    /// Both peer tables carry distinct ids, and no peer is listed in both.
    pub open spec fn wf(&self) -> bool {
        &&& player_ids_unique(self.other_players@)
        &&& player_ids_unique(self.players_outside@)
        &&& forall|i: int|
            0 <= i < self.other_players@.len() ==> !has_id(
                self.players_outside@,
                (#[trigger] self.other_players@[i]).id,
            )
    }

    /// A fresh client before its first packet: default radius and aim,
    /// everything else empty.
    pub fn new() -> (c: Self)
        ensures
            c.wf(),
            c.id == 0,
            c.coords == (0u16, 0u16),
            c.visible_map@.len() == 0,
            c.other_players@.len() == 0,
            c.players_outside@.len() == 0,
            c.radius == 5,
            c.max_hp == 0,
            c.current_hp == 0,
            c.weapon_range == 0,
            c.shooting_angle == Direction::Up,
            !c.quit,
    {
        ClientState {
            id: 0,
            coords: (0, 0),
            visible_map: Vec::new(),
            other_players: Vec::new(),
            players_outside: Vec::new(),
            radius: 5,
            max_hp: 0,
            current_hp: 0,
            weapon_range: 0,
            shooting_angle: Direction::Up,
            quit: false,
        }
    }

    /// Encode a move request for a pressed movement key.  Fails on a key
    /// with no direction bound, or when the buffer is too small; the
    /// caller writes the bytes to its socket.
    pub fn build_move_payload(&self, buf: &mut [u8], key: char) -> (r: Result<usize, ()>)
        ensures
            final(buf)@.len() == old(buf)@.len(),
            match direction_of_key(key) {
                Some(d) => match r {
                    Ok(n) => {
                        &&& n == Packet::Client(ClientPacket::Move(d)).wire().len()
                        &&& n <= final(buf)@.len()
                        &&& final(buf)@.subrange(0, n as int) == Packet::Client(
                            ClientPacket::Move(d),
                        ).wire()
                        &&& final(buf)@.skip(n as int) == old(buf)@.skip(n as int)
                    },
                    Err(()) => Packet::Client(ClientPacket::Move(d)).wire().len() > old(
                        buf,
                    )@.len(),
                },
                None => r is Err && final(buf)@ == old(buf)@,
            },
    {
        let direction = match Direction::try_from(key) {
            Ok(d) => d,
            Err(()) => {
                return Err(());
            },
        };
        match Packet::Client(ClientPacket::Move(direction)).serialize(buf) {
            Ok(n) => Ok(n),
            Err(_) => Err(()),
        }
    }

    /// Encode a shot request along the current shooting angle.
    pub fn build_shoot_payload(&self, buf: &mut [u8]) -> (r: Result<usize, ()>)
        ensures
            final(buf)@.len() == old(buf)@.len(),
            match r {
                Ok(n) => {
                    &&& n == Packet::Client(
                        ClientPacket::Shoot(self.shooting_angle),
                    ).wire().len()
                    &&& n <= final(buf)@.len()
                    &&& final(buf)@.subrange(0, n as int) == Packet::Client(
                        ClientPacket::Shoot(self.shooting_angle),
                    ).wire()
                    &&& final(buf)@.skip(n as int) == old(buf)@.skip(n as int)
                },
                Err(()) => Packet::Client(ClientPacket::Shoot(self.shooting_angle)).wire().len()
                    > old(buf)@.len(),
            },
    {
        match Packet::Client(ClientPacket::Shoot(self.shooting_angle)).serialize(buf) {
            Ok(n) => Ok(n),
            Err(_) => Err(()),
        }
    }

    /// Prune the stored terrain to the disk around the current position.
    pub fn remove_non_visible(&mut self)
        ensures
            final(self).visible_map@ == inside_disk_cells(
                old(self).visible_map@,
                old(self).coords,
                old(self).radius,
            ),
            *final(self) == (ClientState { visible_map: final(self).visible_map, ..*old(self) }),
    {
        let center = self.coords;
        let radius = self.radius;
        let mut kept: Vec<MapCell> = Vec::new();
        let mut k: usize = 0;
        proof {
            reveal(Seq::filter);
            assert(self.visible_map@.take(0) =~= Seq::<MapCell>::empty());
            assert(kept@ =~= self.visible_map@.take(0).filter(
                |c: MapCell| in_disk(center, radius, c.coords),
            ));
        }
        while k < self.visible_map.len()
            invariant
                *self == *old(self),
                center == self.coords,
                radius == self.radius,
                k <= self.visible_map@.len(),
                kept@ == self.visible_map@.take(k as int).filter(
                    |c: MapCell| in_disk(center, radius, c.coords),
                ),
            decreases self.visible_map@.len() - k,
        {
            let cell = self.visible_map[k];
            let ghost pre = kept@;
            if is_inside_circle(center, radius, cell.coords) {
                kept.push(cell);
            }
            proof {
                lemma_filter_take_step(
                    self.visible_map@,
                    |c: MapCell| in_disk(center, radius, c.coords),
                    k as int,
                );
                if in_disk(center, radius, cell.coords) {
                    assert(kept@ =~= pre + seq![cell]);
                } else {
                    assert(kept@ =~= pre + Seq::<MapCell>::empty());
                }
            }
            k = k + 1;
        }
        proof {
            assert(self.visible_map@.take(self.visible_map@.len() as int) =~= self.visible_map@);
        }
        self.visible_map = kept;
    }

    /// Forget a peer entirely, wherever it was listed.
    pub fn remove_player(&mut self, id: u32)
        requires
            old(self).wf(),
        ensures
            final(self).wf(),
            final(self).other_players@ == without_id(old(self).other_players@, id),
            final(self).players_outside@ == without_id(old(self).players_outside@, id),
            *final(self) == (ClientState {
                other_players: final(self).other_players,
                players_outside: final(self).players_outside,
                ..*old(self)
            }),
    {
        let kept = filter_out_id(&self.other_players, id);
        let kept2 = filter_out_id(&self.players_outside, id);
        proof {
            lemma_filter_unique(self.other_players@, |p: Player| p.id != id);
            lemma_filter_unique(self.players_outside@, |p: Player| p.id != id);
            lemma_filter_subset(self.other_players@, |p: Player| p.id != id);
            assert forall|i: int| 0 <= i < kept@.len() implies !has_id(
                kept2@,
                (#[trigger] kept@[i]).id,
            ) by {
                assert(self.other_players@.contains(kept@[i]));
                let w = choose|w: int|
                    0 <= w < self.other_players@.len() && self.other_players@[w] == kept@[i];
                lemma_filter_ids(self.players_outside@, |p: Player| p.id != id, kept@[i].id);
            }
        }
        self.other_players = kept;
        self.players_outside = kept2;
    }

    /// Record that a peer stands at `coords` now: it enters (or moves
    /// within) the known table and leaves the out-of-sight table.
    pub fn update_other_player_coords_after_other_player_move(&mut self, id: u32, coords: Coords)
        requires
            old(self).wf(),
        ensures
            final(self).wf(),
            final(self).other_players@ == upsert(old(self).other_players@, id, coords),
            final(self).players_outside@ == without_id(old(self).players_outside@, id),
            *final(self) == (ClientState {
                other_players: final(self).other_players,
                players_outside: final(self).players_outside,
                ..*old(self)
            }),
    {
        let kept = filter_out_id(&self.players_outside, id);
        proof {
            lemma_filter_unique(self.players_outside@, |p: Player| p.id != id);
        }
        self.players_outside = kept;
        upsert_player(&mut self.other_players, id, coords);
        proof {
            let now = self.other_players@;
            let was = old(self).other_players@;
            assert forall|i: int| 0 <= i < now.len() implies !has_id(
                self.players_outside@,
                (#[trigger] now[i]).id,
            ) by {
                if now[i].id == id {
                    lemma_filter_not_kept(old(self).players_outside@, id);
                } else {
                    assert(was.len() > 0 ==> now.len() == was.len() || now.len() == was.len() + 1);
                    let oid = now[i].id;
                    if has_id(was, id) {
                        assert(now[i] == (if was[i].id == id {
                            Player { id, coords }
                        } else {
                            was[i]
                        }));
                        assert(!has_id(old(self).players_outside@, oid));
                    } else {
                        if i < was.len() {
                            assert(now[i] == was[i]);
                        }
                        assert(!has_id(old(self).players_outside@, oid));
                    }
                    lemma_filter_ids(old(self).players_outside@, |p: Player| p.id != id, oid);
                }
            }
        }
    }

    /// Apply the peer list of a move acknowledgement: fold every reported
    /// position in, then sort each peer to the table matching its side of
    /// the disk around the current position.
    pub fn update_other_player_coords_after_move(&mut self, players: &Vec<Player>)
        requires
            old(self).wf(),
        ensures
            final(self).wf(),
            ({
                let folded = fold_updates(
                    old(self).other_players@,
                    old(self).players_outside@,
                    players@,
                );
                &&& final(self).other_players@ == inside_disk_players(
                    folded.0,
                    old(self).coords,
                    old(self).radius,
                )
                &&& final(self).players_outside@ == outside_disk_players(
                    folded.1,
                    old(self).coords,
                    old(self).radius,
                ) + outside_disk_players(folded.0, old(self).coords, old(self).radius)
            }),
            *final(self) == (ClientState {
                other_players: final(self).other_players,
                players_outside: final(self).players_outside,
                ..*old(self)
            }),
    {
        let ghost folded = fold_updates(self.other_players@, self.players_outside@, players@);
        proof {
            assert(players@.skip(0) =~= players@);
        }
        let mut k: usize = 0;
        while k < players.len()
            invariant
                self.wf(),
                k <= players@.len(),
                folded == fold_updates(
                    self.other_players@,
                    self.players_outside@,
                    players@.skip(k as int),
                ),
                *self == (ClientState {
                    other_players: self.other_players,
                    players_outside: self.players_outside,
                    ..*old(self)
                }),
            decreases players@.len() - k,
        {
            let p = players[k];
            self.update_other_player_coords_after_other_player_move(p.id, p.coords);
            proof {
                assert(players@.skip(k as int)[0] == players@[k as int]);
                assert(players@.skip(k as int).skip(1) =~= players@.skip(k + 1));
            }
            k = k + 1;
        }
        proof {
            assert(players@.skip(players@.len() as int) =~= Seq::<Player>::empty());
        }
        let center = self.coords;
        let radius = self.radius;
        let outside_kept = filter_outside_disk(&self.players_outside, center, radius);
        let moved_out = filter_outside_disk(&self.other_players, center, radius);
        let still_in = filter_inside_disk(&self.other_players, center, radius);
        proof {
            lemma_filter_unique(
                self.players_outside@,
                |p: Player| !in_disk(center, radius, p.coords),
            );
            lemma_filter_unique(
                self.other_players@,
                |p: Player| in_disk(center, radius, p.coords),
            );
            lemma_split_disjoint(
                outside_kept@,
                moved_out@,
                still_in@,
                self.players_outside@,
                self.other_players@,
                center,
                radius,
            );
        }
        self.other_players = still_in;
        let mut outside = outside_kept;
        let mut moved = moved_out;
        outside.append(&mut moved);
        self.players_outside = outside;
    }
}

/// The out-of-sight entries whose ids the known table does not carry.
pub open spec fn prune_known(s: Seq<Player>, known: Seq<Player>) -> Seq<Player> {
    s.filter(|p: Player| !has_id(known, p.id))
}

/// The known-peers table built from a transmitted list, first entry
/// first, a later duplicate id overwriting an earlier position.
pub open spec fn collect_players(ps: Seq<Player>) -> Seq<Player>
    decreases ps.len(),
{
    if ps.len() == 0 {
        Seq::empty()
    } else {
        upsert(collect_players(ps.drop_last()), ps.last().id, ps.last().coords)
    }
}

/// Whether the table carries the id.
fn contains_id(v: &Vec<Player>, id: u32) -> (r: bool)
    ensures
        r == has_id(v@, id),
{
    let mut k: usize = 0;
    while k < v.len()
        invariant
            k <= v@.len(),
            forall|j: int| 0 <= j < k ==> (#[trigger] v@[j]).id != id,
        decreases v@.len() - k,
    {
        if v[k].id == id {
            return true;
        }
        k = k + 1;
    }
    false
}

impl ClientState {
    /// Apply one server packet to the state.  This is the whole of the
    /// client's protocol logic; rendering reads the state afterwards.
    pub fn apply_packet(&mut self, packet: Packet)
        requires
            old(self).wf(),
            packet matches Packet::Server(_),
        ensures
            final(self).wf(),
            match packet.deep_view() {
                PacketView::Server(sp) => match sp {
                    ServerPacketView::NewClientCoordsVisibleMap(nc) => {
                        &&& final(self).id == nc.id
                        &&& final(self).coords == nc.coords
                        &&& final(self).max_hp == nc.hp
                        &&& final(self).current_hp == nc.hp
                        &&& final(self).radius == nc.radius
                        &&& final(self).weapon_range == nc.weapon_range
                        &&& final(self).visible_map@ == nc.visible_coords
                        &&& final(self).other_players@ == collect_players(nc.players)
                        &&& final(self).players_outside@ == prune_known(
                            old(self).players_outside@,
                            collect_players(nc.players),
                        )
                        &&& final(self).shooting_angle == old(self).shooting_angle
                        &&& final(self).quit == old(self).quit
                    },
                    ServerPacketView::NewCoords(nc) => {
                        &&& final(self).coords == nc.center
                        &&& final(self).visible_map@ == inside_disk_cells(
                            old(self).visible_map@,
                            nc.center,
                            old(self).radius,
                        ) + nc.coords
                        &&& ({
                            let folded = fold_updates(
                                old(self).other_players@,
                                old(self).players_outside@,
                                nc.players,
                            );
                            &&& final(self).other_players@ == inside_disk_players(
                                folded.0,
                                nc.center,
                                old(self).radius,
                            )
                            &&& final(self).players_outside@ == outside_disk_players(
                                folded.1,
                                nc.center,
                                old(self).radius,
                            ) + outside_disk_players(folded.0, nc.center, old(self).radius)
                        })
                        &&& final(self).id == old(self).id
                        &&& final(self).max_hp == old(self).max_hp
                        &&& final(self).current_hp == old(self).current_hp
                        &&& final(self).radius == old(self).radius
                        &&& final(self).weapon_range == old(self).weapon_range
                        &&& final(self).shooting_angle == old(self).shooting_angle
                        &&& final(self).quit == old(self).quit
                    },
                    ServerPacketView::OtherPlayerMoved(m) => {
                        &&& final(self).other_players@ == upsert(
                            old(self).other_players@,
                            m.id,
                            m.coords,
                        )
                        &&& final(self).players_outside@ == without_id(
                            old(self).players_outside@,
                            m.id,
                        )
                        &&& *final(self) == (ClientState {
                            other_players: final(self).other_players,
                            players_outside: final(self).players_outside,
                            ..*old(self)
                        })
                    },
                    ServerPacketView::OtherPlayerMovedOutsideRadius(id) => {
                        &&& final(self).other_players@ == without_id(
                            old(self).other_players@,
                            id,
                        )
                        &&& final(self).players_outside@ == without_id(
                            old(self).players_outside@,
                            id,
                        )
                        &&& *final(self) == (ClientState {
                            other_players: final(self).other_players,
                            players_outside: final(self).players_outside,
                            ..*old(self)
                        })
                    },
                    ServerPacketView::PlayerDisconnected(id) => {
                        &&& final(self).other_players@ == without_id(
                            old(self).other_players@,
                            id,
                        )
                        &&& final(self).players_outside@ == without_id(
                            old(self).players_outside@,
                            id,
                        )
                        &&& *final(self) == (ClientState {
                            other_players: final(self).other_players,
                            players_outside: final(self).players_outside,
                            ..*old(self)
                        })
                    },
                    ServerPacketView::PlayerWasShot(damage, _d) => {
                        &&& final(self).current_hp == (if old(self).current_hp >= damage {
                            old(self).current_hp - damage
                        } else {
                            0
                        })
                        &&& *final(self) == (ClientState {
                            current_hp: final(self).current_hp,
                            ..*old(self)
                        })
                    },
                    ServerPacketView::PlayerDied(_id) => {
                        *final(self) == (ClientState { quit: true, ..*old(self) })
                    },
                },
                PacketView::Client(_) => true,
            },
    {
        match packet {
            Packet::Server(sp) => match sp {
                ServerPacket::NewClientCoordsVisibleMap(nc) => {
                    self.id = nc.id;
                    self.coords = nc.coords;
                    self.max_hp = nc.hp;
                    self.current_hp = nc.hp;
                    self.radius = nc.radius;
                    self.weapon_range = nc.weapon_range;
                    let ghost given = nc.visible_coords.deep_view();
                    self.visible_map = nc.visible_coords;
                    proof {
                        assert(self.visible_map@ =~= given);
                    }
                    let players = nc.players;
                    let mut known: Vec<Player> = Vec::new();
                    let mut k: usize = 0;
                    proof {
                        assert(players@.take(0) =~= Seq::<Player>::empty());
                        assert(known@ =~= collect_players(players@.take(0)));
                        assert(player_ids_unique(known@));
                    }
                    while k < players.len()
                        invariant
                            k <= players@.len(),
                            known@ == collect_players(players@.take(k as int)),
                            player_ids_unique(known@),
                        decreases players@.len() - k,
                    {
                        let p = players[k];
                        upsert_player(&mut known, p.id, p.coords);
                        proof {
                            assert(players@.take(k + 1).drop_last() =~= players@.take(k as int));
                            assert(players@.take(k + 1).last() == players@[k as int]);
                        }
                        k = k + 1;
                    }
                    proof {
                        assert(players@.take(players@.len() as int) =~= players@);
                        assert(players.deep_view() =~= players@);
                    }
                    let mut pruned: Vec<Player> = Vec::new();
                    let mut m: usize = 0;
                    proof {
                        reveal(Seq::filter);
                        assert(self.players_outside@.take(0) =~= Seq::<Player>::empty());
                        assert(pruned@ =~= self.players_outside@.take(0).filter(
                            |p: Player| !has_id(known@, p.id),
                        ));
                    }
                    while m < self.players_outside.len()
                        invariant
                            m <= self.players_outside@.len(),
                            pruned@ == self.players_outside@.take(m as int).filter(
                                |p: Player| !has_id(known@, p.id),
                            ),
                        decreases self.players_outside@.len() - m,
                    {
                        let p = self.players_outside[m];
                        let ghost pre = pruned@;
                        if !contains_id(&known, p.id) {
                            pruned.push(p);
                        }
                        proof {
                            lemma_filter_take_step(
                                self.players_outside@,
                                |q: Player| !has_id(known@, q.id),
                                m as int,
                            );
                            if !has_id(known@, p.id) {
                                assert(pruned@ =~= pre + seq![p]);
                            } else {
                                assert(pruned@ =~= pre + Seq::<Player>::empty());
                            }
                        }
                        m = m + 1;
                    }
                    proof {
                        assert(self.players_outside@.take(self.players_outside@.len() as int)
                            =~= self.players_outside@);
                        lemma_filter_unique(
                            self.players_outside@,
                            |q: Player| !has_id(known@, q.id),
                        );
                        assert forall|i: int| 0 <= i < known@.len() implies !has_id(
                            pruned@,
                            (#[trigger] known@[i]).id,
                        ) by {
                            if has_id(pruned@, known@[i].id) {
                                let w = choose|w: int|
                                    0 <= w < pruned@.len() && (#[trigger] pruned@[w]).id
                                        == known@[i].id;
                                self.players_outside@.lemma_filter_pred(
                                    |q: Player| !has_id(known@, q.id),
                                    w,
                                );
                            }
                        }
                    }
                    self.other_players = known;
                    self.players_outside = pruned;
                },
                ServerPacket::NewCoords(nc) => {
                    self.coords = nc.center;
                    self.remove_non_visible();
                    let ghost given = nc.coords.deep_view();
                    let mut fresh = nc.coords;
                    proof {
                        assert(fresh@ =~= given);
                    }
                    self.visible_map.append(&mut fresh);
                    self.update_other_player_coords_after_move(&nc.players);
                    proof {
                        assert(nc.players.deep_view() =~= nc.players@);
                    }
                },
                ServerPacket::OtherPlayerMoved(m) => {
                    self.update_other_player_coords_after_other_player_move(m.id, m.coords);
                },
                ServerPacket::OtherPlayerMovedOutsideRadius(id) => {
                    self.remove_player(id);
                },
                ServerPacket::PlayerDisconnected(id) => {
                    self.remove_player(id);
                },
                ServerPacket::PlayerWasShot(damage, _d) => {
                    self.current_hp = if self.current_hp >= damage {
                        self.current_hp - damage
                    } else {
                        0
                    };
                },
                ServerPacket::PlayerDied(_id) => {
                    self.quit = true;
                },
            },
            Packet::Client(_) => {},
        }
    }
}

/// An absent id stays absent through a removal filter.
proof fn lemma_filter_not_kept(s: Seq<Player>, id: u32)
    ensures
        !has_id(without_id(s, id), id),
{
    if has_id(without_id(s, id), id) {
        let k = choose|k: int|
            0 <= k < without_id(s, id).len() && (#[trigger] without_id(s, id)[k]).id == id;
        assert(s.filter(|p: Player| p.id != id)[k].id == id);
        s.lemma_filter_pred(|p: Player| p.id != id, k);
    }
}

/// The three filtered tables stay mutually consistent: the rebuilt
/// known table and the rebuilt out-of-sight table share no id.
proof fn lemma_split_disjoint(
    a: Seq<Player>,
    b: Seq<Player>,
    kept_in: Seq<Player>,
    outside: Seq<Player>,
    other: Seq<Player>,
    center: Coords,
    radius: u8,
)
    requires
        player_ids_unique(outside),
        player_ids_unique(other),
        forall|i: int| 0 <= i < other.len() ==> !has_id(outside, (#[trigger] other[i]).id),
        a == outside_disk_players(outside, center, radius),
        b == outside_disk_players(other, center, radius),
        kept_in == inside_disk_players(other, center, radius),
    ensures
        player_ids_unique(a + b),
        player_ids_unique(kept_in),
        forall|i: int| 0 <= i < kept_in.len() ==> !has_id(a + b, (#[trigger] kept_in[i]).id),
{
    let p_out = |p: Player| !in_disk(center, radius, p.coords);
    let p_in = |p: Player| in_disk(center, radius, p.coords);
    lemma_filter_unique(outside, p_out);
    lemma_filter_unique(other, p_out);
    lemma_filter_unique(other, p_in);
    lemma_filter_subset(outside, p_out);
    lemma_filter_subset(other, p_out);
    lemma_filter_subset(other, p_in);
    assert forall|i: int, j: int|
        0 <= i < (a + b).len() && 0 <= j < (a + b).len() && i != j implies (
    #[trigger] (a + b)[i]).id != (#[trigger] (a + b)[j]).id by {
        if i < a.len() && j < a.len() {
            assert((a + b)[i] == a[i] && (a + b)[j] == a[j]);
        } else if i >= a.len() && j >= a.len() {
            assert((a + b)[i] == b[i - a.len()] && (a + b)[j] == b[j - a.len()]);
        } else {
            let ai = if i < a.len() {
                i
            } else {
                j
            };
            let bj = if i < a.len() {
                j - a.len()
            } else {
                i - a.len()
            };
            assert((a + b)[ai] == a[ai] || (a + b)[j] == a[ai]);
            assert(outside.contains(a[ai]));
            assert(other.contains(b[bj]));
            let wa = choose|w: int| 0 <= w < outside.len() && outside[w] == a[ai];
            let wb = choose|w: int| 0 <= w < other.len() && other[w] == b[bj];
            assert(!has_id(outside, other[wb].id));
            assert(other[wb].id != outside[wa].id);
        }
    }
    assert forall|i: int| 0 <= i < kept_in.len() implies !has_id(
        a + b,
        (#[trigger] kept_in[i]).id,
    ) by {
        assert(other.contains(kept_in[i]));
        let w = choose|w: int| 0 <= w < other.len() && other[w] == kept_in[i];
        if has_id(a + b, kept_in[i].id) {
            let k = choose|k: int| 0 <= k < (a + b).len() && (#[trigger] (a + b)[k]).id
                == kept_in[i].id;
            if k < a.len() {
                assert((a + b)[k] == a[k]);
                assert(outside.contains(a[k]));
                let wo = choose|wo: int| 0 <= wo < outside.len() && outside[wo] == a[k];
                assert(!has_id(outside, other[w].id));
            } else {
                assert((a + b)[k] == b[k - a.len()]);
                assert(other.contains(b[k - a.len()]));
                let wo = choose|wo: int| 0 <= wo < other.len() && other[wo] == b[k - a.len()];
                // the same id stands inside and outside the disk: two
                // table entries with one id
                assert(p_in(kept_in[i]) && p_out(b[k - a.len()])) by {
                    other.lemma_filter_pred(p_in, i);
                    other.lemma_filter_pred(p_out, k - a.len());
                }
                assert(wo != w);
            }
        }
    }
}

/// The table without any entry for `id`, rebuilt.
fn filter_out_id(v: &Vec<Player>, id: u32) -> (r: Vec<Player>)
    ensures
        r@ == without_id(v@, id),
{
    let mut kept: Vec<Player> = Vec::new();
    let mut k: usize = 0;
    proof {
        reveal(Seq::filter);
        assert(v@.take(0) =~= Seq::<Player>::empty());
        assert(kept@ =~= v@.take(0).filter(|p: Player| p.id != id));
    }
    while k < v.len()
        invariant
            k <= v@.len(),
            kept@ == v@.take(k as int).filter(|p: Player| p.id != id),
        decreases v@.len() - k,
    {
        let p = v[k];
        let ghost pre = kept@;
        if p.id != id {
            kept.push(p);
        }
        proof {
            lemma_filter_take_step(v@, |q: Player| q.id != id, k as int);
            if p.id != id {
                assert(kept@ =~= pre + seq![p]);
            } else {
                assert(kept@ =~= pre + Seq::<Player>::empty());
            }
        }
        k = k + 1;
    }
    proof {
        assert(v@.take(v@.len() as int) =~= v@);
    }
    kept
}

/// The entries inside the disk, rebuilt.
fn filter_inside_disk(v: &Vec<Player>, center: Coords, radius: u8) -> (r: Vec<Player>)
    ensures
        r@ == inside_disk_players(v@, center, radius),
{
    let mut kept: Vec<Player> = Vec::new();
    let mut k: usize = 0;
    proof {
        reveal(Seq::filter);
        assert(v@.take(0) =~= Seq::<Player>::empty());
        assert(kept@ =~= v@.take(0).filter(|p: Player| in_disk(center, radius, p.coords)));
    }
    while k < v.len()
        invariant
            k <= v@.len(),
            kept@ == v@.take(k as int).filter(|p: Player| in_disk(center, radius, p.coords)),
        decreases v@.len() - k,
    {
        let p = v[k];
        let ghost pre = kept@;
        if is_inside_circle(center, radius, p.coords) {
            kept.push(p);
        }
        proof {
            lemma_filter_take_step(v@, |q: Player| in_disk(center, radius, q.coords), k as int);
            if in_disk(center, radius, p.coords) {
                assert(kept@ =~= pre + seq![p]);
            } else {
                assert(kept@ =~= pre + Seq::<Player>::empty());
            }
        }
        k = k + 1;
    }
    proof {
        assert(v@.take(v@.len() as int) =~= v@);
    }
    kept
}

/// The entries outside the disk, rebuilt.
fn filter_outside_disk(v: &Vec<Player>, center: Coords, radius: u8) -> (r: Vec<Player>)
    ensures
        r@ == outside_disk_players(v@, center, radius),
{
    let mut kept: Vec<Player> = Vec::new();
    let mut k: usize = 0;
    proof {
        reveal(Seq::filter);
        assert(v@.take(0) =~= Seq::<Player>::empty());
        assert(kept@ =~= v@.take(0).filter(|p: Player| !in_disk(center, radius, p.coords)));
    }
    while k < v.len()
        invariant
            k <= v@.len(),
            kept@ == v@.take(k as int).filter(|p: Player| !in_disk(center, radius, p.coords)),
        decreases v@.len() - k,
    {
        let p = v[k];
        let ghost pre = kept@;
        if !is_inside_circle(center, radius, p.coords) {
            kept.push(p);
        }
        proof {
            lemma_filter_take_step(v@, |q: Player| !in_disk(center, radius, q.coords), k as int);
            if !in_disk(center, radius, p.coords) {
                assert(kept@ =~= pre + seq![p]);
            } else {
                assert(kept@ =~= pre + Seq::<Player>::empty());
            }
        }
        k = k + 1;
    }
    proof {
        assert(v@.take(v@.len() as int) =~= v@);
    }
    kept
}

/// Place the entry for `id` at `coords`: update it where present, append
/// it otherwise.
fn upsert_player(v: &mut Vec<Player>, id: u32, coords: Coords)
    requires
        player_ids_unique(old(v)@),
    ensures
        final(v)@ == upsert(old(v)@, id, coords),
        player_ids_unique(final(v)@),
{
    let ghost orig = v@;
    let mut k: usize = 0;
    while k < v.len()
        invariant
            v@ == orig,
            orig == old(v)@,
            player_ids_unique(orig),
            k <= v@.len(),
            forall|j: int| 0 <= j < k ==> (#[trigger] v@[j]).id != id,
        decreases v@.len() - k,
    {
        if v[k].id == id {
            v[k] = Player { id, coords };
            proof {
                assert(orig[k as int].id == id);
                assert(has_id(orig, id));
                assert(v@ =~= upsert(orig, id, coords));
                assert forall|a: int, b: int|
                    0 <= a < v@.len() && 0 <= b < v@.len() && a != b implies (
                #[trigger] v@[a]).id != (#[trigger] v@[b]).id by {
                    assert(orig[a].id == v@[a].id && orig[b].id == v@[b].id);
                }
            }
            return ;
        }
        k = k + 1;
    }
    proof {
        assert(!has_id(orig, id));
    }
    v.push(Player { id, coords });
    proof {
        assert(v@ =~= upsert(orig, id, coords));
        assert forall|a: int, b: int|
            0 <= a < v@.len() && 0 <= b < v@.len() && a != b implies (#[trigger] v@[a]).id != (
        #[trigger] v@[b]).id by {
            if a < orig.len() && b < orig.len() {
                assert(orig[a].id == v@[a].id && orig[b].id == v@[b].id);
            }
        }
    }
}

} // verus!
