//! The protocol: every packet variant and its payload, declared in terms of
//! the codec, and the payload-builder functions the server uses.

use crate::codec::{
    lemma_subrange_of_prefix, lemma_write_step, write_byte, write_tagged, Deserialize,
    DeserializeError, Serialize, SerializeError,
};
use crate::types::{Coords, MapCell};
use vstd::prelude::*;

verus! {

/// A cardinal direction.  Wire ordinals follow declaration order; both
/// sides of the protocol rely on that ordering.
#[derive(Clone, Copy, Debug, PartialEq, Eq, Structural)]
pub enum Direction {
    Up,
    Right,
    Down,
    Left,
}

impl DeepView for Direction {
    type V = Direction;

    open spec fn deep_view(&self) -> Direction {
        *self
    }
}

/// The wire ordinal of each direction.
pub open spec fn direction_ordinal(d: Direction) -> u8 {
    match d {
        Direction::Up => 0,
        Direction::Right => 1,
        Direction::Down => 2,
        Direction::Left => 3,
    }
}

/// The direction a wire ordinal stands for, if any.
pub open spec fn direction_of_ordinal(t: u8) -> Option<Direction> {
    if t == 0 {
        Some(Direction::Up)
    } else if t == 1 {
        Some(Direction::Right)
    } else if t == 2 {
        Some(Direction::Down)
    } else if t == 3 {
        Some(Direction::Left)
    } else {
        None
    }
}

/// The direction bound to a movement key, if any (`wasd` and `hjkl`).
pub open spec fn direction_of_key(c: char) -> Option<Direction> {
    if c == 'w' || c == 'k' {
        Some(Direction::Up)
    } else if c == 'd' || c == 'l' {
        Some(Direction::Right)
    } else if c == 's' || c == 'j' {
        Some(Direction::Down)
    } else if c == 'a' || c == 'h' {
        Some(Direction::Left)
    } else {
        None
    }
}

impl Direction {
    /// The direction a movement key stands for.
    pub fn try_from(value: char) -> (r: Result<Self, ()>)
        ensures
            match r {
                Ok(d) => direction_of_key(value) == Some(d),
                Err(()) => direction_of_key(value) is None,
            },
    {
        match value {
            'w' | 'k' => Ok(Self::Up),
            'd' | 'l' => Ok(Self::Right),
            's' | 'j' => Ok(Self::Down),
            'a' | 'h' => Ok(Self::Left),
            _ => Err(()),
        }
    }
}

impl Serialize for Direction {
    open spec fn overflow_leaves_buffer() -> bool {
        true
    }

    open spec fn wf(&self) -> bool {
        true
    }

    open spec fn wire(&self) -> Seq<u8> {
        seq![direction_ordinal(*self)]
    }

    fn serialize_at(&self, buffer: &mut [u8], pos: usize) -> (r: Result<usize, SerializeError>) {
        let t: u8 = match self {
            Direction::Up => 0,
            Direction::Right => 1,
            Direction::Down => 2,
            Direction::Left => 3,
        };
        if write_byte(buffer, pos, t) {
            assert(buffer@.subrange(pos as int, pos + 1) =~= self.wire());
            assert(buffer@.subrange(0, pos as int) =~= old(buffer)@.subrange(0, pos as int));
            assert(buffer@.skip(pos + 1) =~= old(buffer)@.skip(pos + 1));
            Ok(1)
        } else {
            Err(SerializeError::BufferOverflow)
        }
    }
}

impl Deserialize for Direction {
    open spec fn parse(buf: Seq<u8>) -> Option<(Direction, int)> {
        if buf.len() >= 1 {
            match direction_of_ordinal(buf[0]) {
                Some(d) => Some((d, 1)),
                None => None,
            }
        } else {
            None
        }
    }

    fn deserialize(buf: &[u8]) -> (r: Result<(Self, usize), DeserializeError>) {
        if buf.len() < 1 {
            return Err(DeserializeError::Invalid);
        }
        let t = buf[0];
        let d = if t == 0 {
            Direction::Up
        } else if t == 1 {
            Direction::Right
        } else if t == 2 {
            Direction::Down
        } else if t == 3 {
            Direction::Left
        } else {
            return Err(DeserializeError::Invalid);
        };
        Ok((d, 1))
    }

    proof fn lemma_parse_wire(v: Self, rest: Seq<u8>) {
        assert((v.wire() + rest)[0] == direction_ordinal(v));
    }

    proof fn lemma_parse_prefix(buf: Seq<u8>, ext: Seq<u8>) {
        if buf.len() >= 1 {
            assert((buf + ext)[0] == buf[0]);
        }
    }
}

/// Another player as transmitted: identity and position, nothing more.
#[derive(Clone, Copy, Debug, PartialEq, Eq)]
pub struct Player {
    pub id: u32,
    pub coords: Coords,
}

impl Player {
    /// Pack an id and a position into one wire player.
    pub fn new(id: u32, coords: Coords) -> (p: Self)
        ensures
            p == (Player { id, coords }),
    {
        Self { id, coords }
    }
}

impl DeepView for Player {
    type V = Player;

    open spec fn deep_view(&self) -> Player {
        *self
    }
}

impl Serialize for Player {
    open spec fn overflow_leaves_buffer() -> bool {
        false
    }

    open spec fn wf(&self) -> bool {
        true
    }

    open spec fn wire(&self) -> Seq<u8> {
        self.id.wire() + self.coords.wire()
    }

    fn serialize_at(&self, buffer: &mut [u8], pos: usize) -> (r: Result<usize, SerializeError>) {
        let pair = (self.id, self.coords);
        pair.serialize_at(buffer, pos)
    }
}

impl Deserialize for Player {
    open spec fn parse(buf: Seq<u8>) -> Option<(Player, int)> {
        match <(u32, Coords)>::parse(buf) {
            Some(((id, coords), n)) => Some((Player { id, coords }, n)),
            None => None,
        }
    }

    fn deserialize(buf: &[u8]) -> (r: Result<(Self, usize), DeserializeError>) {
        let ((id, coords), n) = <(u32, Coords)>::deserialize(buf)?;
        Ok((Player { id, coords }, n))
    }

    proof fn lemma_parse_wire(v: Self, rest: Seq<u8>) {
        <(u32, Coords)>::lemma_parse_wire((v.id, v.coords), rest);
    }

    proof fn lemma_parse_prefix(buf: Seq<u8>, ext: Seq<u8>) {
        <(u32, Coords)>::lemma_parse_prefix(buf, ext);
    }
}

/// Payload telling a client that a visible peer moved to a new position.
#[derive(Clone, Copy, Debug, PartialEq, Eq)]
pub struct OtherPlayerMoved {
    pub coords: Coords,
    pub id: u32,
}

impl DeepView for OtherPlayerMoved {
    type V = OtherPlayerMoved;

    open spec fn deep_view(&self) -> OtherPlayerMoved {
        *self
    }
}

impl Serialize for OtherPlayerMoved {
    open spec fn overflow_leaves_buffer() -> bool {
        false
    }

    open spec fn wf(&self) -> bool {
        true
    }

    open spec fn wire(&self) -> Seq<u8> {
        self.coords.wire() + self.id.wire()
    }

    fn serialize_at(&self, buffer: &mut [u8], pos: usize) -> (r: Result<usize, SerializeError>) {
        let pair = (self.coords, self.id);
        pair.serialize_at(buffer, pos)
    }
}

impl Deserialize for OtherPlayerMoved {
    open spec fn parse(buf: Seq<u8>) -> Option<(OtherPlayerMoved, int)> {
        match <(Coords, u32)>::parse(buf) {
            Some(((coords, id), n)) => Some((OtherPlayerMoved { coords, id }, n)),
            None => None,
        }
    }

    fn deserialize(buf: &[u8]) -> (r: Result<(Self, usize), DeserializeError>) {
        let ((coords, id), n) = <(Coords, u32)>::deserialize(buf)?;
        Ok((OtherPlayerMoved { coords, id }, n))
    }

    proof fn lemma_parse_wire(v: Self, rest: Seq<u8>) {
        <(Coords, u32)>::lemma_parse_wire((v.coords, v.id), rest);
    }

    proof fn lemma_parse_prefix(buf: Seq<u8>, ext: Seq<u8>) {
        <(Coords, u32)>::lemma_parse_prefix(buf, ext);
    }
}

/// Payload telling a client that a peer left its visibility disk.
#[derive(Clone, Copy, Debug, PartialEq, Eq)]
pub struct OtherPlayerMovedOutsideRadius {
    pub id: u32,
}

impl DeepView for OtherPlayerMovedOutsideRadius {
    type V = OtherPlayerMovedOutsideRadius;

    open spec fn deep_view(&self) -> OtherPlayerMovedOutsideRadius {
        *self
    }
}

impl Serialize for OtherPlayerMovedOutsideRadius {
    open spec fn overflow_leaves_buffer() -> bool {
        true
    }

    open spec fn wf(&self) -> bool {
        true
    }

    open spec fn wire(&self) -> Seq<u8> {
        self.id.wire()
    }

    fn serialize_at(&self, buffer: &mut [u8], pos: usize) -> (r: Result<usize, SerializeError>) {
        self.id.serialize_at(buffer, pos)
    }
}

impl Deserialize for OtherPlayerMovedOutsideRadius {
    open spec fn parse(buf: Seq<u8>) -> Option<(OtherPlayerMovedOutsideRadius, int)> {
        match <u32 as Deserialize>::parse(buf) {
            Some((id, n)) => Some((OtherPlayerMovedOutsideRadius { id }, n)),
            None => None,
        }
    }

    fn deserialize(buf: &[u8]) -> (r: Result<(Self, usize), DeserializeError>) {
        let (id, n) = u32::deserialize(buf)?;
        Ok((OtherPlayerMovedOutsideRadius { id }, n))
    }

    proof fn lemma_parse_wire(v: Self, rest: Seq<u8>) {
        u32::lemma_parse_wire(v.id, rest);
    }

    proof fn lemma_parse_prefix(buf: Seq<u8>, ext: Seq<u8>) {
        u32::lemma_parse_prefix(buf, ext);
    }
}

/// The scalar head of the initial snapshot, in wire order.
type NewClientHead = (u32, (Coords, (u8, (u8, u8))));

/// The nested-pair reading of a whole initial snapshot.
type NewClientParts = (NewClientHead, (Vec<MapCell>, Vec<Player>));

/// Initial snapshot for a newly connected client.
#[derive(Debug, PartialEq, Eq)]
pub struct NewClient {
    pub id: u32,
    pub coords: Coords,
    pub hp: u8,
    pub radius: u8,
    pub weapon_range: u8,
    pub visible_coords: Vec<MapCell>,
    pub players: Vec<Player>,
}

/// The abstract value of a [`NewClient`]: sequences in place of vectors.
pub struct NewClientView {
    pub id: u32,
    pub coords: Coords,
    pub hp: u8,
    pub radius: u8,
    pub weapon_range: u8,
    pub visible_coords: Seq<MapCell>,
    pub players: Seq<Player>,
}

impl DeepView for NewClient {
    type V = NewClientView;

    open spec fn deep_view(&self) -> NewClientView {
        NewClientView {
            id: self.id,
            coords: self.coords,
            hp: self.hp,
            radius: self.radius,
            weapon_range: self.weapon_range,
            visible_coords: self.visible_coords.deep_view(),
            players: self.players.deep_view(),
        }
    }
}

impl NewClient {
    fn new(
        id: u32,
        coords: Coords,
        visible_coords: Vec<MapCell>,
        radius: u8,
        hp: u8,
        weapon_range: u8,
        players: Vec<Player>,
    ) -> (r: Self)
        ensures
            r == (NewClient { id, coords, hp, radius, weapon_range, visible_coords, players }),
    {
        Self { id, coords, hp, radius, weapon_range, visible_coords, players }
    }
}

impl Serialize for NewClient {
    open spec fn overflow_leaves_buffer() -> bool {
        false
    }

    /// Both transmitted lists must fit the one-byte length prefix.
    open spec fn wf(&self) -> bool {
        self.visible_coords.wf() && self.players.wf()
    }

    open spec fn wire(&self) -> Seq<u8> {
        self.id.wire() + self.coords.wire() + self.hp.wire() + self.radius.wire()
            + self.weapon_range.wire() + self.visible_coords.wire() + self.players.wire()
    }

    fn serialize_at(&self, buffer: &mut [u8], pos: usize) -> (r: Result<usize, SerializeError>) {
        let cap = buffer.len();
        let head: NewClientHead = (
            self.id,
            (self.coords, (self.hp, (self.radius, self.weapon_range))),
        );
        proof {
            assert(self.wire() =~= head.wire() + self.visible_coords.wire()
                + self.players.wire());
        }
        let n0 = match head.serialize_at(buffer, pos) {
            Ok(n) => n,
            Err(e) => {
                return Err(e);
            },
        };
        let ghost pre1 = buffer@;
        let n1 = match self.visible_coords.serialize_at(buffer, pos + n0) {
            Ok(n) => {
                proof {
                    lemma_write_step(
                        pre1,
                        buffer@,
                        old(buffer)@,
                        pos as int,
                        pos + n0,
                        n as int,
                        head.wire(),
                        self.visible_coords.wire(),
                    );
                }
                n
            },
            Err(e) => {
                proof {
                    lemma_subrange_of_prefix(buffer@, pre1, pos + n0, 0, pos as int);
                }
                return Err(e);
            },
        };
        let ghost pre2 = buffer@;
        let n2 = match self.players.serialize_at(buffer, pos + n0 + n1) {
            Ok(n) => {
                proof {
                    lemma_write_step(
                        pre2,
                        buffer@,
                        old(buffer)@,
                        pos as int,
                        pos + n0 + n1,
                        n as int,
                        head.wire() + self.visible_coords.wire(),
                        self.players.wire(),
                    );
                }
                n
            },
            Err(e) => {
                proof {
                    lemma_subrange_of_prefix(buffer@, pre2, pos + n0 + n1, 0, pos as int);
                }
                return Err(e);
            },
        };
        proof {
            assert(buffer@.subrange(pos as int, pos + n0 + n1 + n2) =~= self.wire());
        }
        Ok(n0 + n1 + n2)
    }
}

impl Deserialize for NewClient {
    open spec fn parse(buf: Seq<u8>) -> Option<(NewClientView, int)> {
        match <NewClientParts as Deserialize>::parse(buf) {
            Some((((id, (coords, (hp, (radius, weapon_range)))), (visible_coords, players)), n)) => {
                Some((NewClientView { id, coords, hp, radius, weapon_range, visible_coords, players }, n))
            },
            None => None,
        }
    }

    fn deserialize(buf: &[u8]) -> (r: Result<(Self, usize), DeserializeError>) {
        let (parts, n) = <NewClientParts as Deserialize>::deserialize(buf)?;
        let ((id, (coords, (hp, (radius, weapon_range)))), (visible_coords, players)) = parts;
        Ok((Self { id, coords, hp, radius, weapon_range, visible_coords, players }, n))
    }

    proof fn lemma_parse_wire(v: Self, rest: Seq<u8>) {
        let parts: NewClientParts = (
            (v.id, (v.coords, (v.hp, (v.radius, v.weapon_range)))),
            (v.visible_coords, v.players),
        );
        assert(parts.wire() =~= v.wire());
        <NewClientParts as Deserialize>::lemma_parse_wire(parts, rest);
    }

    proof fn lemma_parse_prefix(buf: Seq<u8>, ext: Seq<u8>) {
        <NewClientParts as Deserialize>::lemma_parse_prefix(buf, ext);
    }
}

/// The nested-pair reading of a move acknowledgement.
type NewCoordsParts = (Coords, (Vec<MapCell>, Vec<Player>));

/// Sent to a client after its own move: the new center, the freshly revealed
/// cells, and the peers now inside its disk.
#[derive(Debug, PartialEq, Eq)]
pub struct NewCoords {
    pub center: Coords,
    pub coords: Vec<MapCell>,
    pub players: Vec<Player>,
}

/// The abstract value of a [`NewCoords`].
pub struct NewCoordsView {
    pub center: Coords,
    pub coords: Seq<MapCell>,
    pub players: Seq<Player>,
}

impl DeepView for NewCoords {
    type V = NewCoordsView;

    open spec fn deep_view(&self) -> NewCoordsView {
        NewCoordsView {
            center: self.center,
            coords: self.coords.deep_view(),
            players: self.players.deep_view(),
        }
    }
}

impl NewCoords {
    fn new(center: Coords, coords: Vec<MapCell>, players: Vec<Player>) -> (r: Self)
        ensures
            r == (NewCoords { center, coords, players }),
    {
        Self { center, coords, players }
    }
}

impl Serialize for NewCoords {
    open spec fn overflow_leaves_buffer() -> bool {
        false
    }

    /// Both transmitted lists must fit the one-byte length prefix.
    open spec fn wf(&self) -> bool {
        self.coords.wf() && self.players.wf()
    }

    open spec fn wire(&self) -> Seq<u8> {
        self.center.wire() + self.coords.wire() + self.players.wire()
    }

    fn serialize_at(&self, buffer: &mut [u8], pos: usize) -> (r: Result<usize, SerializeError>) {
        let cap = buffer.len();
        let n0 = match self.center.serialize_at(buffer, pos) {
            Ok(n) => n,
            Err(e) => {
                return Err(e);
            },
        };
        let ghost pre1 = buffer@;
        let n1 = match self.coords.serialize_at(buffer, pos + n0) {
            Ok(n) => {
                proof {
                    lemma_write_step(
                        pre1,
                        buffer@,
                        old(buffer)@,
                        pos as int,
                        pos + n0,
                        n as int,
                        self.center.wire(),
                        self.coords.wire(),
                    );
                }
                n
            },
            Err(e) => {
                proof {
                    lemma_subrange_of_prefix(buffer@, pre1, pos + n0, 0, pos as int);
                }
                return Err(e);
            },
        };
        let ghost pre2 = buffer@;
        let n2 = match self.players.serialize_at(buffer, pos + n0 + n1) {
            Ok(n) => {
                proof {
                    lemma_write_step(
                        pre2,
                        buffer@,
                        old(buffer)@,
                        pos as int,
                        pos + n0 + n1,
                        n as int,
                        self.center.wire() + self.coords.wire(),
                        self.players.wire(),
                    );
                }
                n
            },
            Err(e) => {
                proof {
                    lemma_subrange_of_prefix(buffer@, pre2, pos + n0 + n1, 0, pos as int);
                }
                return Err(e);
            },
        };
        proof {
            assert(buffer@.subrange(pos as int, pos + n0 + n1 + n2) =~= self.wire());
        }
        Ok(n0 + n1 + n2)
    }
}

impl Deserialize for NewCoords {
    open spec fn parse(buf: Seq<u8>) -> Option<(NewCoordsView, int)> {
        match <NewCoordsParts as Deserialize>::parse(buf) {
            Some(((center, (coords, players)), n)) => {
                Some((NewCoordsView { center, coords, players }, n))
            },
            None => None,
        }
    }

    fn deserialize(buf: &[u8]) -> (r: Result<(Self, usize), DeserializeError>) {
        let ((center, (coords, players)), n) = <NewCoordsParts as Deserialize>::deserialize(buf)?;
        Ok((Self { center, coords, players }, n))
    }

    proof fn lemma_parse_wire(v: Self, rest: Seq<u8>) {
        let parts: NewCoordsParts = (v.center, (v.coords, v.players));
        assert(parts.wire() =~= v.wire());
        <NewCoordsParts as Deserialize>::lemma_parse_wire(parts, rest);
    }

    proof fn lemma_parse_prefix(buf: Seq<u8>, ext: Seq<u8>) {
        <NewCoordsParts as Deserialize>::lemma_parse_prefix(buf, ext);
    }
}

/// What a client may ask of the server.
#[derive(Clone, Copy, Debug, PartialEq, Eq, Structural)]
pub enum ClientPacket {
    Move(Direction),
    Shoot(Direction),
}

impl DeepView for ClientPacket {
    type V = ClientPacket;

    open spec fn deep_view(&self) -> ClientPacket {
        *self
    }
}

impl Serialize for ClientPacket {
    open spec fn overflow_leaves_buffer() -> bool {
        false
    }

    open spec fn wf(&self) -> bool {
        true
    }

    open spec fn wire(&self) -> Seq<u8> {
        match self {
            ClientPacket::Move(d) => seq![0u8] + d.wire(),
            ClientPacket::Shoot(d) => seq![1u8] + d.wire(),
        }
    }

    fn serialize_at(&self, buffer: &mut [u8], pos: usize) -> (r: Result<usize, SerializeError>) {
        match self {
            ClientPacket::Move(d) => write_tagged(0, d, buffer, pos),
            ClientPacket::Shoot(d) => write_tagged(1, d, buffer, pos),
        }
    }
}

impl Deserialize for ClientPacket {
    open spec fn parse(buf: Seq<u8>) -> Option<(ClientPacket, int)> {
        if buf.len() < 1 {
            None
        } else if buf[0] == 0 {
            match Direction::parse(buf.skip(1)) {
                Some((d, n)) => Some((ClientPacket::Move(d), 1 + n)),
                None => None,
            }
        } else if buf[0] == 1 {
            match Direction::parse(buf.skip(1)) {
                Some((d, n)) => Some((ClientPacket::Shoot(d), 1 + n)),
                None => None,
            }
        } else {
            None
        }
    }

    fn deserialize(buf: &[u8]) -> (r: Result<(Self, usize), DeserializeError>) {
        if buf.len() < 1 {
            return Err(DeserializeError::Invalid);
        }
        let t = buf[0];
        if t >= 2 {
            return Err(DeserializeError::Invalid);
        }
        let tail = vstd::slice::slice_subrange(buf, 1, buf.len());
        proof {
            assert(tail@ =~= buf@.skip(1));
        }
        let (d, n) = Direction::deserialize(tail)?;
        if t == 0 {
            Ok((ClientPacket::Move(d), 1 + n))
        } else {
            Ok((ClientPacket::Shoot(d), 1 + n))
        }
    }

    proof fn lemma_parse_wire(v: Self, rest: Seq<u8>) {
        let b = v.wire() + rest;
        match v {
            ClientPacket::Move(d) => {
                assert(b[0] == 0);
                assert(b.skip(1) =~= d.wire() + rest);
                Direction::lemma_parse_wire(d, rest);
            },
            ClientPacket::Shoot(d) => {
                assert(b[0] == 1);
                assert(b.skip(1) =~= d.wire() + rest);
                Direction::lemma_parse_wire(d, rest);
            },
        }
    }

    proof fn lemma_parse_prefix(buf: Seq<u8>, ext: Seq<u8>) {
        if buf.len() >= 1 {
            assert((buf + ext)[0] == buf[0]);
            if buf[0] == 0 || buf[0] == 1 {
                Direction::lemma_parse_prefix(buf.skip(1), ext);
                assert((buf + ext).skip(1) =~= buf.skip(1) + ext);
            }
        }
    }
}

/// Everything the server may send a client.  Wire ordinals follow
/// declaration order.
#[derive(Debug, PartialEq, Eq)]
pub enum ServerPacket {
    NewClientCoordsVisibleMap(NewClient),
    NewCoords(NewCoords),
    OtherPlayerMoved(OtherPlayerMoved),
    OtherPlayerMovedOutsideRadius(u32),
    PlayerDisconnected(u32),
    PlayerWasShot(u8, Direction),
    PlayerDied(u32),
}

/// The abstract value of a [`ServerPacket`].
pub enum ServerPacketView {
    NewClientCoordsVisibleMap(NewClientView),
    NewCoords(NewCoordsView),
    OtherPlayerMoved(OtherPlayerMoved),
    OtherPlayerMovedOutsideRadius(u32),
    PlayerDisconnected(u32),
    PlayerWasShot(u8, Direction),
    PlayerDied(u32),
}

impl DeepView for ServerPacket {
    type V = ServerPacketView;

    open spec fn deep_view(&self) -> ServerPacketView {
        match self {
            ServerPacket::NewClientCoordsVisibleMap(nc) => {
                ServerPacketView::NewClientCoordsVisibleMap(nc.deep_view())
            },
            ServerPacket::NewCoords(nc) => ServerPacketView::NewCoords(nc.deep_view()),
            ServerPacket::OtherPlayerMoved(m) => ServerPacketView::OtherPlayerMoved(*m),
            ServerPacket::OtherPlayerMovedOutsideRadius(id) => {
                ServerPacketView::OtherPlayerMovedOutsideRadius(*id)
            },
            ServerPacket::PlayerDisconnected(id) => ServerPacketView::PlayerDisconnected(*id),
            ServerPacket::PlayerWasShot(damage, d) => ServerPacketView::PlayerWasShot(*damage, *d),
            ServerPacket::PlayerDied(id) => ServerPacketView::PlayerDied(*id),
        }
    }
}

impl Serialize for ServerPacket {
    open spec fn overflow_leaves_buffer() -> bool {
        false
    }

    open spec fn wf(&self) -> bool {
        match self {
            ServerPacket::NewClientCoordsVisibleMap(nc) => nc.wf(),
            ServerPacket::NewCoords(nc) => nc.wf(),
            _ => true,
        }
    }

    open spec fn wire(&self) -> Seq<u8> {
        match self {
            ServerPacket::NewClientCoordsVisibleMap(nc) => seq![0u8] + nc.wire(),
            ServerPacket::NewCoords(nc) => seq![1u8] + nc.wire(),
            ServerPacket::OtherPlayerMoved(m) => seq![2u8] + m.wire(),
            ServerPacket::OtherPlayerMovedOutsideRadius(id) => seq![3u8] + id.wire(),
            ServerPacket::PlayerDisconnected(id) => seq![4u8] + id.wire(),
            ServerPacket::PlayerWasShot(damage, d) => seq![5u8] + damage.wire() + d.wire(),
            ServerPacket::PlayerDied(id) => seq![6u8] + id.wire(),
        }
    }

    fn serialize_at(&self, buffer: &mut [u8], pos: usize) -> (r: Result<usize, SerializeError>) {
        match self {
            ServerPacket::NewClientCoordsVisibleMap(nc) => write_tagged(0, nc, buffer, pos),
            ServerPacket::NewCoords(nc) => write_tagged(1, nc, buffer, pos),
            ServerPacket::OtherPlayerMoved(m) => write_tagged(2, m, buffer, pos),
            ServerPacket::OtherPlayerMovedOutsideRadius(id) => write_tagged(3, id, buffer, pos),
            ServerPacket::PlayerDisconnected(id) => write_tagged(4, id, buffer, pos),
            ServerPacket::PlayerWasShot(damage, d) => {
                proof {
                    assert(self.wire() =~= seq![5u8] + (*damage, *d).wire());
                }
                write_tagged(5, &(*damage, *d), buffer, pos)
            },
            ServerPacket::PlayerDied(id) => write_tagged(6, id, buffer, pos),
        }
    }
}

impl Deserialize for ServerPacket {
    open spec fn parse(buf: Seq<u8>) -> Option<(ServerPacketView, int)> {
        if buf.len() < 1 {
            None
        } else {
            let rest = buf.skip(1);
            if buf[0] == 0 {
                match NewClient::parse(rest) {
                    Some((v, n)) => Some(
                        (ServerPacketView::NewClientCoordsVisibleMap(v), 1 + n),
                    ),
                    None => None,
                }
            } else if buf[0] == 1 {
                match NewCoords::parse(rest) {
                    Some((v, n)) => Some((ServerPacketView::NewCoords(v), 1 + n)),
                    None => None,
                }
            } else if buf[0] == 2 {
                match OtherPlayerMoved::parse(rest) {
                    Some((v, n)) => Some((ServerPacketView::OtherPlayerMoved(v), 1 + n)),
                    None => None,
                }
            } else if buf[0] == 3 {
                match <u32 as Deserialize>::parse(rest) {
                    Some((v, n)) => Some(
                        (ServerPacketView::OtherPlayerMovedOutsideRadius(v), 1 + n),
                    ),
                    None => None,
                }
            } else if buf[0] == 4 {
                match <u32 as Deserialize>::parse(rest) {
                    Some((v, n)) => Some((ServerPacketView::PlayerDisconnected(v), 1 + n)),
                    None => None,
                }
            } else if buf[0] == 5 {
                match <(u8, Direction)>::parse(rest) {
                    Some(((damage, d), n)) => Some(
                        (ServerPacketView::PlayerWasShot(damage, d), 1 + n),
                    ),
                    None => None,
                }
            } else if buf[0] == 6 {
                match <u32 as Deserialize>::parse(rest) {
                    Some((v, n)) => Some((ServerPacketView::PlayerDied(v), 1 + n)),
                    None => None,
                }
            } else {
                None
            }
        }
    }

    fn deserialize(buf: &[u8]) -> (r: Result<(Self, usize), DeserializeError>) {
        if buf.len() < 1 {
            return Err(DeserializeError::Invalid);
        }
        let t = buf[0];
        let tail = vstd::slice::slice_subrange(buf, 1, buf.len());
        proof {
            assert(tail@ =~= buf@.skip(1));
        }
        if t == 0 {
            let (v, n) = NewClient::deserialize(tail)?;
            Ok((ServerPacket::NewClientCoordsVisibleMap(v), 1 + n))
        } else if t == 1 {
            let (v, n) = NewCoords::deserialize(tail)?;
            Ok((ServerPacket::NewCoords(v), 1 + n))
        } else if t == 2 {
            let (v, n) = OtherPlayerMoved::deserialize(tail)?;
            Ok((ServerPacket::OtherPlayerMoved(v), 1 + n))
        } else if t == 3 {
            let (v, n) = u32::deserialize(tail)?;
            Ok((ServerPacket::OtherPlayerMovedOutsideRadius(v), 1 + n))
        } else if t == 4 {
            let (v, n) = u32::deserialize(tail)?;
            Ok((ServerPacket::PlayerDisconnected(v), 1 + n))
        } else if t == 5 {
            let ((damage, d), n) = <(u8, Direction)>::deserialize(tail)?;
            Ok((ServerPacket::PlayerWasShot(damage, d), 1 + n))
        } else if t == 6 {
            let (v, n) = u32::deserialize(tail)?;
            Ok((ServerPacket::PlayerDied(v), 1 + n))
        } else {
            Err(DeserializeError::Invalid)
        }
    }

    #[verifier::rlimit(100)]
    proof fn lemma_parse_wire(v: Self, rest: Seq<u8>) {
        let b = v.wire() + rest;
        match v {
            ServerPacket::NewClientCoordsVisibleMap(nc) => {
                assert(b[0] == 0);
                assert(b.skip(1) =~= nc.wire() + rest);
                NewClient::lemma_parse_wire(nc, rest);
            },
            ServerPacket::NewCoords(nc) => {
                assert(b[0] == 1);
                assert(b.skip(1) =~= nc.wire() + rest);
                NewCoords::lemma_parse_wire(nc, rest);
            },
            ServerPacket::OtherPlayerMoved(m) => {
                assert(b[0] == 2);
                assert(b.skip(1) =~= m.wire() + rest);
                OtherPlayerMoved::lemma_parse_wire(m, rest);
            },
            ServerPacket::OtherPlayerMovedOutsideRadius(id) => {
                assert(b[0] == 3);
                assert(b.skip(1) =~= id.wire() + rest);
                u32::lemma_parse_wire(id, rest);
            },
            ServerPacket::PlayerDisconnected(id) => {
                assert(b[0] == 4);
                assert(b.skip(1) =~= id.wire() + rest);
                u32::lemma_parse_wire(id, rest);
            },
            ServerPacket::PlayerWasShot(damage, d) => {
                assert(b[0] == 5);
                assert(b.skip(1) =~= (damage, d).wire() + rest);
                <(u8, Direction)>::lemma_parse_wire((damage, d), rest);
            },
            ServerPacket::PlayerDied(id) => {
                assert(b[0] == 6);
                assert(b.skip(1) =~= id.wire() + rest);
                u32::lemma_parse_wire(id, rest);
            },
        }
    }

    proof fn lemma_parse_prefix(buf: Seq<u8>, ext: Seq<u8>) {
        if buf.len() >= 1 {
            assert((buf + ext)[0] == buf[0]);
            assert((buf + ext).skip(1) =~= buf.skip(1) + ext);
            NewClient::lemma_parse_prefix(buf.skip(1), ext);
            NewCoords::lemma_parse_prefix(buf.skip(1), ext);
            OtherPlayerMoved::lemma_parse_prefix(buf.skip(1), ext);
            u32::lemma_parse_prefix(buf.skip(1), ext);
            <(u8, Direction)>::lemma_parse_prefix(buf.skip(1), ext);
        }
    }
}

/// The top-level wire unit: who is speaking.
#[derive(Debug, PartialEq, Eq)]
pub enum Packet {
    Server(ServerPacket),
    Client(ClientPacket),
}

/// The abstract value of a [`Packet`].
pub enum PacketView {
    Server(ServerPacketView),
    Client(ClientPacket),
}

impl DeepView for Packet {
    type V = PacketView;

    open spec fn deep_view(&self) -> PacketView {
        match self {
            Packet::Server(sp) => PacketView::Server(sp.deep_view()),
            Packet::Client(cp) => PacketView::Client(*cp),
        }
    }
}

impl Serialize for Packet {
    open spec fn overflow_leaves_buffer() -> bool {
        false
    }

    open spec fn wf(&self) -> bool {
        match self {
            Packet::Server(sp) => sp.wf(),
            Packet::Client(_) => true,
        }
    }

    open spec fn wire(&self) -> Seq<u8> {
        match self {
            Packet::Server(sp) => seq![0u8] + sp.wire(),
            Packet::Client(cp) => seq![1u8] + cp.wire(),
        }
    }

    fn serialize_at(&self, buffer: &mut [u8], pos: usize) -> (r: Result<usize, SerializeError>) {
        match self {
            Packet::Server(sp) => write_tagged(0, sp, buffer, pos),
            Packet::Client(cp) => write_tagged(1, cp, buffer, pos),
        }
    }
}

impl Deserialize for Packet {
    open spec fn parse(buf: Seq<u8>) -> Option<(PacketView, int)> {
        if buf.len() < 1 {
            None
        } else if buf[0] == 0 {
            match ServerPacket::parse(buf.skip(1)) {
                Some((v, n)) => Some((PacketView::Server(v), 1 + n)),
                None => None,
            }
        } else if buf[0] == 1 {
            match ClientPacket::parse(buf.skip(1)) {
                Some((v, n)) => Some((PacketView::Client(v), 1 + n)),
                None => None,
            }
        } else {
            None
        }
    }

    fn deserialize(buf: &[u8]) -> (r: Result<(Self, usize), DeserializeError>) {
        if buf.len() < 1 {
            return Err(DeserializeError::Invalid);
        }
        let t = buf[0];
        if t >= 2 {
            return Err(DeserializeError::Invalid);
        }
        let tail = vstd::slice::slice_subrange(buf, 1, buf.len());
        proof {
            assert(tail@ =~= buf@.skip(1));
        }
        if t == 0 {
            let (v, n) = ServerPacket::deserialize(tail)?;
            Ok((Packet::Server(v), 1 + n))
        } else {
            let (v, n) = ClientPacket::deserialize(tail)?;
            Ok((Packet::Client(v), 1 + n))
        }
    }

    proof fn lemma_parse_wire(v: Self, rest: Seq<u8>) {
        let b = v.wire() + rest;
        match v {
            Packet::Server(sp) => {
                assert(b[0] == 0);
                assert(b.skip(1) =~= sp.wire() + rest);
                ServerPacket::lemma_parse_wire(sp, rest);
            },
            Packet::Client(cp) => {
                assert(b[0] == 1);
                assert(b.skip(1) =~= cp.wire() + rest);
                ClientPacket::lemma_parse_wire(cp, rest);
            },
        }
    }

    proof fn lemma_parse_prefix(buf: Seq<u8>, ext: Seq<u8>) {
        if buf.len() >= 1 {
            assert((buf + ext)[0] == buf[0]);
            assert((buf + ext).skip(1) =~= buf.skip(1) + ext);
            ServerPacket::lemma_parse_prefix(buf.skip(1), ext);
            ClientPacket::lemma_parse_prefix(buf.skip(1), ext);
        }
    }
}

/// Encode a death notice to the victim; the argument is the killer's id.
pub fn generate_player_died_payload(buf: &mut [u8], by_id: u32) -> (r: Result<
    usize,
    SerializeError,
>)
    ensures
        final(buf)@.len() == old(buf)@.len(),
        match r {
            Ok(n) => {
                &&& n == Packet::Server(ServerPacket::PlayerDied(by_id)).wire().len()
                &&& n <= final(buf)@.len()
                &&& final(buf)@.subrange(0, n as int) == Packet::Server(
                    ServerPacket::PlayerDied(by_id),
                ).wire()
                &&& final(buf)@.skip(n as int) == old(buf)@.skip(n as int)
            },
            Err(e) => {
                &&& e == SerializeError::BufferOverflow
                &&& Packet::Server(ServerPacket::PlayerDied(by_id)).wire().len() > old(buf)@.len()
            },
        },
{
    Packet::Server(ServerPacket::PlayerDied(by_id)).serialize(buf)
}

/// Encode a hit notice to the victim: damage taken and the shot's direction.
pub fn generate_shoot_payload(buf: &mut [u8], damage: u8, direction: Direction) -> (r: Result<
    usize,
    SerializeError,
>)
    ensures
        final(buf)@.len() == old(buf)@.len(),
        match r {
            Ok(n) => {
                &&& n == Packet::Server(ServerPacket::PlayerWasShot(damage, direction)).wire().len()
                &&& n <= final(buf)@.len()
                &&& final(buf)@.subrange(0, n as int) == Packet::Server(
                    ServerPacket::PlayerWasShot(damage, direction),
                ).wire()
                &&& final(buf)@.skip(n as int) == old(buf)@.skip(n as int)
            },
            Err(e) => {
                &&& e == SerializeError::BufferOverflow
                &&& Packet::Server(ServerPacket::PlayerWasShot(damage, direction)).wire().len()
                    > old(buf)@.len()
            },
        },
{
    Packet::Server(ServerPacket::PlayerWasShot(damage, direction)).serialize(buf)
}

/// Encode the notice that a peer's session ended.
pub fn generate_player_disconnected(buf: &mut [u8], id: u32) -> (r: Result<usize, SerializeError>)
    ensures
        final(buf)@.len() == old(buf)@.len(),
        match r {
            Ok(n) => {
                &&& n == Packet::Server(ServerPacket::PlayerDisconnected(id)).wire().len()
                &&& n <= final(buf)@.len()
                &&& final(buf)@.subrange(0, n as int) == Packet::Server(
                    ServerPacket::PlayerDisconnected(id),
                ).wire()
                &&& final(buf)@.skip(n as int) == old(buf)@.skip(n as int)
            },
            Err(e) => {
                &&& e == SerializeError::BufferOverflow
                &&& Packet::Server(ServerPacket::PlayerDisconnected(id)).wire().len()
                    > old(buf)@.len()
            },
        },
{
    Packet::Server(ServerPacket::PlayerDisconnected(id)).serialize(buf)
}

/// Encode the notice that a peer left the recipient's visibility disk.
pub fn generate_move_outside_radius_notify_payload(buf: &mut [u8], id: u32) -> (r: Result<
    usize,
    SerializeError,
>)
    ensures
        final(buf)@.len() == old(buf)@.len(),
        match r {
            Ok(n) => {
                &&& n == Packet::Server(
                    ServerPacket::OtherPlayerMovedOutsideRadius(id),
                ).wire().len()
                &&& n <= final(buf)@.len()
                &&& final(buf)@.subrange(0, n as int) == Packet::Server(
                    ServerPacket::OtherPlayerMovedOutsideRadius(id),
                ).wire()
                &&& final(buf)@.skip(n as int) == old(buf)@.skip(n as int)
            },
            Err(e) => {
                &&& e == SerializeError::BufferOverflow
                &&& Packet::Server(ServerPacket::OtherPlayerMovedOutsideRadius(id)).wire().len()
                    > old(buf)@.len()
            },
        },
{
    let packet = Packet::Server(ServerPacket::OtherPlayerMovedOutsideRadius(id));

    packet.serialize(buf)
}

/// Encode the notice that a peer is now at `coords`.
pub fn generate_move_notify_payload(buf: &mut [u8], coords: Coords, id: u32) -> (r: Result<
    usize,
    SerializeError,
>)
    ensures
        final(buf)@.len() == old(buf)@.len(),
        match r {
            Ok(n) => {
                &&& n == Packet::Server(
                    ServerPacket::OtherPlayerMoved(OtherPlayerMoved { coords, id }),
                ).wire().len()
                &&& n <= final(buf)@.len()
                &&& final(buf)@.subrange(0, n as int) == Packet::Server(
                    ServerPacket::OtherPlayerMoved(OtherPlayerMoved { coords, id }),
                ).wire()
                &&& final(buf)@.skip(n as int) == old(buf)@.skip(n as int)
            },
            Err(e) => {
                &&& e == SerializeError::BufferOverflow
                &&& Packet::Server(
                    ServerPacket::OtherPlayerMoved(OtherPlayerMoved { coords, id }),
                ).wire().len() > old(buf)@.len()
            },
        },
{
    let opm = OtherPlayerMoved { coords, id };
    let packet = Packet::Server(ServerPacket::OtherPlayerMoved(opm));

    packet.serialize(buf)
}

/// The initial snapshot packet for given connection data.
pub open spec fn initial_packet(
    id: u32,
    coords: Coords,
    radius: u8,
    hp: u8,
    weapon_range: u8,
    visible_coords: Seq<MapCell>,
    players: Seq<Player>,
) -> PacketView {
    PacketView::Server(
        ServerPacketView::NewClientCoordsVisibleMap(
            NewClientView { id, coords, hp, radius, weapon_range, visible_coords, players },
        ),
    )
}

/// Encode the initial snapshot for a newly connected client.
#[verifier::rlimit(100)]
pub fn generate_initial_payload(
    buf: &mut [u8],
    id: u32,
    coords: Coords,
    radius: u8,
    hp: u8,
    weapon_range: u8,
    visible_coords: Vec<MapCell>,
    players: Vec<Player>,
) -> (r: Result<usize, SerializeError>)
    requires
        visible_coords@.len() <= 255,
        players@.len() <= 255,
    ensures
        final(buf)@.len() == old(buf)@.len(),
        match r {
            Ok(n) => {
                &&& n <= final(buf)@.len()
                &&& Packet::parse(final(buf)@) == Some(
                    (
                        initial_packet(
                            id,
                            coords,
                            radius,
                            hp,
                            weapon_range,
                            visible_coords.deep_view(),
                            players.deep_view(),
                        ),
                        n as int,
                    ),
                )
                &&& final(buf)@.skip(n as int) == old(buf)@.skip(n as int)
            },
            Err(e) => {
                &&& e == SerializeError::BufferOverflow
                &&& Packet::Server(
                    ServerPacket::NewClientCoordsVisibleMap(
                        NewClient { id, coords, hp, radius, weapon_range, visible_coords, players },
                    ),
                ).wire().len() > old(buf)@.len()
            },
        },
{
    let packet = Packet::Server(
        ServerPacket::NewClientCoordsVisibleMap(
            NewClient::new(id, coords, visible_coords, radius, hp, weapon_range, players),
        ),
    );
    let r = packet.serialize(buf);
    proof {
        if let Ok(n) = r {
            Packet::lemma_parse_wire(packet, old(buf)@.skip(n as int));
            assert(packet.wire() + old(buf)@.skip(n as int) =~= buf@);
        }
    }
    r
}

/// The move acknowledgement packet for given data.
pub open spec fn new_coords_packet(
    center: Coords,
    coords: Seq<MapCell>,
    players: Seq<Player>,
) -> PacketView {
    PacketView::Server(
        ServerPacketView::NewCoords(NewCoordsView { center, coords, players }),
    )
}

/// Encode the acknowledgement of a client's own move.
#[verifier::rlimit(100)]
pub fn generate_new_coords_payload(
    buf: &mut [u8],
    new_player_coord: Coords,
    new_visible_coord: Vec<MapCell>,
    visible_players: Vec<Player>,
) -> (r: Result<usize, SerializeError>)
    requires
        new_visible_coord@.len() <= 255,
        visible_players@.len() <= 255,
    ensures
        final(buf)@.len() == old(buf)@.len(),
        match r {
            Ok(n) => {
                &&& n <= final(buf)@.len()
                &&& Packet::parse(final(buf)@) == Some(
                    (
                        new_coords_packet(
                            new_player_coord,
                            new_visible_coord.deep_view(),
                            visible_players.deep_view(),
                        ),
                        n as int,
                    ),
                )
                &&& final(buf)@.skip(n as int) == old(buf)@.skip(n as int)
            },
            Err(e) => {
                &&& e == SerializeError::BufferOverflow
                &&& Packet::Server(
                    ServerPacket::NewCoords(
                        NewCoords {
                            center: new_player_coord,
                            coords: new_visible_coord,
                            players: visible_players,
                        },
                    ),
                ).wire().len() > old(buf)@.len()
            },
        },
{
    let packet = Packet::Server(
        ServerPacket::NewCoords(
            NewCoords::new(new_player_coord, new_visible_coord, visible_players),
        ),
    );
    let r = packet.serialize(buf);
    proof {
        if let Ok(n) = r {
            Packet::lemma_parse_wire(packet, old(buf)@.skip(n as int));
            assert(packet.wire() + old(buf)@.skip(n as int) =~= buf@);
        }
    }
    r
}

} // verus!
