//! The authoritative game engine: per-player state, the occupancy
//! invariant, the move and shoot transitions, and the event fan-out that
//! decides which peers learn about each update.
//!
//! The engine is a pure state machine: each handler mutates the server
//! state and returns the outbound packets as data, each paired with the id
//! of its recipient.  The surrounding process serializes and delivers them.

use crate::protocol::{
    ClientPacket, Direction, NewClient, NewClientView, NewCoords, NewCoordsView, OtherPlayerMoved,
    Packet, PacketView, Player, ServerPacket, ServerPacketView,
};
use crate::codec::{Deserialize, Serialize};
use crate::types::{Block, Coords, MapCell, WorldMap};
use crate::utils::{generate_map, generate_random_coords, in_disk, is_inside_circle};
use vstd::prelude::*;

verus! {

/// A player's weapon: how far a shot reaches and how hard it hits.
#[derive(Clone, Copy, Debug, PartialEq, Eq, Structural)]
pub struct Weapon {
    pub range: u8,
    pub damage: u8,
}

impl Default for Weapon {
    /// The starting weapon: reach five cells, one damage per hit.
    fn default() -> (w: Self)
        ensures
            w == (Weapon { range: 5, damage: 1 }),
    {
        Self { range: 5, damage: 1 }
    }
}

/// One connected player's authoritative record.
#[derive(Clone, Copy, Debug, PartialEq, Eq)]
pub struct Client {
    pub id: u32,
    pub coords: Coords,
    pub radius: u8,
    pub hp: u8,
    pub weapon: Weapon,
}

/// One cell of the authoritative map: terrain plus the id of the player
/// standing on it, if any.
#[derive(Clone, Copy, Debug, PartialEq, Eq, Structural)]
pub struct ServerCell {
    pub block: Block,
    pub occupant: Option<u32>,
}

impl Default for ServerCell {
    /// An empty grass cell.
    fn default() -> (c: Self)
        ensures
            c == (ServerCell { block: Block::Grass, occupant: None::<u32> }),
    {
        Self { block: Block::Grass, occupant: None }
    }
}

/// The authoritative map: terrain and occupancy.
pub struct ServerMap {
    pub height: usize,
    pub width: usize,
    pub coords: Vec<Vec<ServerCell>>,
}

impl ServerMap {
    /// The stored grid matches the declared dimensions, which fit the
    /// 16-bit coordinate space.
    pub open spec fn wf(&self) -> bool {
        &&& self.coords@.len() == self.height
        &&& forall|i: int|
            0 <= i < self.coords@.len() ==> (#[trigger] self.coords@[i])@.len() == self.width
        &&& 0 < self.height <= u16::MAX
        &&& 0 < self.width <= u16::MAX
    }

    /// The cell at mathematical indices `(r, c)`.
    pub open spec fn cell(&self, r: int, c: int) -> ServerCell {
        self.coords@[r]@[c]
    }

    /// Whether a position lies on the map.
    pub open spec fn in_bounds(&self, p: Coords) -> bool {
        (p.0 as int) < self.height && (p.1 as int) < self.width
    }

    /// Take over the terrain of a generated world, with every cell empty.
    pub fn from_map(map: &WorldMap) -> (m: ServerMap)
        requires
            map.wf(),
        ensures
            m.wf(),
            m.height == map.height,
            m.width == map.width,
            forall|i: int, j: int|
                0 <= i < map.height && 0 <= j < map.width ==> #[trigger] m.cell(i, j)
                    == (ServerCell { block: map.block_at(i, j), occupant: None::<u32> }),
    {
        let height = map.height;
        let width = map.width;
        let mut coords: Vec<Vec<ServerCell>> = Vec::new();
        let mut i: usize = 0;
        while i < height
            invariant
                map.wf(),
                height == map.height,
                width == map.width,
                i <= height,
                coords@.len() == i,
                forall|r: int| 0 <= r < i ==> (#[trigger] coords@[r])@.len() == width,
                forall|r: int, c: int|
                    0 <= r < i && 0 <= c < width ==> #[trigger] coords@[r]@[c] == (ServerCell {
                        block: map.block_at(r, c),
                        occupant: None::<u32>,
                    }),
            decreases height - i,
        {
            let row_src = &map.coords[i];
            let mut row: Vec<ServerCell> = Vec::new();
            let mut j: usize = 0;
            while j < width
                invariant
                    map.wf(),
                    width == map.width,
                    i < map.height,
                    row_src == map.coords@[i as int],
                    j <= width,
                    row@.len() == j,
                    forall|c: int|
                        0 <= c < j ==> #[trigger] row@[c] == (ServerCell {
                            block: map.block_at(i as int, c),
                            occupant: None::<u32>,
                        }),
                decreases width - j,
            {
                row.push(ServerCell { block: row_src[j], occupant: None });
                j = j + 1;
            }
            coords.push(row);
            i = i + 1;
        }
        ServerMap { height, width, coords }
    }
}

/// All player ids in the table differ.
pub open spec fn ids_unique(clients: Seq<Client>) -> bool {
    forall|i: int, j: int|
        0 <= i < clients.len() && 0 <= j < clients.len() && i != j ==> #[trigger] clients[i].id
            != #[trigger] clients[j].id
}

/// The index of the player with the given id, if connected.
pub open spec fn find_client(clients: Seq<Client>, id: u32) -> Option<int>
    decreases clients.len(),
{
    if clients.len() == 0 {
        None
    } else if clients[0].id == id {
        Some(0)
    } else {
        match find_client(clients.skip(1), id) {
            Some(i) => Some(i + 1),
            None => None,
        }
    }
}

/// What `find_client` finds: the first index holding the id.
pub proof fn lemma_find_client(clients: Seq<Client>, id: u32)
    ensures
        match find_client(clients, id) {
            Some(i) => 0 <= i < clients.len() && clients[i].id == id,
            None => forall|i: int| 0 <= i < clients.len() ==> (#[trigger] clients[i]).id != id,
        },
    decreases clients.len(),
{
    if clients.len() > 0 {
        lemma_find_client(clients.skip(1), id);
        match find_client(clients.skip(1), id) {
            Some(i) => {
                assert(clients.skip(1)[i] == clients[i + 1]);
            },
            None => {
                if clients[0].id != id {
                    assert forall|i: int| 0 <= i < clients.len() implies (#[trigger] clients[i]).id
                        != id by {
                        if i > 0 {
                            assert(clients.skip(1)[i - 1] == clients[i]);
                        }
                    }
                }
            },
        }
    }
}

/// The whole engine state: the player table, the id well, and the map.
pub struct Server {
    pub clients: Vec<Client>,
    pub id_counter: u32,
    pub map: ServerMap,
}

impl Server {
    /// The engine invariant.
    ///
    /// - every player stands on the map, on a cell that names it as its
    ///   occupant;
    /// - every occupied cell belongs to a player standing exactly there,
    ///   so no two players share a cell;
    /// - ids are unique and below the id well;
    /// - radii are small enough that a visibility disk always fits the
    ///   one-byte length prefix of the wire format, and the table itself
    ///   fits one length prefix.
    pub open spec fn wf(&self) -> bool {
        &&& self.map.wf()
        &&& self.clients@.len() <= 255
        &&& ids_unique(self.clients@)
        &&& forall|i: int|
            0 <= i < self.clients@.len() ==> {
                let c = #[trigger] self.clients@[i];
                &&& self.map.in_bounds(c.coords)
                &&& self.map.cell(c.coords.0 as int, c.coords.1 as int).occupant == Some(c.id)
                &&& c.id < self.id_counter
                &&& c.radius <= 7
            }
        &&& forall|r: int, c: int|
            0 <= r < self.map.height && 0 <= c < self.map.width && (#[trigger] self.map.cell(
                r,
                c,
            )).occupant is Some ==> exists|i: int|
                0 <= i < self.clients@.len() && (#[trigger] self.clients@[i]).coords == (
                r as u16,
                c as u16,
                ) && Some(self.clients@[i].id) == self.map.cell(r, c).occupant
    }

    /// A fresh engine over a newly generated world: no players yet.
    pub fn new() -> (s: Self)
        ensures
            s.wf(),
            s.clients@.len() == 0,
            s.id_counter == 0,
            20 <= s.map.height < 50,
            20 <= s.map.width < 50,
            forall|r: int, c: int|
                0 <= r < s.map.height && 0 <= c < s.map.width ==> #[trigger] s.map.cell(r, c)
                    == (ServerCell { block: Block::Grass, occupant: None::<u32> }),
    {
        let map = ServerMap::from_map(&generate_map());
        Self { map, id_counter: 0, clients: Vec::new() }
    }
}

/// The cells of one bounding-box row that pass the disk predicate, in
/// column order.
pub open spec fn row_cells(
    map: &ServerMap,
    center: Coords,
    radius: u8,
    r: int,
    c_lo: int,
    c_hi: int,
) -> Seq<MapCell>
    decreases c_hi - c_lo,
{
    if c_lo >= c_hi {
        Seq::empty()
    } else {
        let head = if in_disk(center, radius, (r as u16, c_lo as u16)) {
            seq![MapCell { block: map.cell(r, c_lo).block, coords: (r as u16, c_lo as u16) }]
        } else {
            Seq::empty()
        };
        head + row_cells(map, center, radius, r, c_lo + 1, c_hi)
    }
}

/// The visible cells of the rows `r_lo .. r_hi`, row-major.
pub open spec fn disk_cells(
    map: &ServerMap,
    center: Coords,
    radius: u8,
    r_lo: int,
    r_hi: int,
    c_lo: int,
    c_hi: int,
) -> Seq<MapCell>
    decreases r_hi - r_lo,
{
    if r_lo >= r_hi {
        Seq::empty()
    } else {
        row_cells(map, center, radius, r_lo, c_lo, c_hi) + disk_cells(
            map,
            center,
            radius,
            r_lo + 1,
            r_hi,
            c_lo,
            c_hi,
        )
    }
}

/// The lower bound of the bounding box on one axis.
pub open spec fn bbox_lo(center: u16, radius: u8) -> int {
    if center >= radius {
        center - radius
    } else {
        0
    }
}

/// The upper (exclusive) bound of the bounding box on one axis, clipped to
/// the map extent.
pub open spec fn bbox_hi(center: u16, radius: u8, extent: int) -> int {
    if 1 + center + radius <= extent {
        1 + center + radius
    } else {
        extent
    }
}

/// The full visible map around a center: the bounding box clipped to the
/// map, filtered by the disk predicate, row-major.
pub open spec fn visible_cells(map: &ServerMap, center: Coords, radius: u8) -> Seq<MapCell> {
    disk_cells(
        map,
        center,
        radius,
        bbox_lo(center.0, radius),
        bbox_hi(center.0, radius, map.height as int),
        bbox_lo(center.1, radius),
        bbox_hi(center.1, radius, map.width as int),
    )
}

/// Every emitted cell lies on the map, inside the disk, and reports the
/// terrain at its position.
pub proof fn lemma_row_cells_sound(
    map: &ServerMap,
    center: Coords,
    radius: u8,
    r: int,
    c_lo: int,
    c_hi: int,
)
    requires
        map.wf(),
        0 <= r < map.height,
        0 <= c_lo,
        c_hi <= map.width,
    ensures
        row_cells(map, center, radius, r, c_lo, c_hi).len() <= c_hi - c_lo || c_hi < c_lo,
        forall|k: int|
            0 <= k < row_cells(map, center, radius, r, c_lo, c_hi).len() ==> {
                let cell = #[trigger] row_cells(map, center, radius, r, c_lo, c_hi)[k];
                &&& cell.coords.0 == r
                &&& c_lo <= cell.coords.1 < c_hi
                &&& in_disk(center, radius, cell.coords)
                &&& cell.block == map.cell(cell.coords.0 as int, cell.coords.1 as int).block
            },
    decreases c_hi - c_lo,
{
    if c_lo < c_hi {
        lemma_row_cells_sound(map, center, radius, r, c_lo + 1, c_hi);
    }
}

/// Soundness and the length bound for the whole visible region.
pub proof fn lemma_disk_cells_sound(
    map: &ServerMap,
    center: Coords,
    radius: u8,
    r_lo: int,
    r_hi: int,
    c_lo: int,
    c_hi: int,
)
    requires
        map.wf(),
        0 <= r_lo,
        r_hi <= map.height,
        0 <= c_lo,
        c_hi <= map.width,
    ensures
        disk_cells(map, center, radius, r_lo, r_hi, c_lo, c_hi).len() <= (if r_hi >= r_lo {
            (r_hi - r_lo)
        } else {
            0
        }) * (if c_hi >= c_lo {
            (c_hi - c_lo)
        } else {
            0
        }),
        forall|k: int|
            0 <= k < disk_cells(map, center, radius, r_lo, r_hi, c_lo, c_hi).len() ==> {
                let cell = #[trigger] disk_cells(map, center, radius, r_lo, r_hi, c_lo, c_hi)[k];
                &&& r_lo <= cell.coords.0 < r_hi
                &&& c_lo <= cell.coords.1 < c_hi
                &&& in_disk(center, radius, cell.coords)
                &&& cell.block == map.cell(cell.coords.0 as int, cell.coords.1 as int).block
            },
    decreases r_hi - r_lo,
{
    if r_lo < r_hi {
        lemma_row_cells_sound(map, center, radius, r_lo, c_lo, c_hi);
        lemma_disk_cells_sound(map, center, radius, r_lo + 1, r_hi, c_lo, c_hi);
        let rows = if r_hi >= r_lo + 1 {
            r_hi - r_lo - 1
        } else {
            0
        };
        let cols = if c_hi >= c_lo {
            c_hi - c_lo
        } else {
            0
        };
        assert((rows + 1) * cols == rows * cols + cols) by (nonlinear_arith);
    }
}

/// Compute the visible map around a center: every in-bounds cell of the
/// clipped bounding box that passes the disk predicate, in row-major
/// order.
pub fn visible_map(map: &ServerMap, coords: Coords, radius: u8) -> (res: Vec<MapCell>)
    requires
        map.wf(),
    ensures
        res@ == visible_cells(map, coords, radius),
{
    let radius16 = radius as u16;
    let top_r: u16 = if coords.0 >= radius16 {
        coords.0 - radius16
    } else {
        0
    };
    let top_c: u16 = if coords.1 >= radius16 {
        coords.1 - radius16
    } else {
        0
    };
    let height16: u16 = map.height as u16;
    let width16: u16 = map.width as u16;
    let bot_r: u16 = if (coords.0 as u32) + (radius16 as u32) + 1 <= (height16 as u32) {
        coords.0 + radius16 + 1
    } else {
        height16
    };
    let bot_c: u16 = if (coords.1 as u32) + (radius16 as u32) + 1 <= (width16 as u32) {
        coords.1 + radius16 + 1
    } else {
        width16
    };
    let mut res: Vec<MapCell> = Vec::new();
    let mut i: u16 = top_r;
    proof {
        assert(res@ =~= disk_cells(
            map,
            coords,
            radius,
            top_r as int,
            top_r as int,
            top_c as int,
            bot_c as int,
        ));
    }
    while i < bot_r
        invariant
            map.wf(),
            top_r == bbox_lo(coords.0, radius),
            top_c == bbox_lo(coords.1, radius),
            bot_r == bbox_hi(coords.0, radius, map.height as int),
            bot_c == bbox_hi(coords.1, radius, map.width as int),
            top_r <= i,
            i <= bot_r || i == top_r,
            bot_r <= map.height,
            bot_c <= map.width,
            res@ == disk_cells(
                map,
                coords,
                radius,
                top_r as int,
                i as int,
                top_c as int,
                bot_c as int,
            ),
        decreases bot_r - i,
    {
        let mut j: u16 = top_c;
        proof {
            assert(row_cells(map, coords, radius, i as int, top_c as int, top_c as int)
                =~= Seq::<MapCell>::empty());
            assert(res@ =~= res@ + row_cells(
                map,
                coords,
                radius,
                i as int,
                top_c as int,
                top_c as int,
            ));
        }
        let ghost row_start = res@;
        while j < bot_c
            invariant
                map.wf(),
                top_r <= i < bot_r,
                bot_r <= map.height,
                bot_c <= map.width,
                top_c <= j,
                j <= bot_c || j == top_c,
                res@ == row_start + row_cells(
                    map,
                    coords,
                    radius,
                    i as int,
                    top_c as int,
                    j as int,
                ),
            decreases bot_c - j,
        {
            let ghost pre = res@;
            if is_inside_circle(coords, radius, (i, j)) {
                let block = map.coords[i as usize][j as usize].block;
                res.push(MapCell { block, coords: (i, j) });
            }
            proof {
                lemma_row_cells_step(map, coords, radius, i as int, top_c as int, j as int);
                assert(res@ =~= row_start + row_cells(
                    map,
                    coords,
                    radius,
                    i as int,
                    top_c as int,
                    j + 1,
                ));
            }
            j = j + 1;
        }
        proof {
            lemma_disk_cells_step(
                map,
                coords,
                radius,
                top_r as int,
                i as int,
                top_c as int,
                bot_c as int,
            );
        }
        i = i + 1;
    }
    res
}

/// The coordinates one step in a direction, or nothing when the step
/// leaves the 16-bit coordinate space (stepping up or left at zero is
/// rejected, matching the saturating wire design).
pub open spec fn step_coords(c: Coords, d: Direction) -> Option<Coords> {
    match d {
        Direction::Up => if c.0 > 0 {
            Some(((c.0 - 1) as u16, c.1))
        } else {
            None
        },
        Direction::Down => if c.0 < u16::MAX {
            Some(((c.0 + 1) as u16, c.1))
        } else {
            None
        },
        Direction::Left => if c.1 > 0 {
            Some((c.0, (c.1 - 1) as u16))
        } else {
            None
        },
        Direction::Right => if c.1 < u16::MAX {
            Some((c.0, (c.1 + 1) as u16))
        } else {
            None
        },
    }
}

/// The packet telling a peer that `mover` now stands at `coords`.
pub open spec fn moved_packet(mover: u32, coords: Coords) -> ServerPacketView {
    ServerPacketView::OtherPlayerMoved(OtherPlayerMoved { coords, id: mover })
}

/// The packet telling a peer that `mover` left its disk.
pub open spec fn outside_packet(mover: u32) -> ServerPacketView {
    ServerPacketView::OtherPlayerMovedOutsideRadius(mover)
}

/// What one peer is told about a move of `mover` from `old_c` to `new_c`:
/// a position update if the new cell is inside the peer's disk, a
/// departure notice if only the old one was, nothing otherwise or to the
/// mover itself.
pub open spec fn peer_notice(q: Client, mover: u32, old_c: Coords, new_c: Coords) -> Seq<
    (u32, ServerPacketView),
> {
    if q.id == mover {
        Seq::empty()
    } else if in_disk(q.coords, q.radius, new_c) {
        seq![(q.id, moved_packet(mover, new_c))]
    } else if in_disk(q.coords, q.radius, old_c) {
        seq![(q.id, outside_packet(mover))]
    } else {
        Seq::empty()
    }
}

/// The packets sent to peers for a move, in table order.
pub open spec fn move_peer_outbox(
    peers: Seq<Client>,
    mover: u32,
    old_c: Coords,
    new_c: Coords,
) -> Seq<(u32, ServerPacketView)>
    decreases peers.len(),
{
    if peers.len() == 0 {
        Seq::empty()
    } else {
        peer_notice(peers[0], mover, old_c, new_c) + move_peer_outbox(
            peers.skip(1),
            mover,
            old_c,
            new_c,
        )
    }
}

/// Appending one peer appends its notice.
pub proof fn lemma_move_peer_outbox_snoc(
    peers: Seq<Client>,
    x: Client,
    mover: u32,
    old_c: Coords,
    new_c: Coords,
)
    ensures
        move_peer_outbox(peers.push(x), mover, old_c, new_c) == move_peer_outbox(
            peers,
            mover,
            old_c,
            new_c,
        ) + peer_notice(x, mover, old_c, new_c),
    decreases peers.len(),
{
    if peers.len() == 0 {
        assert(peers.push(x)[0] == x);
        assert(peers.push(x).skip(1) =~= Seq::<Client>::empty());
        assert(move_peer_outbox(Seq::<Client>::empty(), mover, old_c, new_c) == Seq::<
            (u32, ServerPacketView),
        >::empty());
        assert(move_peer_outbox(peers.push(x), mover, old_c, new_c) =~= move_peer_outbox(
            peers,
            mover,
            old_c,
            new_c,
        ) + peer_notice(x, mover, old_c, new_c));
    } else {
        assert(peers.push(x)[0] == peers[0]);
        assert(peers.push(x).skip(1) =~= peers.skip(1).push(x));
        lemma_move_peer_outbox_snoc(peers.skip(1), x, mover, old_c, new_c);
        assert(move_peer_outbox(peers.push(x), mover, old_c, new_c) =~= move_peer_outbox(
            peers,
            mover,
            old_c,
            new_c,
        ) + peer_notice(x, mover, old_c, new_c));
    }
}

/// The peers inside the disk around `center`, as wire players, in table
/// order, the mover itself excluded.
pub open spec fn visible_peers(
    peers: Seq<Client>,
    mover: u32,
    center: Coords,
    radius: u8,
) -> Seq<Player>
    decreases peers.len(),
{
    if peers.len() == 0 {
        Seq::empty()
    } else {
        let q = peers[0];
        let here = if q.id != mover && in_disk(center, radius, q.coords) {
            seq![Player { id: q.id, coords: q.coords }]
        } else {
            Seq::<Player>::empty()
        };
        here + visible_peers(peers.skip(1), mover, center, radius)
    }
}

/// Appending one peer appends its entry, if it is visible.
pub proof fn lemma_visible_peers_snoc(
    peers: Seq<Client>,
    x: Client,
    mover: u32,
    center: Coords,
    radius: u8,
)
    ensures
        visible_peers(peers.push(x), mover, center, radius) == visible_peers(
            peers,
            mover,
            center,
            radius,
        ) + (if x.id != mover && in_disk(center, radius, x.coords) {
            seq![Player { id: x.id, coords: x.coords }]
        } else {
            Seq::<Player>::empty()
        }),
    decreases peers.len(),
{
    if peers.len() == 0 {
        assert(peers.push(x)[0] == x);
        assert(peers.push(x).skip(1) =~= Seq::<Client>::empty());
        assert(visible_peers(Seq::<Client>::empty(), mover, center, radius) == Seq::<
            Player,
        >::empty());
        assert(visible_peers(peers.push(x), mover, center, radius) =~= visible_peers(
            peers,
            mover,
            center,
            radius,
        ) + (if x.id != mover && in_disk(center, radius, x.coords) {
            seq![Player { id: x.id, coords: x.coords }]
        } else {
            Seq::<Player>::empty()
        }));
    } else {
        assert(peers.push(x)[0] == peers[0]);
        assert(peers.push(x).skip(1) =~= peers.skip(1).push(x));
        lemma_visible_peers_snoc(peers.skip(1), x, mover, center, radius);
        assert(visible_peers(peers.push(x), mover, center, radius) =~= visible_peers(
            peers,
            mover,
            center,
            radius,
        ) + (if x.id != mover && in_disk(center, radius, x.coords) {
            seq![Player { id: x.id, coords: x.coords }]
        } else {
            Seq::<Player>::empty()
        }));
    }
}

/// The move acknowledgement sent back to the mover itself.
pub open spec fn self_notice(map: &ServerMap, peers: Seq<Client>, mover: u32, new_c: Coords, radius: u8) -> (
    u32,
    ServerPacketView,
) {
    (
        mover,
        ServerPacketView::NewCoords(
            NewCoordsView {
                center: new_c,
                coords: visible_cells(map, new_c, radius),
                players: visible_peers(peers, mover, new_c, radius),
            },
        ),
    )
}

/// The full effect of a `Move(d)` request from the player with id `mover`:
/// either the move is rejected (unknown player, stepping off the grid, or
/// a blocked cell) and nothing changes and nothing is sent, or occupancy
/// moves atomically with the player's record and exactly the fan-out
/// packets plus one acknowledgement are produced.
pub open spec fn move_transition(
    pre: Server,
    post: Server,
    out: Seq<(u32, ServerPacketView)>,
    mover: u32,
    d: Direction,
) -> bool {
    match find_client(pre.clients@, mover) {
        None => post == pre && out == Seq::<(u32, ServerPacketView)>::empty(),
        Some(i) => {
            let c = pre.clients@[i];
            match step_coords(c.coords, d) {
                None => post == pre && out == Seq::<(u32, ServerPacketView)>::empty(),
                Some(new_c) => {
                    if pre.map.in_bounds(new_c) && pre.map.cell(
                        new_c.0 as int,
                        new_c.1 as int,
                    ).occupant is None {
                        &&& post.clients@ == pre.clients@.update(
                            i,
                            Client { coords: new_c, ..c },
                        )
                        &&& post.id_counter == pre.id_counter
                        &&& post.map.height == pre.map.height
                        &&& post.map.width == pre.map.width
                        &&& forall|r: int, cc: int|
                            0 <= r < pre.map.height && 0 <= cc < pre.map.width
                                ==> #[trigger] post.map.cell(r, cc) == (if r == c.coords.0 as int
                                && cc == c.coords.1 as int {
                                ServerCell { occupant: None, ..pre.map.cell(r, cc) }
                            } else if r == new_c.0 as int && cc == new_c.1 as int {
                                ServerCell { occupant: Some(mover), ..pre.map.cell(r, cc) }
                            } else {
                                pre.map.cell(r, cc)
                            })
                        &&& out == move_peer_outbox(post.clients@, mover, c.coords, new_c)
                            + seq![
                            self_notice(&post.map, post.clients@, mover, new_c, c.radius),
                        ]
                    } else {
                        post == pre && out == Seq::<(u32, ServerPacketView)>::empty()
                    }
                },
            }
        },
    }
}

/// How many packets of an outbox are addressed to `to`, whatever they say.
pub open spec fn count_to(out: Seq<(u32, ServerPacketView)>, to: u32) -> nat
    decreases out.len(),
{
    if out.len() == 0 {
        0
    } else {
        (if out[0].0 == to {
            1nat
        } else {
            0nat
        }) + count_to(out.skip(1), to)
    }
}

/// How many copies of exactly the packet `p` an outbox holds for `to`.
pub open spec fn count_msg(out: Seq<(u32, ServerPacketView)>, to: u32, p: ServerPacketView) -> nat
    decreases out.len(),
{
    if out.len() == 0 {
        0
    } else {
        (if out[0].0 == to && out[0].1 == p {
            1nat
        } else {
            0nat
        }) + count_msg(out.skip(1), to, p)
    }
}

/// Counting distributes over concatenation.
pub proof fn lemma_count_concat(a: Seq<(u32, ServerPacketView)>, b: Seq<(u32, ServerPacketView)>, to: u32, p: ServerPacketView)
    ensures
        count_to(a + b, to) == count_to(a, to) + count_to(b, to),
        count_msg(a + b, to, p) == count_msg(a, to, p) + count_msg(b, to, p),
    decreases a.len(),
{
    if a.len() == 0 {
        assert(a + b =~= b);
    } else {
        assert((a + b)[0] == a[0]);
        assert((a + b).skip(1) =~= a.skip(1) + b);
        lemma_count_concat(a.skip(1), b, to, p);
    }
}

/// Counting a single entry.
pub proof fn lemma_count_singleton(e: (u32, ServerPacketView), to: u32, p: ServerPacketView)
    ensures
        count_to(seq![e], to) == (if e.0 == to {
            1nat
        } else {
            0nat
        }),
        count_msg(seq![e], to, p) == (if e.0 == to && e.1 == p {
            1nat
        } else {
            0nat
        }),
{
    assert(seq![e].skip(1) =~= Seq::<(u32, ServerPacketView)>::empty());
    assert(count_to(Seq::<(u32, ServerPacketView)>::empty(), to) == 0);
    assert(count_msg(Seq::<(u32, ServerPacketView)>::empty(), to, p) == 0);
}

/// Nothing in the peer fan-out is addressed to someone outside the table,
/// nor to the mover itself.
pub proof fn lemma_move_outbox_strangers(
    peers: Seq<Client>,
    mover: u32,
    old_c: Coords,
    new_c: Coords,
    to: u32,
)
    requires
        to == mover || forall|i: int| 0 <= i < peers.len() ==> (#[trigger] peers[i]).id != to,
    ensures
        count_to(move_peer_outbox(peers, mover, old_c, new_c), to) == 0,
    decreases peers.len(),
{
    let p = outside_packet(mover);
    if peers.len() == 0 {
    } else {
        let q = peers[0];
        assert forall|i: int| 0 <= i < peers.skip(1).len() implies (#[trigger] peers.skip(1)[i]).id
            != to || to == mover by {
            if to != mover {
                assert(peers.skip(1)[i] == peers[i + 1]);
            }
        }
        lemma_move_outbox_strangers(peers.skip(1), mover, old_c, new_c, to);
        lemma_count_concat(
            peer_notice(q, mover, old_c, new_c),
            move_peer_outbox(peers.skip(1), mover, old_c, new_c),
            to,
            p,
        );
        if q.id != mover {
            lemma_count_singleton((q.id, moved_packet(mover, new_c)), to, p);
            lemma_count_singleton((q.id, outside_packet(mover)), to, p);
        }
    }
}

/// Fan-out completeness for one peer `Q = peers[i]` of a move of `mover`
/// from `old_c` to `new_c`:
/// - `Q` receives exactly one position update when the new position is in
///   its disk, and none otherwise;
/// - `Q` receives exactly one departure notice when only the old position
///   was in its disk, and none otherwise;
/// - a peer that saw neither position receives nothing at all.
pub proof fn lemma_move_fanout(
    peers: Seq<Client>,
    mover: u32,
    old_c: Coords,
    new_c: Coords,
    i: int,
)
    requires
        ids_unique(peers),
        0 <= i < peers.len(),
        peers[i].id != mover,
    ensures
        count_msg(move_peer_outbox(peers, mover, old_c, new_c), peers[i].id, moved_packet(mover, new_c))
            == (if in_disk(peers[i].coords, peers[i].radius, new_c) {
            1nat
        } else {
            0nat
        }),
        count_msg(move_peer_outbox(peers, mover, old_c, new_c), peers[i].id, outside_packet(mover))
            == (if !in_disk(peers[i].coords, peers[i].radius, new_c) && in_disk(
            peers[i].coords,
            peers[i].radius,
            old_c,
        ) {
            1nat
        } else {
            0nat
        }),
        !in_disk(peers[i].coords, peers[i].radius, new_c) && !in_disk(
            peers[i].coords,
            peers[i].radius,
            old_c,
        ) ==> count_to(move_peer_outbox(peers, mover, old_c, new_c), peers[i].id) == 0,
    decreases peers.len(),
{
    let q = peers[0];
    let to = peers[i].id;
    let notice = peer_notice(q, mover, old_c, new_c);
    let rest = move_peer_outbox(peers.skip(1), mover, old_c, new_c);
    lemma_count_concat(notice, rest, to, moved_packet(mover, new_c));
    lemma_count_concat(notice, rest, to, outside_packet(mover));
    if i == 0 {
        // The head peer's own notice, then nothing more for it further on.
        assert forall|j: int| 0 <= j < peers.skip(1).len() implies (#[trigger] peers.skip(
            1,
        )[j]).id != to by {
            assert(peers.skip(1)[j] == peers[j + 1]);
        }
        lemma_move_outbox_strangers(peers.skip(1), mover, old_c, new_c, to);
        lemma_count_to_zero_means_no_msg(rest, to, moved_packet(mover, new_c));
        lemma_count_to_zero_means_no_msg(rest, to, outside_packet(mover));
        if q.id != mover {
            lemma_count_singleton((q.id, moved_packet(mover, new_c)), to, moved_packet(mover, new_c));
            lemma_count_singleton((q.id, moved_packet(mover, new_c)), to, outside_packet(mover));
            lemma_count_singleton((q.id, outside_packet(mover)), to, moved_packet(mover, new_c));
            lemma_count_singleton((q.id, outside_packet(mover)), to, outside_packet(mover));
        }
    } else {
        // The head peer's notice goes to someone else entirely.
        assert(q.id != to);
        if q.id != mover {
            lemma_count_singleton((q.id, moved_packet(mover, new_c)), to, moved_packet(mover, new_c));
            lemma_count_singleton((q.id, moved_packet(mover, new_c)), to, outside_packet(mover));
            lemma_count_singleton((q.id, outside_packet(mover)), to, moved_packet(mover, new_c));
            lemma_count_singleton((q.id, outside_packet(mover)), to, outside_packet(mover));
        }
        assert(ids_unique(peers.skip(1))) by {
            assert forall|a: int, b: int|
                0 <= a < peers.skip(1).len() && 0 <= b < peers.skip(1).len() && a != b implies (
            #[trigger] peers.skip(1)[a]).id != (#[trigger] peers.skip(1)[b]).id by {
                assert(peers.skip(1)[a] == peers[a + 1]);
                assert(peers.skip(1)[b] == peers[b + 1]);
            }
        }
        assert(peers.skip(1)[i - 1] == peers[i]);
        lemma_move_fanout(peers.skip(1), mover, old_c, new_c, i - 1);
        assert(count_to(notice, to) == 0) by {
            lemma_count_singleton((q.id, moved_packet(mover, new_c)), to, moved_packet(mover, new_c));
            lemma_count_singleton((q.id, outside_packet(mover)), to, moved_packet(mover, new_c));
        }
    }
}

/// Fan-out completeness over the whole outbox of a move, acknowledgement
/// included, for one peer `Q = peers[i]`: exactly one position update when
/// the new position is in `Q`'s disk; exactly one departure notice when
/// only the old one was; nothing at all when `Q` saw neither.
pub proof fn lemma_move_fanout_full(
    map: &ServerMap,
    peers: Seq<Client>,
    mover: u32,
    old_c: Coords,
    new_c: Coords,
    radius: u8,
    i: int,
)
    requires
        ids_unique(peers),
        0 <= i < peers.len(),
        peers[i].id != mover,
    ensures
        ({
            let full = move_peer_outbox(peers, mover, old_c, new_c) + seq![
                self_notice(map, peers, mover, new_c, radius),
            ];
            &&& count_msg(full, peers[i].id, moved_packet(mover, new_c)) == (if in_disk(
                peers[i].coords,
                peers[i].radius,
                new_c,
            ) {
                1nat
            } else {
                0nat
            })
            &&& count_msg(full, peers[i].id, outside_packet(mover)) == (if !in_disk(
                peers[i].coords,
                peers[i].radius,
                new_c,
            ) && in_disk(peers[i].coords, peers[i].radius, old_c) {
                1nat
            } else {
                0nat
            })
            &&& (!in_disk(peers[i].coords, peers[i].radius, new_c) && !in_disk(
                peers[i].coords,
                peers[i].radius,
                old_c,
            ) ==> count_to(full, peers[i].id) == 0)
        }),
{
    let to = peers[i].id;
    let ack = self_notice(map, peers, mover, new_c, radius);
    let peer_out = move_peer_outbox(peers, mover, old_c, new_c);
    lemma_move_fanout(peers, mover, old_c, new_c, i);
    lemma_count_concat(peer_out, seq![ack], to, moved_packet(mover, new_c));
    lemma_count_concat(peer_out, seq![ack], to, outside_packet(mover));
    lemma_count_singleton(ack, to, moved_packet(mover, new_c));
    lemma_count_singleton(ack, to, outside_packet(mover));
}

/// A recipient with no packets at all has no packet of any particular kind.
pub proof fn lemma_count_to_zero_means_no_msg(
    out: Seq<(u32, ServerPacketView)>,
    to: u32,
    p: ServerPacketView,
)
    requires
        count_to(out, to) == 0,
    ensures
        count_msg(out, to, p) == 0,
    decreases out.len(),
{
    if out.len() > 0 {
        lemma_count_to_zero_means_no_msg(out.skip(1), to, p);
    }
}

/// The mover of a move receives exactly one packet: the acknowledgement,
/// whose `players` list is exactly the peers inside its new disk.
pub proof fn lemma_move_ack(
    map: &ServerMap,
    peers: Seq<Client>,
    mover: u32,
    old_c: Coords,
    new_c: Coords,
    radius: u8,
)
    ensures
        count_to(
            move_peer_outbox(peers, mover, old_c, new_c) + seq![
                self_notice(map, peers, mover, new_c, radius),
            ],
            mover,
        ) == 1,
        count_msg(
            move_peer_outbox(peers, mover, old_c, new_c) + seq![
                self_notice(map, peers, mover, new_c, radius),
            ],
            mover,
            self_notice(map, peers, mover, new_c, radius).1,
        ) == 1,
{
    let ack = self_notice(map, peers, mover, new_c, radius);
    lemma_move_outbox_strangers(peers, mover, old_c, new_c, mover);
    lemma_count_to_zero_means_no_msg(move_peer_outbox(peers, mover, old_c, new_c), mover, ack.1);
    lemma_count_concat(
        move_peer_outbox(peers, mover, old_c, new_c),
        seq![ack],
        mover,
        ack.1,
    );
    lemma_count_singleton(ack, mover, ack.1);
}

/// The `players` list of the acknowledgement names exactly the peers whose
/// position lies inside the disk around the new center: every listed entry
/// is such a peer, and every such peer is listed.
pub proof fn lemma_visible_peers_exact(
    peers: Seq<Client>,
    mover: u32,
    center: Coords,
    radius: u8,
)
    ensures
        forall|k: int|
            0 <= k < visible_peers(peers, mover, center, radius).len() ==> exists|i: int|
                0 <= i < peers.len() && (#[trigger] peers[i]).id == (#[trigger] visible_peers(
                    peers,
                    mover,
                    center,
                    radius,
                )[k]).id && peers[i].coords == visible_peers(peers, mover, center, radius)[k].coords
                    && peers[i].id != mover && in_disk(center, radius, peers[i].coords),
        forall|i: int|
            0 <= i < peers.len() && (#[trigger] peers[i]).id != mover && in_disk(
                center,
                radius,
                peers[i].coords,
            ) ==> visible_peers(peers, mover, center, radius).contains(
                Player { id: peers[i].id, coords: peers[i].coords },
            ),
    decreases peers.len(),
{
    if peers.len() > 0 {
        let q = peers[0];
        let vp = visible_peers(peers, mover, center, radius);
        let rest = visible_peers(peers.skip(1), mover, center, radius);
        lemma_visible_peers_exact(peers.skip(1), mover, center, radius);
        let here = if q.id != mover && in_disk(center, radius, q.coords) {
            seq![Player { id: q.id, coords: q.coords }]
        } else {
            Seq::<Player>::empty()
        };
        assert(vp == here + rest);
        assert forall|k: int| 0 <= k < vp.len() implies exists|i: int|
            0 <= i < peers.len() && (#[trigger] peers[i]).id == (#[trigger] vp[k]).id
                && peers[i].coords == vp[k].coords && peers[i].id != mover && in_disk(
                center,
                radius,
                peers[i].coords,
            ) by {
            if k < here.len() {
                assert(peers[0].id == vp[k].id && peers[0].coords == vp[k].coords);
            } else {
                assert(vp[k] == rest[k - here.len()]);
                let i0 = choose|i0: int|
                    0 <= i0 < peers.skip(1).len() && (#[trigger] peers.skip(1)[i0]).id == rest[k
                        - here.len()].id && peers.skip(1)[i0].coords == rest[k - here.len()].coords
                        && peers.skip(1)[i0].id != mover && in_disk(
                        center,
                        radius,
                        peers.skip(1)[i0].coords,
                    );
                assert(peers.skip(1)[i0] == peers[i0 + 1]);
                assert(peers[i0 + 1].id == vp[k].id && peers[i0 + 1].coords == vp[k].coords);
            }
        }
        assert forall|i: int|
            0 <= i < peers.len() && (#[trigger] peers[i]).id != mover && in_disk(
                center,
                radius,
                peers[i].coords,
            ) implies vp.contains(Player { id: peers[i].id, coords: peers[i].coords }) by {
            if i == 0 {
                assert(vp[0] == Player { id: q.id, coords: q.coords });
            } else {
                assert(peers.skip(1)[i - 1] == peers[i]);
                let p = Player { id: peers[i].id, coords: peers[i].coords };
                assert(rest.contains(p));
                let k = choose|k: int| 0 <= k < rest.len() && rest[k] == p;
                assert(vp[here.len() + k] == p);
            }
        }
    }
}

/// The id standing on the first occupied cell along the shot path from
/// `from` in direction `d`, scanning near-to-far for at most `k` cells,
/// stopping at the map edge.
pub open spec fn first_target(map: &ServerMap, from: Coords, d: Direction, k: nat) -> Option<u32>
    decreases k,
{
    if k == 0 {
        None
    } else {
        match step_coords(from, d) {
            None => None,
            Some(p) => if !map.in_bounds(p) {
                None
            } else {
                match map.cell(p.0 as int, p.1 as int).occupant {
                    Some(id) => Some(id),
                    None => first_target(map, p, d, (k - 1) as nat),
                }
            },
        }
    }
}

/// The disconnect notice of `dead` for every client of the table, in
/// table order.
pub open spec fn broadcast_disconnected(peers: Seq<Client>, dead: u32) -> Seq<
    (u32, ServerPacketView),
>
    decreases peers.len(),
{
    if peers.len() == 0 {
        Seq::empty()
    } else {
        seq![(peers[0].id, ServerPacketView::PlayerDisconnected(dead))] + broadcast_disconnected(
            peers.skip(1),
            dead,
        )
    }
}

/// Appending one peer appends its disconnect notice.
pub proof fn lemma_broadcast_snoc(peers: Seq<Client>, x: Client, dead: u32)
    ensures
        broadcast_disconnected(peers.push(x), dead) == broadcast_disconnected(peers, dead) + seq![
            (x.id, ServerPacketView::PlayerDisconnected(dead)),
        ],
    decreases peers.len(),
{
    if peers.len() == 0 {
        assert(peers.push(x)[0] == x);
        assert(peers.push(x).skip(1) =~= Seq::<Client>::empty());
        assert(broadcast_disconnected(Seq::<Client>::empty(), dead) == Seq::<
            (u32, ServerPacketView),
        >::empty());
        assert(broadcast_disconnected(peers.push(x), dead) =~= broadcast_disconnected(peers, dead)
            + seq![(x.id, ServerPacketView::PlayerDisconnected(dead))]);
    } else {
        assert(peers.push(x)[0] == peers[0]);
        assert(peers.push(x).skip(1) =~= peers.skip(1).push(x));
        lemma_broadcast_snoc(peers.skip(1), x, dead);
        assert(broadcast_disconnected(peers.push(x), dead) =~= broadcast_disconnected(peers, dead)
            + seq![(x.id, ServerPacketView::PlayerDisconnected(dead))]);
    }
}

/// Every client of the table receives the disconnect notice exactly once.
pub proof fn lemma_broadcast_exact(peers: Seq<Client>, dead: u32, i: int)
    requires
        ids_unique(peers),
        0 <= i < peers.len(),
    ensures
        count_msg(
            broadcast_disconnected(peers, dead),
            peers[i].id,
            ServerPacketView::PlayerDisconnected(dead),
        ) == 1,
    decreases peers.len(),
{
    let p = ServerPacketView::PlayerDisconnected(dead);
    let to = peers[i].id;
    let head = seq![(peers[0].id, p)];
    let rest = broadcast_disconnected(peers.skip(1), dead);
    lemma_count_concat(head, rest, to, p);
    lemma_count_singleton((peers[0].id, p), to, p);
    if i == 0 {
        assert forall|j: int| 0 <= j < peers.skip(1).len() implies (#[trigger] peers.skip(
            1,
        )[j]).id != to by {
            assert(peers.skip(1)[j] == peers[j + 1]);
        }
        lemma_broadcast_strangers(peers.skip(1), dead, to);
        lemma_count_to_zero_means_no_msg(rest, to, p);
    } else {
        assert(peers[0].id != to);
        assert(ids_unique(peers.skip(1))) by {
            assert forall|a: int, b: int|
                0 <= a < peers.skip(1).len() && 0 <= b < peers.skip(1).len() && a != b implies (
            #[trigger] peers.skip(1)[a]).id != (#[trigger] peers.skip(1)[b]).id by {
                assert(peers.skip(1)[a] == peers[a + 1]);
                assert(peers.skip(1)[b] == peers[b + 1]);
            }
        }
        assert(peers.skip(1)[i - 1] == peers[i]);
        lemma_broadcast_exact(peers.skip(1), dead, i - 1);
    }
}

/// Nobody outside the table receives a disconnect notice.
pub proof fn lemma_broadcast_strangers(peers: Seq<Client>, dead: u32, to: u32)
    requires
        forall|i: int| 0 <= i < peers.len() ==> (#[trigger] peers[i]).id != to,
    ensures
        count_to(broadcast_disconnected(peers, dead), to) == 0,
    decreases peers.len(),
{
    let p = ServerPacketView::PlayerDisconnected(dead);
    if peers.len() > 0 {
        assert forall|j: int| 0 <= j < peers.skip(1).len() implies (#[trigger] peers.skip(
            1,
        )[j]).id != to by {
            assert(peers.skip(1)[j] == peers[j + 1]);
        }
        lemma_broadcast_strangers(peers.skip(1), dead, to);
        lemma_count_concat(
            seq![(peers[0].id, p)],
            broadcast_disconnected(peers.skip(1), dead),
            to,
            p,
        );
        lemma_count_singleton((peers[0].id, p), to, p);
    }
}

/// What a lethal shot sends, exactly once each: the victim `tid` (already
/// removed from the table) receives one death notice naming the shooter,
/// every remaining client receives one disconnect notice, and the victim
/// receives nothing else.
pub proof fn lemma_death_outbox(peers: Seq<Client>, tid: u32, shooter: u32, i: int)
    requires
        ids_unique(peers),
        forall|j: int| 0 <= j < peers.len() ==> (#[trigger] peers[j]).id != tid,
    ensures
        ({
            let full = seq![(tid, ServerPacketView::PlayerDied(shooter))] + broadcast_disconnected(
                peers,
                tid,
            );
            &&& count_msg(full, tid, ServerPacketView::PlayerDied(shooter)) == 1
            &&& count_to(full, tid) == 1
            &&& (0 <= i < peers.len() ==> count_msg(
                full,
                peers[i].id,
                ServerPacketView::PlayerDisconnected(tid),
            ) == 1)
        }),
{
    let died = ServerPacketView::PlayerDied(shooter);
    let gone = ServerPacketView::PlayerDisconnected(tid);
    let head = seq![(tid, died)];
    let rest = broadcast_disconnected(peers, tid);
    lemma_count_concat(head, rest, tid, died);
    lemma_count_singleton((tid, died), tid, died);
    lemma_broadcast_strangers(peers, tid, tid);
    lemma_count_to_zero_means_no_msg(rest, tid, died);
    if 0 <= i < peers.len() {
        lemma_count_concat(head, rest, peers[i].id, gone);
        lemma_count_singleton((tid, died), peers[i].id, gone);
        lemma_broadcast_exact(peers, tid, i);
    }
}

/// The full effect of a `Shoot(d)` from the player with id `shooter`: the
/// nearest occupant of the swept cells (one step away up to the weapon's
/// range, clipped to the map) takes the weapon's damage, saturating at
/// zero.  A survivor alone is told it was shot; a death turns into a death
/// notice for the victim, removal of its record and occupancy, and a
/// disconnect broadcast to everyone remaining.  With no target, nothing
/// changes and nothing is sent.
pub open spec fn shoot_transition(
    pre: Server,
    post: Server,
    out: Seq<(u32, ServerPacketView)>,
    shooter: u32,
    d: Direction,
) -> bool {
    match find_client(pre.clients@, shooter) {
        None => post == pre && out == Seq::<(u32, ServerPacketView)>::empty(),
        Some(si) => {
            let s = pre.clients@[si];
            match first_target(&pre.map, s.coords, d, s.weapon.range as nat) {
                None => post == pre && out == Seq::<(u32, ServerPacketView)>::empty(),
                Some(tid) => match find_client(pre.clients@, tid) {
                    None => post == pre && out == Seq::<(u32, ServerPacketView)>::empty(),
                    Some(ti) => {
                        let t = pre.clients@[ti];
                        let hp2 = if t.hp >= s.weapon.damage {
                            (t.hp - s.weapon.damage) as u8
                        } else {
                            0
                        };
                        if hp2 > 0 {
                            &&& post.clients@ == pre.clients@.update(ti, Client { hp: hp2, ..t })
                            &&& post.id_counter == pre.id_counter
                            &&& post.map == pre.map
                            &&& out == seq![
                                (
                                    tid,
                                    ServerPacketView::PlayerWasShot(s.weapon.damage, d),
                                ),
                            ]
                        } else {
                            &&& post.clients@ == pre.clients@.remove(ti)
                            &&& post.id_counter == pre.id_counter
                            &&& post.map.height == pre.map.height
                            &&& post.map.width == pre.map.width
                            &&& forall|r: int, cc: int|
                                0 <= r < pre.map.height && 0 <= cc < pre.map.width
                                    ==> #[trigger] post.map.cell(r, cc) == (if r
                                    == t.coords.0 as int && cc == t.coords.1 as int {
                                    ServerCell { occupant: None, ..pre.map.cell(r, cc) }
                                } else {
                                    pre.map.cell(r, cc)
                                })
                            &&& out == seq![(tid, ServerPacketView::PlayerDied(shooter))]
                                + broadcast_disconnected(post.clients@, tid)
                        }
                    },
                },
            }
        },
    }
}

/// A scan that saw no match up to `k` agrees with `find_client`.
pub proof fn lemma_find_client_at(clients: Seq<Client>, id: u32, k: int)
    requires
        0 <= k <= clients.len(),
        forall|j: int| 0 <= j < k ==> (#[trigger] clients[j]).id != id,
    ensures
        k < clients.len() && clients[k].id == id ==> find_client(clients, id) == Some(k),
        k == clients.len() ==> find_client(clients, id) is None,
    decreases k,
{
    if k > 0 {
        assert(clients[0].id != id);
        assert forall|j: int| 0 <= j < k - 1 implies (#[trigger] clients.skip(1)[j]).id != id by {
            assert(clients.skip(1)[j] == clients[j + 1]);
        }
        lemma_find_client_at(clients.skip(1), id, k - 1);
        if k < clients.len() {
            assert(clients.skip(1)[k - 1] == clients[k]);
        }
    }
}

/// An empty outbox: the silent outcome of a rejected request.
fn empty_outbox() -> (out: Vec<(u32, ServerPacket)>)
    ensures
        out.deep_view() == Seq::<(u32, ServerPacketView)>::empty(),
        out@.len() == 0,
{
    let out: Vec<(u32, ServerPacket)> = Vec::new();
    proof {
        assert(out.deep_view() =~= Seq::<(u32, ServerPacketView)>::empty());
    }
    out
}

/// The one-byte length prefix bounds a visibility disk: with a radius of
/// at most 7, the clipped bounding box holds at most 225 cells.
pub proof fn lemma_visible_cells_len(map: &ServerMap, center: Coords, radius: u8)
    requires
        map.wf(),
        radius <= 7,
    ensures
        visible_cells(map, center, radius).len() <= 225,
{
    let r_lo = bbox_lo(center.0, radius);
    let r_hi = bbox_hi(center.0, radius, map.height as int);
    let c_lo = bbox_lo(center.1, radius);
    let c_hi = bbox_hi(center.1, radius, map.width as int);
    lemma_disk_cells_sound(map, center, radius, r_lo, r_hi, c_lo, c_hi);
    let rows = if r_hi >= r_lo {
        r_hi - r_lo
    } else {
        0
    };
    let cols = if c_hi >= c_lo {
        c_hi - c_lo
    } else {
        0
    };
    assert(rows <= 15 && cols <= 15);
    assert(rows * cols <= 225) by (nonlinear_arith)
        requires
            0 <= rows <= 15,
            0 <= cols <= 15,
    ;
}

impl Server {
    /// Look a player up by id; the result agrees with `find_client`.
    fn find_index(&self, id: u32) -> (r: Option<usize>)
        ensures
            match r {
                Some(i) => find_client(self.clients@, id) == Some(i as int),
                None => find_client(self.clients@, id) is None,
            },
    {
        let mut k: usize = 0;
        while k < self.clients.len()
            invariant
                k <= self.clients@.len(),
                forall|j: int| 0 <= j < k ==> (#[trigger] self.clients@[j]).id != id,
            decreases self.clients@.len() - k,
        {
            if self.clients[k].id == id {
                proof {
                    lemma_find_client_at(self.clients@, id, k as int);
                }
                return Some(k);
            }
            k = k + 1;
        }
        proof {
            lemma_find_client_at(self.clients@, id, k as int);
        }
        None
    }

    /// Handle `Move(direction)` from the player with id `mover`: reject
    /// silently, or move occupancy atomically and fan the update out.  The
    /// returned packets are each paired with the recipient's id; every one
    /// of them is small enough to encode.
    #[verifier::rlimit(100)]
    pub fn do_move(&mut self, mover: u32, direction: Direction) -> (out: Vec<
        (u32, ServerPacket),
    >)
        requires
            old(self).wf(),
        ensures
            final(self).wf(),
            move_transition(*old(self), *final(self), out.deep_view(), mover, direction),
            forall|k: int| 0 <= k < out@.len() ==> (#[trigger] out@[k]).1.wf(),
    {
        proof {
            lemma_find_client(self.clients@, mover);
        }
        let idx = match self.find_index(mover) {
            Some(i) => i,
            None => {
                return empty_outbox();
            },
        };
        let c = self.clients[idx];
        let prev = c.coords;
        let new_c: Coords = match direction {
            Direction::Up => {
                if prev.0 == 0 {
                    return empty_outbox();
                }
                (prev.0 - 1, prev.1)
            },
            Direction::Down => {
                if prev.0 == 0xFFFF {
                    return empty_outbox();
                }
                (prev.0 + 1, prev.1)
            },
            Direction::Left => {
                if prev.1 == 0 {
                    return empty_outbox();
                }
                (prev.0, prev.1 - 1)
            },
            Direction::Right => {
                if prev.1 == 0xFFFF {
                    return empty_outbox();
                }
                (prev.0, prev.1 + 1)
            },
        };
        if !((new_c.0 as usize) < self.map.height && (new_c.1 as usize) < self.map.width) {
            return empty_outbox();
        }
        if self.map.coords[new_c.0 as usize][new_c.1 as usize].occupant.is_some() {
            return empty_outbox();
        }
        let ghost pre = *self;
        // Move occupancy from the old cell to the new one, atomically with
        // the record's position.
        self.map.coords[prev.0 as usize][prev.1 as usize].occupant = None;
        self.map.coords[new_c.0 as usize][new_c.1 as usize].occupant = Some(mover);
        self.clients[idx].coords = new_c;
        proof {
            assert forall|r: int, cc: int|
                0 <= r < pre.map.height && 0 <= cc < pre.map.width implies #[trigger] self.map.cell(
                r,
                cc,
            ) == (if r == prev.0 as int && cc == prev.1 as int {
                ServerCell { occupant: None, ..pre.map.cell(r, cc) }
            } else if r == new_c.0 as int && cc == new_c.1 as int {
                ServerCell { occupant: Some(mover), ..pre.map.cell(r, cc) }
            } else {
                pre.map.cell(r, cc)
            }) by {
                assert(pre.map.coords@[r]@.len() == pre.map.width);
            }
            lemma_move_preserves_wf(pre, *self, idx as int, mover, new_c);
        }
        let radius = c.radius;
        let mut out: Vec<(u32, ServerPacket)> = Vec::new();
        let mut visible_players: Vec<Player> = Vec::new();
        let mut k: usize = 0;
        proof {
            assert(out.deep_view() =~= move_peer_outbox(
                self.clients@.take(0),
                mover,
                prev,
                new_c,
            ));
            assert(visible_players.deep_view() =~= visible_peers(
                self.clients@.take(0),
                mover,
                new_c,
                radius,
            ));
        }
        while k < self.clients.len()
            invariant
                self.wf(),
                k <= self.clients@.len(),
                out.deep_view() == move_peer_outbox(
                    self.clients@.take(k as int),
                    mover,
                    prev,
                    new_c,
                ),
                visible_players.deep_view() == visible_peers(
                    self.clients@.take(k as int),
                    mover,
                    new_c,
                    radius,
                ),
                visible_players@.len() <= k,
                forall|m: int| 0 <= m < out@.len() ==> (#[trigger] out@[m]).1.wf(),
            decreases self.clients@.len() - k,
        {
            let q = self.clients[k];
            let ghost out_pre = out.deep_view();
            let ghost vis_pre = visible_players.deep_view();
            if q.id != mover {
                if is_inside_circle(q.coords, q.radius, new_c) {
                    out.push(
                        (
                            q.id,
                            ServerPacket::OtherPlayerMoved(
                                OtherPlayerMoved { coords: new_c, id: mover },
                            ),
                        ),
                    );
                } else if is_inside_circle(q.coords, q.radius, prev) {
                    out.push((q.id, ServerPacket::OtherPlayerMovedOutsideRadius(mover)));
                }
                if is_inside_circle(new_c, radius, q.coords) {
                    visible_players.push(Player { id: q.id, coords: q.coords });
                }
            }
            proof {
                lemma_move_peer_outbox_snoc(
                    self.clients@.take(k as int),
                    q,
                    mover,
                    prev,
                    new_c,
                );
                lemma_visible_peers_snoc(self.clients@.take(k as int), q, mover, new_c, radius);
                assert(self.clients@.take(k + 1) =~= self.clients@.take(k as int).push(q));
                assert(out.deep_view() =~= out_pre + peer_notice(q, mover, prev, new_c));
                assert(visible_players.deep_view() =~= vis_pre + (if q.id != mover && in_disk(
                    new_c,
                    radius,
                    q.coords,
                ) {
                    seq![Player { id: q.id, coords: q.coords }]
                } else {
                    Seq::<Player>::empty()
                }));
            }
            k = k + 1;
        }
        let cells = visible_map(&self.map, new_c, radius);
        proof {
            assert(self.clients@.take(self.clients@.len() as int) =~= self.clients@);
            lemma_visible_cells_len(&self.map, new_c, radius);
        }
        let ghost out_pre = out.deep_view();
        let packet = ServerPacket::NewCoords(
            NewCoords { center: new_c, coords: cells, players: visible_players },
        );
        out.push((mover, packet));
        proof {
            assert(cells.deep_view() =~= cells@);
            assert(out.deep_view() =~= out_pre + seq![
                self_notice(&self.map, self.clients@, mover, new_c, radius),
            ]);
        }
        out
    }

    /// Handle `Shoot(direction)` from the player with id `shooter`: walk
    /// the swept cells near-to-far, damage the first occupant found, and
    /// turn a death into removal plus a disconnect broadcast.
    pub fn do_shoot(&mut self, shooter: u32, direction: Direction) -> (out: Vec<
        (u32, ServerPacket),
    >)
        requires
            old(self).wf(),
        ensures
            final(self).wf(),
            shoot_transition(*old(self), *final(self), out.deep_view(), shooter, direction),
            forall|k: int| 0 <= k < out@.len() ==> (#[trigger] out@[k]).1.wf(),
    {
        proof {
            lemma_find_client(self.clients@, shooter);
        }
        let si = match self.find_index(shooter) {
            Some(i) => i,
            None => {
                return empty_outbox();
            },
        };
        let s = self.clients[si];
        let range = s.weapon.range;
        let damage = s.weapon.damage;
        let mut cur = s.coords;
        let mut k: usize = 0;
        let mut target: Option<u32> = None;
        while k < range as usize && target.is_none()
            invariant
                *self == *old(self),
                old(self).wf(),
                k <= range as usize,
                target is None ==> first_target(&self.map, s.coords, direction, range as nat)
                    == first_target(&self.map, cur, direction, (range as usize - k) as nat),
                target matches Some(t) ==> first_target(
                    &self.map,
                    s.coords,
                    direction,
                    range as nat,
                ) == Some(t),
            decreases range as usize - k,
        {
            let next: Option<Coords> = match direction {
                Direction::Up => if cur.0 == 0 {
                    None
                } else {
                    Some((cur.0 - 1, cur.1))
                },
                Direction::Down => if cur.0 == 0xFFFF {
                    None
                } else {
                    Some((cur.0 + 1, cur.1))
                },
                Direction::Left => if cur.1 == 0 {
                    None
                } else {
                    Some((cur.0, cur.1 - 1))
                },
                Direction::Right => if cur.1 == 0xFFFF {
                    None
                } else {
                    Some((cur.0, cur.1 + 1))
                },
            };
            proof {
                assert(next == step_coords(cur, direction));
            }
            match next {
                None => {
                    k = range as usize;
                },
                Some(p) => {
                    if (p.0 as usize) < self.map.height && (p.1 as usize) < self.map.width {
                        let cell = self.map.coords[p.0 as usize][p.1 as usize];
                        match cell.occupant {
                            Some(tid) => {
                                target = Some(tid);
                                k = k + 1;
                            },
                            None => {
                                cur = p;
                                k = k + 1;
                            },
                        }
                    } else {
                        k = range as usize;
                    }
                },
            }
        }
        let tid = match target {
            Some(t) => t,
            None => {
                return empty_outbox();
            },
        };
        proof {
            lemma_find_client(self.clients@, tid);
        }
        let ti = match self.find_index(tid) {
            Some(i) => i,
            None => {
                return empty_outbox();
            },
        };
        let t = self.clients[ti];
        let hp2: u8 = if t.hp >= damage {
            t.hp - damage
        } else {
            0
        };
        if hp2 > 0 {
            let ghost pre = *self;
            self.clients[ti].hp = hp2;
            proof {
                lemma_hp_preserves_wf(pre, *self, ti as int, Client { hp: hp2, ..t });
            }
            let mut out: Vec<(u32, ServerPacket)> = Vec::new();
            out.push((tid, ServerPacket::PlayerWasShot(damage, direction)));
            proof {
                assert(out.deep_view() =~= seq![
                    (tid, ServerPacketView::PlayerWasShot(damage, direction)),
                ]);
            }
            out
        } else {
            let ghost pre = *self;
            let tc = t.coords;
            self.map.coords[tc.0 as usize][tc.1 as usize].occupant = None;
            self.clients.remove(ti);
            proof {
                assert forall|r: int, cc: int|
                    0 <= r < pre.map.height && 0 <= cc < pre.map.width implies #[trigger] self.map.cell(
                    r,
                    cc,
                ) == (if r == tc.0 as int && cc == tc.1 as int {
                    ServerCell { occupant: None, ..pre.map.cell(r, cc) }
                } else {
                    pre.map.cell(r, cc)
                }) by {
                    assert(pre.map.coords@[r]@.len() == pre.map.width);
                }
                lemma_remove_preserves_wf(pre, *self, ti as int);
            }
            let mut out: Vec<(u32, ServerPacket)> = Vec::new();
            out.push((tid, ServerPacket::PlayerDied(shooter)));
            let ghost death_note = seq![(tid, ServerPacketView::PlayerDied(shooter))];
            proof {
                assert(out.deep_view() =~= death_note + broadcast_disconnected(
                    self.clients@.take(0),
                    tid,
                ));
            }
            let mut k2: usize = 0;
            while k2 < self.clients.len()
                invariant
                    self.wf(),
                    k2 <= self.clients@.len(),
                    out.deep_view() == death_note + broadcast_disconnected(
                        self.clients@.take(k2 as int),
                        tid,
                    ),
                    forall|m: int| 0 <= m < out@.len() ==> (#[trigger] out@[m]).1.wf(),
                decreases self.clients@.len() - k2,
            {
                let q = self.clients[k2];
                let ghost out_pre = out.deep_view();
                out.push((q.id, ServerPacket::PlayerDisconnected(tid)));
                proof {
                    lemma_broadcast_snoc(self.clients@.take(k2 as int), q, tid);
                    assert(self.clients@.take(k2 + 1) =~= self.clients@.take(k2 as int).push(q));
                    assert(out.deep_view() =~= out_pre + seq![
                        (q.id, ServerPacketView::PlayerDisconnected(tid)),
                    ]);
                }
                k2 = k2 + 1;
            }
            proof {
                assert(self.clients@.take(self.clients@.len() as int) =~= self.clients@);
            }
            out
        }
    }

    /// Register a fresh connection: assign the next id, place the player
    /// on a free random cell (a bounded number of retries, then the
    /// connection is rejected), and fan the join out.  Also rejected when
    /// the table is full or the id well is exhausted; the state is then
    /// untouched.
    pub fn client_connected(&mut self) -> (r: Result<Vec<(u32, ServerPacket)>, ()>)
        requires
            old(self).wf(),
        ensures
            final(self).wf(),
            match r {
                Ok(out) => {
                    let c = final(self).clients@.last();
                    &&& old(self).clients@.len() < 255
                    &&& final(self).clients@ == old(self).clients@.push(c)
                    &&& final(self).id_counter == old(self).id_counter + 1
                    &&& c.id == old(self).id_counter
                    &&& c.hp == 10
                    &&& c.radius == 5
                    &&& c.weapon == (Weapon { range: 5, damage: 1 })
                    &&& old(self).map.in_bounds(c.coords)
                    &&& old(self).map.cell(c.coords.0 as int, c.coords.1 as int).occupant is None
                    &&& final(self).map.height == old(self).map.height
                    &&& final(self).map.width == old(self).map.width
                    &&& forall|r2: int, cc: int|
                        0 <= r2 < old(self).map.height && 0 <= cc < old(self).map.width
                            ==> #[trigger] final(self).map.cell(r2, cc) == (if r2
                            == c.coords.0 as int && cc == c.coords.1 as int {
                            ServerCell { occupant: Some(c.id), ..old(self).map.cell(r2, cc) }
                        } else {
                            old(self).map.cell(r2, cc)
                        })
                    &&& out.deep_view() == connect_outbox(&old(self).map, old(self).clients@, c)
                    &&& forall|k: int| 0 <= k < out@.len() ==> (#[trigger] out@[k]).1.wf()
                },
                Err(()) => *final(self) == *old(self),
            },
            // An empty server with id headroom accepts its first client:
            // with nobody connected, the invariant leaves every cell free,
            // so the very first draw is a usable spawn.
            old(self).clients@.len() == 0 && old(self).id_counter < 0xFFFF_FFFF ==> r is Ok,
    {
        let mut spawn: Option<Coords> = None;
        let mut attempt: usize = 0;
        while attempt < 16 && spawn.is_none()
            invariant
                *self == *old(self),
                old(self).wf(),
                spawn matches Some(p) ==> self.map.in_bounds(p) && self.map.cell(
                    p.0 as int,
                    p.1 as int,
                ).occupant is None,
                self.clients@.len() == 0 && attempt > 0 ==> spawn is Some,
            decreases 16 - attempt,
        {
            let p = generate_random_coords(self.map.height, self.map.width);
            proof {
                if self.clients@.len() == 0 && self.map.cell(
                    p.0 as int,
                    p.1 as int,
                ).occupant is Some {
                    // The invariant would demand an occupant record in an
                    // empty table.
                    assert(false);
                }
            }
            if self.map.coords[p.0 as usize][p.1 as usize].occupant.is_none() {
                spawn = Some(p);
            }
            attempt = attempt + 1;
        }
        match spawn {
            Some(p) => self.client_connected_at(p),
            None => Err(()),
        }
    }

    /// Register a fresh connection at a chosen spawn cell: assign the next
    /// id, install the record, and fan the join out.  Succeeds exactly
    /// when the table has room, the id well is not exhausted, and the cell
    /// lies on the map and is free; otherwise nothing changes.
    pub fn client_connected_at(&mut self, coords: Coords) -> (r: Result<
        Vec<(u32, ServerPacket)>,
        (),
    >)
        requires
            old(self).wf(),
        ensures
            final(self).wf(),
            match r {
                Ok(out) => {
                    let c = final(self).clients@.last();
                    &&& old(self).clients@.len() < 255
                    &&& final(self).clients@ == old(self).clients@.push(c)
                    &&& final(self).id_counter == old(self).id_counter + 1
                    &&& c.id == old(self).id_counter
                    &&& c.coords == coords
                    &&& c.hp == 10
                    &&& c.radius == 5
                    &&& c.weapon == (Weapon { range: 5, damage: 1 })
                    &&& old(self).map.in_bounds(coords)
                    &&& old(self).map.cell(coords.0 as int, coords.1 as int).occupant is None
                    &&& final(self).map.height == old(self).map.height
                    &&& final(self).map.width == old(self).map.width
                    &&& forall|r2: int, cc: int|
                        0 <= r2 < old(self).map.height && 0 <= cc < old(self).map.width
                            ==> #[trigger] final(self).map.cell(r2, cc) == (if r2
                            == coords.0 as int && cc == coords.1 as int {
                            ServerCell { occupant: Some(c.id), ..old(self).map.cell(r2, cc) }
                        } else {
                            old(self).map.cell(r2, cc)
                        })
                    &&& out.deep_view() == connect_outbox(&old(self).map, old(self).clients@, c)
                    &&& forall|k: int| 0 <= k < out@.len() ==> (#[trigger] out@[k]).1.wf()
                },
                Err(()) => {
                    &&& *final(self) == *old(self)
                    &&& !(old(self).clients@.len() < 255 && old(self).id_counter < 0xFFFF_FFFF
                        && old(self).map.in_bounds(coords) && old(self).map.cell(
                        coords.0 as int,
                        coords.1 as int,
                    ).occupant is None)
                },
            },
    {
        if self.clients.len() >= 255 {
            return Err(());
        }
        if self.id_counter == 0xFFFF_FFFF {
            return Err(());
        }
        if !((coords.0 as usize) < self.map.height && (coords.1 as usize) < self.map.width) {
            return Err(());
        }
        if self.map.coords[coords.0 as usize][coords.1 as usize].occupant.is_some() {
            return Err(());
        }
        let id = self.id_counter;
        let c = Client { id, coords, radius: 5, hp: 10, weapon: Weapon::default() };
        let cells = visible_map(&self.map, coords, c.radius);
        proof {
            lemma_visible_cells_len(&self.map, coords, c.radius);
        }
        let mut visible_players: Vec<Player> = Vec::new();
        let mut k: usize = 0;
        proof {
            assert(visible_players.deep_view() =~= visible_peers(
                self.clients@.take(0),
                id,
                coords,
                c.radius,
            ));
        }
        while k < self.clients.len()
            invariant
                *self == *old(self),
                old(self).wf(),
                k <= self.clients@.len(),
                visible_players.deep_view() == visible_peers(
                    self.clients@.take(k as int),
                    id,
                    coords,
                    5,
                ),
                visible_players@.len() <= k,
            decreases self.clients@.len() - k,
        {
            let q = self.clients[k];
            let ghost vis_pre = visible_players.deep_view();
            if q.id != id && is_inside_circle(coords, 5, q.coords) {
                visible_players.push(Player { id: q.id, coords: q.coords });
            }
            proof {
                lemma_visible_peers_snoc(self.clients@.take(k as int), q, id, coords, 5);
                assert(self.clients@.take(k + 1) =~= self.clients@.take(k as int).push(q));
                assert(visible_players.deep_view() =~= vis_pre + (if q.id != id && in_disk(
                    coords,
                    5,
                    q.coords,
                ) {
                    seq![Player { id: q.id, coords: q.coords }]
                } else {
                    Seq::<Player>::empty()
                }));
            }
            k = k + 1;
        }
        let mut out: Vec<(u32, ServerPacket)> = Vec::new();
        let snapshot = ServerPacket::NewClientCoordsVisibleMap(
            NewClient {
                id,
                coords,
                hp: c.hp,
                radius: c.radius,
                weapon_range: c.weapon.range,
                visible_coords: cells,
                players: visible_players,
            },
        );
        out.push((id, snapshot));
        let ghost head = seq![
            (
                id,
                ServerPacketView::NewClientCoordsVisibleMap(
                    NewClientView {
                        id,
                        coords,
                        hp: c.hp,
                        radius: c.radius,
                        weapon_range: c.weapon.range,
                        visible_coords: visible_cells(&self.map, coords, c.radius),
                        players: visible_peers(self.clients@, id, coords, c.radius),
                    },
                ),
            ),
        ];
        proof {
            assert(self.clients@.take(self.clients@.len() as int) =~= self.clients@);
            assert(cells.deep_view() =~= cells@);
            assert(join_notices(self.clients@.take(0), id, coords) == Seq::<
                (u32, ServerPacketView),
            >::empty());
            assert(out.deep_view() =~= head + join_notices(self.clients@.take(0), id, coords));
        }
        let mut k2: usize = 0;
        while k2 < self.clients.len()
            invariant
                *self == *old(self),
                old(self).wf(),
                k2 <= self.clients@.len(),
                out.deep_view() == head + join_notices(
                    self.clients@.take(k2 as int),
                    id,
                    coords,
                ),
                forall|m: int| 0 <= m < out@.len() ==> (#[trigger] out@[m]).1.wf(),
            decreases self.clients@.len() - k2,
        {
            let q = self.clients[k2];
            let ghost out_pre = out.deep_view();
            if is_inside_circle(q.coords, q.radius, coords) {
                out.push(
                    (q.id, ServerPacket::OtherPlayerMoved(OtherPlayerMoved { coords, id })),
                );
            }
            proof {
                lemma_join_notices_snoc(self.clients@.take(k2 as int), q, id, coords);
                assert(self.clients@.take(k2 + 1) =~= self.clients@.take(k2 as int).push(q));
                assert(out.deep_view() =~= out_pre + (if in_disk(q.coords, q.radius, coords) {
                    seq![(q.id, moved_packet(id, coords))]
                } else {
                    Seq::<(u32, ServerPacketView)>::empty()
                }));
            }
            k2 = k2 + 1;
        }
        let ghost pre = *self;
        self.map.coords[coords.0 as usize][coords.1 as usize].occupant = Some(id);
        self.clients.push(c);
        self.id_counter = self.id_counter + 1;
        proof {
            assert(self.clients@.take(pre.clients@.len() as int) =~= pre.clients@);
            assert forall|r2: int, cc: int|
                0 <= r2 < pre.map.height && 0 <= cc < pre.map.width implies #[trigger] self.map.cell(
                r2,
                cc,
            ) == (if r2 == coords.0 as int && cc == coords.1 as int {
                ServerCell { occupant: Some(id), ..pre.map.cell(r2, cc) }
            } else {
                pre.map.cell(r2, cc)
            }) by {
                assert(pre.map.coords@[r2]@.len() == pre.map.width);
            }
            lemma_connect_preserves_wf(pre, *self, c);
            assert(pre.clients@.take(pre.clients@.len() as int) =~= pre.clients@);
        }
        Ok(out)
    }

    /// Unregister a session: drop the record, clear its cell, and tell
    /// every remaining client.  Fails, changing nothing, when the id is
    /// unknown.
    pub fn client_disconnected(&mut self, id: u32) -> (r: Result<Vec<(u32, ServerPacket)>, ()>)
        requires
            old(self).wf(),
        ensures
            final(self).wf(),
            match r {
                Ok(out) => {
                    &&& find_client(old(self).clients@, id) matches Some(i)
                    &&& final(self).clients@ == old(self).clients@.remove(
                        find_client(old(self).clients@, id).unwrap(),
                    )
                    &&& final(self).id_counter == old(self).id_counter
                    &&& final(self).map.height == old(self).map.height
                    &&& final(self).map.width == old(self).map.width
                    &&& {
                        let t = old(self).clients@[find_client(old(self).clients@, id).unwrap()];
                        forall|r2: int, cc: int|
                            0 <= r2 < old(self).map.height && 0 <= cc < old(self).map.width
                                ==> #[trigger] final(self).map.cell(r2, cc) == (if r2
                                == t.coords.0 as int && cc == t.coords.1 as int {
                                ServerCell { occupant: None, ..old(self).map.cell(r2, cc) }
                            } else {
                                old(self).map.cell(r2, cc)
                            })
                    }
                    &&& out.deep_view() == broadcast_disconnected(final(self).clients@, id)
                    &&& forall|k: int| 0 <= k < out@.len() ==> (#[trigger] out@[k]).1.wf()
                },
                Err(()) => find_client(old(self).clients@, id) is None && *final(self) == *old(
                    self,
                ),
            },
    {
        proof {
            lemma_find_client(self.clients@, id);
        }
        let ti = match self.find_index(id) {
            Some(i) => i,
            None => {
                return Err(());
            },
        };
        let t = self.clients[ti];
        let ghost pre = *self;
        let tc = t.coords;
        self.map.coords[tc.0 as usize][tc.1 as usize].occupant = None;
        self.clients.remove(ti);
        proof {
            assert forall|r2: int, cc: int|
                0 <= r2 < pre.map.height && 0 <= cc < pre.map.width implies #[trigger] self.map.cell(
                r2,
                cc,
            ) == (if r2 == tc.0 as int && cc == tc.1 as int {
                ServerCell { occupant: None, ..pre.map.cell(r2, cc) }
            } else {
                pre.map.cell(r2, cc)
            }) by {
                assert(pre.map.coords@[r2]@.len() == pre.map.width);
            }
            lemma_remove_preserves_wf(pre, *self, ti as int);
        }
        let mut out: Vec<(u32, ServerPacket)> = Vec::new();
        proof {
            assert(out.deep_view() =~= broadcast_disconnected(self.clients@.take(0), id));
        }
        let mut k: usize = 0;
        while k < self.clients.len()
            invariant
                self.wf(),
                k <= self.clients@.len(),
                out.deep_view() == broadcast_disconnected(self.clients@.take(k as int), id),
                forall|m: int| 0 <= m < out@.len() ==> (#[trigger] out@[m]).1.wf(),
            decreases self.clients@.len() - k,
        {
            let q = self.clients[k];
            let ghost out_pre = out.deep_view();
            out.push((q.id, ServerPacket::PlayerDisconnected(id)));
            proof {
                lemma_broadcast_snoc(self.clients@.take(k as int), q, id);
                assert(self.clients@.take(k + 1) =~= self.clients@.take(k as int).push(q));
                assert(out.deep_view() =~= out_pre + seq![
                    (q.id, ServerPacketView::PlayerDisconnected(id)),
                ]);
            }
            k = k + 1;
        }
        proof {
            assert(self.clients@.take(self.clients@.len() as int) =~= self.clients@);
        }
        Ok(out)
    }

    /// Dispatch one inbound frame from the player with id `id`: a
    /// well-formed client packet acts, anything else (a decode failure or
    /// a packet only the server may send) is dropped and the session kept.
    pub fn client_wrote(&mut self, id: u32, bytes: &[u8]) -> (out: Vec<(u32, ServerPacket)>)
        requires
            old(self).wf(),
        ensures
            final(self).wf(),
            match Packet::parse(bytes@) {
                Some((pv, n)) => match pv {
                    PacketView::Client(ClientPacket::Move(d)) => move_transition(
                        *old(self),
                        *final(self),
                        out.deep_view(),
                        id,
                        d,
                    ),
                    PacketView::Client(ClientPacket::Shoot(d)) => shoot_transition(
                        *old(self),
                        *final(self),
                        out.deep_view(),
                        id,
                        d,
                    ),
                    PacketView::Server(_) => *final(self) == *old(self) && out@.len() == 0,
                },
                None => *final(self) == *old(self) && out@.len() == 0,
            },
            forall|k: int| 0 <= k < out@.len() ==> (#[trigger] out@[k]).1.wf(),
    {
        match Packet::deserialize(bytes) {
            Ok((Packet::Client(ClientPacket::Move(d)), _)) => self.do_move(id, d),
            Ok((Packet::Client(ClientPacket::Shoot(d)), _)) => self.do_shoot(id, d),
            _ => empty_outbox(),
        }
    }
}

/// The move notice that tells peers about a new entrant.  There is no
/// dedicated "joined" packet: a peer treats any position update with an
/// unknown id as a newly visible player.
pub open spec fn join_notices(peers: Seq<Client>, id: u32, coords: Coords) -> Seq<
    (u32, ServerPacketView),
>
    decreases peers.len(),
{
    if peers.len() == 0 {
        Seq::empty()
    } else {
        let q = peers[0];
        let here = if in_disk(q.coords, q.radius, coords) {
            seq![(q.id, moved_packet(id, coords))]
        } else {
            Seq::<(u32, ServerPacketView)>::empty()
        };
        here + join_notices(peers.skip(1), id, coords)
    }
}

/// Appending one peer appends its join notice, if it sees the entrant.
pub proof fn lemma_join_notices_snoc(peers: Seq<Client>, x: Client, id: u32, coords: Coords)
    ensures
        join_notices(peers.push(x), id, coords) == join_notices(peers, id, coords) + (if in_disk(
            x.coords,
            x.radius,
            coords,
        ) {
            seq![(x.id, moved_packet(id, coords))]
        } else {
            Seq::<(u32, ServerPacketView)>::empty()
        }),
    decreases peers.len(),
{
    if peers.len() == 0 {
        assert(peers.push(x)[0] == x);
        assert(peers.push(x).skip(1) =~= Seq::<Client>::empty());
        assert(join_notices(Seq::<Client>::empty(), id, coords) == Seq::<
            (u32, ServerPacketView),
        >::empty());
        assert(join_notices(peers.push(x), id, coords) =~= join_notices(peers, id, coords) + (
        if in_disk(x.coords, x.radius, coords) {
            seq![(x.id, moved_packet(id, coords))]
        } else {
            Seq::<(u32, ServerPacketView)>::empty()
        }));
    } else {
        assert(peers.push(x)[0] == peers[0]);
        assert(peers.push(x).skip(1) =~= peers.skip(1).push(x));
        lemma_join_notices_snoc(peers.skip(1), x, id, coords);
        assert(join_notices(peers.push(x), id, coords) =~= join_notices(peers, id, coords) + (
        if in_disk(x.coords, x.radius, coords) {
            seq![(x.id, moved_packet(id, coords))]
        } else {
            Seq::<(u32, ServerPacketView)>::empty()
        }));
    }
}

/// Everything sent when a fresh record `c` joins a table of peers: the
/// initial snapshot to the new client itself, then a move notice to every
/// peer whose disk holds the spawn cell.
pub open spec fn connect_outbox(map: &ServerMap, peers: Seq<Client>, c: Client) -> Seq<
    (u32, ServerPacketView),
> {
    seq![
        (
            c.id,
            ServerPacketView::NewClientCoordsVisibleMap(
                NewClientView {
                    id: c.id,
                    coords: c.coords,
                    hp: c.hp,
                    radius: c.radius,
                    weapon_range: c.weapon.range,
                    visible_coords: visible_cells(map, c.coords, c.radius),
                    players: visible_peers(peers, c.id, c.coords, c.radius),
                },
            ),
        ),
    ] + join_notices(peers, c.id, c.coords)
}

/// Installing a fresh record on a free cell keeps the engine invariant.
proof fn lemma_connect_preserves_wf(pre: Server, post: Server, c: Client)
    requires
        pre.wf(),
        pre.clients@.len() < 255,
        pre.id_counter < u32::MAX,
        c.id == pre.id_counter,
        c.radius <= 7,
        pre.map.in_bounds(c.coords),
        pre.map.cell(c.coords.0 as int, c.coords.1 as int).occupant is None,
        post.clients@ == pre.clients@.push(c),
        post.id_counter == pre.id_counter + 1,
        post.map.height == pre.map.height,
        post.map.width == pre.map.width,
        post.map.coords@.len() == pre.map.coords@.len(),
        forall|r: int|
            0 <= r < pre.map.coords@.len() ==> (#[trigger] post.map.coords@[r])@.len()
                == pre.map.coords@[r]@.len(),
        forall|r: int, cc: int|
            0 <= r < pre.map.height && 0 <= cc < pre.map.width ==> #[trigger] post.map.cell(r, cc)
                == (if r == c.coords.0 as int && cc == c.coords.1 as int {
                ServerCell { occupant: Some(c.id), ..pre.map.cell(r, cc) }
            } else {
                pre.map.cell(r, cc)
            }),
    ensures
        post.wf(),
{
    let n = pre.clients@.len() as int;
    assert forall|i: int| 0 <= i < post.clients@.len() implies {
        let q = #[trigger] post.clients@[i];
        &&& post.map.in_bounds(q.coords)
        &&& post.map.cell(q.coords.0 as int, q.coords.1 as int).occupant == Some(q.id)
        &&& q.id < post.id_counter
        &&& q.radius <= 7
    } by {
        if i < n {
            let q = pre.clients@[i];
            assert(post.clients@[i] == q);
            if q.coords == c.coords {
                assert(pre.map.cell(c.coords.0 as int, c.coords.1 as int).occupant == Some(q.id));
                assert(false);
            }
        } else {
            assert(post.clients@[i] == c);
        }
    }
    assert(ids_unique(post.clients@)) by {
        assert forall|a: int, b: int|
            0 <= a < post.clients@.len() && 0 <= b < post.clients@.len() && a != b implies (
        #[trigger] post.clients@[a]).id != (#[trigger] post.clients@[b]).id by {
            if a < n && b < n {
                assert(post.clients@[a] == pre.clients@[a]);
                assert(post.clients@[b] == pre.clients@[b]);
            } else if a < n {
                assert(pre.clients@[a].id < pre.id_counter);
            } else if b < n {
                assert(pre.clients@[b].id < pre.id_counter);
            }
        }
    }
    assert forall|r: int, cc: int|
        0 <= r < post.map.height && 0 <= cc < post.map.width && (#[trigger] post.map.cell(
            r,
            cc,
        )).occupant is Some implies exists|i: int|
        0 <= i < post.clients@.len() && (#[trigger] post.clients@[i]).coords == (
        r as u16,
        cc as u16,
        ) && Some(post.clients@[i].id) == post.map.cell(r, cc).occupant by {
        if r == c.coords.0 as int && cc == c.coords.1 as int {
            assert(post.clients@[n].coords == (r as u16, cc as u16));
            assert(Some(post.clients@[n].id) == post.map.cell(r, cc).occupant);
        } else {
            let i = choose|i: int|
                0 <= i < pre.clients@.len() && (#[trigger] pre.clients@[i]).coords == (
                r as u16,
                cc as u16,
                ) && Some(pre.clients@[i].id) == pre.map.cell(r, cc).occupant;
            assert(post.clients@[i].coords == (r as u16, cc as u16));
            assert(Some(post.clients@[i].id) == post.map.cell(r, cc).occupant);
        }
    }
}

/// Changing one player's hit points keeps the engine invariant.
proof fn lemma_hp_preserves_wf(pre: Server, post: Server, ti: int, c2: Client)
    requires
        pre.wf(),
        0 <= ti < pre.clients@.len(),
        c2.id == pre.clients@[ti].id,
        c2.coords == pre.clients@[ti].coords,
        c2.radius == pre.clients@[ti].radius,
        post.clients@ == pre.clients@.update(ti, c2),
        post.map == pre.map,
        post.id_counter == pre.id_counter,
    ensures
        post.wf(),
{
    assert forall|r: int, c: int|
        0 <= r < post.map.height && 0 <= c < post.map.width && (#[trigger] post.map.cell(
            r,
            c,
        )).occupant is Some implies exists|i: int|
        0 <= i < post.clients@.len() && (#[trigger] post.clients@[i]).coords == (
        r as u16,
        c as u16,
        ) && Some(post.clients@[i].id) == post.map.cell(r, c).occupant by {
        let i = choose|i: int|
            0 <= i < pre.clients@.len() && (#[trigger] pre.clients@[i]).coords == (
            r as u16,
            c as u16,
            ) && Some(pre.clients@[i].id) == pre.map.cell(r, c).occupant;
        assert(post.clients@[i].coords == (r as u16, c as u16));
        assert(Some(post.clients@[i].id) == post.map.cell(r, c).occupant);
    }
}

/// Removing one player and clearing its cell keeps the engine invariant.
proof fn lemma_remove_preserves_wf(pre: Server, post: Server, ti: int)
    requires
        pre.wf(),
        0 <= ti < pre.clients@.len(),
        post.clients@ == pre.clients@.remove(ti),
        post.id_counter == pre.id_counter,
        post.map.height == pre.map.height,
        post.map.width == pre.map.width,
        post.map.coords@.len() == pre.map.coords@.len(),
        forall|r: int|
            0 <= r < pre.map.coords@.len() ==> (#[trigger] post.map.coords@[r])@.len()
                == pre.map.coords@[r]@.len(),
        forall|r: int, cc: int|
            0 <= r < pre.map.height && 0 <= cc < pre.map.width ==> #[trigger] post.map.cell(r, cc)
                == (if r == pre.clients@[ti].coords.0 as int && cc
                == pre.clients@[ti].coords.1 as int {
                ServerCell { occupant: None, ..pre.map.cell(r, cc) }
            } else {
                pre.map.cell(r, cc)
            }),
    ensures
        post.wf(),
{
    let t = pre.clients@[ti];
    assert(post.map.wf());
    assert forall|i: int| 0 <= i < post.clients@.len() implies {
        let c = #[trigger] post.clients@[i];
        &&& post.map.in_bounds(c.coords)
        &&& post.map.cell(c.coords.0 as int, c.coords.1 as int).occupant == Some(c.id)
        &&& c.id < post.id_counter
        &&& c.radius <= 7
    } by {
        let j = if i < ti {
            i
        } else {
            i + 1
        };
        let c = pre.clients@[j];
        assert(post.clients@[i] == c);
        if c.coords == t.coords {
            assert(pre.map.cell(t.coords.0 as int, t.coords.1 as int).occupant == Some(c.id));
            assert(pre.map.cell(t.coords.0 as int, t.coords.1 as int).occupant == Some(t.id));
            assert(j == ti);
            assert(false);
        }
    }
    assert(ids_unique(post.clients@)) by {
        assert forall|a: int, b: int|
            0 <= a < post.clients@.len() && 0 <= b < post.clients@.len() && a != b implies (
        #[trigger] post.clients@[a]).id != (#[trigger] post.clients@[b]).id by {
            let a2 = if a < ti {
                a
            } else {
                a + 1
            };
            let b2 = if b < ti {
                b
            } else {
                b + 1
            };
            assert(post.clients@[a] == pre.clients@[a2]);
            assert(post.clients@[b] == pre.clients@[b2]);
        }
    }
    assert forall|r: int, cc: int|
        0 <= r < post.map.height && 0 <= cc < post.map.width && (#[trigger] post.map.cell(
            r,
            cc,
        )).occupant is Some implies exists|i: int|
        0 <= i < post.clients@.len() && (#[trigger] post.clients@[i]).coords == (
        r as u16,
        cc as u16,
        ) && Some(post.clients@[i].id) == post.map.cell(r, cc).occupant by {
        assert(pre.map.cell(r, cc).occupant is Some);
        let i = choose|i: int|
            0 <= i < pre.clients@.len() && (#[trigger] pre.clients@[i]).coords == (
            r as u16,
            cc as u16,
            ) && Some(pre.clients@[i].id) == pre.map.cell(r, cc).occupant;
        assert(i != ti) by {
            if i == ti {
                assert((r as u16, cc as u16) == t.coords);
            }
        }
        let i2 = if i < ti {
            i
        } else {
            i - 1
        };
        assert(post.clients@[i2] == pre.clients@[i]);
        assert(post.clients@[i2].coords == (r as u16, cc as u16));
        assert(Some(post.clients@[i2].id) == post.map.cell(r, cc).occupant);
    }
}

/// Moving one player's occupancy keeps the engine invariant.
proof fn lemma_move_preserves_wf(pre: Server, post: Server, idx: int, mover: u32, new_c: Coords)
    requires
        pre.wf(),
        0 <= idx < pre.clients@.len(),
        pre.clients@[idx].id == mover,
        pre.map.in_bounds(new_c),
        pre.map.cell(new_c.0 as int, new_c.1 as int).occupant is None,
        post.id_counter == pre.id_counter,
        post.clients@ == pre.clients@.update(
            idx,
            Client { coords: new_c, ..pre.clients@[idx] },
        ),
        post.map.height == pre.map.height,
        post.map.width == pre.map.width,
        post.map.coords@.len() == pre.map.coords@.len(),
        forall|r: int|
            0 <= r < pre.map.coords@.len() ==> (#[trigger] post.map.coords@[r])@.len()
                == pre.map.coords@[r]@.len(),
        forall|r: int, cc: int|
            0 <= r < pre.map.height && 0 <= cc < pre.map.width ==> #[trigger] post.map.cell(r, cc)
                == (if r == pre.clients@[idx].coords.0 as int && cc
                == pre.clients@[idx].coords.1 as int {
                ServerCell { occupant: None, ..pre.map.cell(r, cc) }
            } else if r == new_c.0 as int && cc == new_c.1 as int {
                ServerCell { occupant: Some(mover), ..pre.map.cell(r, cc) }
            } else {
                pre.map.cell(r, cc)
            }),
    ensures
        post.wf(),
{
    let old_c = pre.clients@[idx].coords;
    assert(post.map.wf());
    assert forall|i: int| 0 <= i < post.clients@.len() implies {
        let c = #[trigger] post.clients@[i];
        &&& post.map.in_bounds(c.coords)
        &&& post.map.cell(c.coords.0 as int, c.coords.1 as int).occupant == Some(c.id)
        &&& c.id < post.id_counter
        &&& c.radius <= 7
    } by {
        let c = post.clients@[i];
        if i == idx {
            assert(post.map.cell(new_c.0 as int, new_c.1 as int).occupant == Some(mover));
        } else {
            let pc = pre.clients@[i];
            assert(c == pc);
            // Another player stands neither on the mover's old cell (that
            // cell named the mover) nor on the new one (it was free).
            if pc.coords == old_c {
                assert(pre.map.cell(old_c.0 as int, old_c.1 as int).occupant == Some(pc.id));
                assert(pc.id == mover);
                assert(false);
            }
            if pc.coords == new_c {
                assert(pre.map.cell(new_c.0 as int, new_c.1 as int).occupant == Some(pc.id));
                assert(false);
            }
            assert(post.map.cell(pc.coords.0 as int, pc.coords.1 as int) == pre.map.cell(
                pc.coords.0 as int,
                pc.coords.1 as int,
            ));
        }
    }
    assert forall|r: int, cc: int|
        0 <= r < post.map.height && 0 <= cc < post.map.width && (#[trigger] post.map.cell(
            r,
            cc,
        )).occupant is Some implies exists|i: int|
        0 <= i < post.clients@.len() && (#[trigger] post.clients@[i]).coords == (
        r as u16,
        cc as u16,
        ) && Some(post.clients@[i].id) == post.map.cell(r, cc).occupant by {
        if r == new_c.0 as int && cc == new_c.1 as int {
            assert(post.clients@[idx].coords == (r as u16, cc as u16));
            assert(Some(post.clients@[idx].id) == post.map.cell(r, cc).occupant);
        } else if r == old_c.0 as int && cc == old_c.1 as int {
            assert(false);
        } else {
            assert(pre.map.cell(r, cc).occupant is Some);
            let i = choose|i: int|
                0 <= i < pre.clients@.len() && (#[trigger] pre.clients@[i]).coords == (
                r as u16,
                cc as u16,
                ) && Some(pre.clients@[i].id) == pre.map.cell(r, cc).occupant;
            assert(i != idx || (r as u16, cc as u16) == old_c);
            assert(post.clients@[i].coords == (r as u16, cc as u16));
            assert(Some(post.clients@[i].id) == post.map.cell(r, cc).occupant);
        }
    }
}

/// Extending a row scan by one column appends at most that one cell.
proof fn lemma_row_cells_step(
    map: &ServerMap,
    center: Coords,
    radius: u8,
    r: int,
    c_lo: int,
    j: int,
)
    requires
        c_lo <= j,
    ensures
        row_cells(map, center, radius, r, c_lo, j + 1) == row_cells(map, center, radius, r, c_lo, j)
            + (if in_disk(center, radius, (r as u16, j as u16)) {
            seq![MapCell { block: map.cell(r, j).block, coords: (r as u16, j as u16) }]
        } else {
            Seq::<MapCell>::empty()
        }),
    decreases j - c_lo,
{
    if c_lo == j {
        assert(row_cells(map, center, radius, r, c_lo, j) =~= Seq::<MapCell>::empty());
        assert(row_cells(map, center, radius, r, j + 1, j + 1) =~= Seq::<MapCell>::empty());
        assert(row_cells(map, center, radius, r, c_lo, j + 1) =~= row_cells(
            map,
            center,
            radius,
            r,
            c_lo,
            j,
        ) + (if in_disk(center, radius, (r as u16, j as u16)) {
            seq![MapCell { block: map.cell(r, j).block, coords: (r as u16, j as u16) }]
        } else {
            Seq::<MapCell>::empty()
        }));
    } else {
        lemma_row_cells_step(map, center, radius, r, c_lo + 1, j);
        assert(row_cells(map, center, radius, r, c_lo, j + 1) =~= row_cells(
            map,
            center,
            radius,
            r,
            c_lo,
            j,
        ) + (if in_disk(center, radius, (r as u16, j as u16)) {
            seq![MapCell { block: map.cell(r, j).block, coords: (r as u16, j as u16) }]
        } else {
            Seq::<MapCell>::empty()
        }));
    }
}

/// Extending the region scan by one finished row appends that row.
proof fn lemma_disk_cells_step(
    map: &ServerMap,
    center: Coords,
    radius: u8,
    r_lo: int,
    i: int,
    c_lo: int,
    c_hi: int,
)
    requires
        r_lo <= i,
    ensures
        disk_cells(map, center, radius, r_lo, i + 1, c_lo, c_hi) == disk_cells(
            map,
            center,
            radius,
            r_lo,
            i,
            c_lo,
            c_hi,
        ) + row_cells(map, center, radius, i, c_lo, c_hi),
    decreases i - r_lo,
{
    if r_lo == i {
        assert(disk_cells(map, center, radius, r_lo, i, c_lo, c_hi) =~= Seq::<MapCell>::empty());
        assert(disk_cells(map, center, radius, i + 1, i + 1, c_lo, c_hi)
            =~= Seq::<MapCell>::empty());
        assert(disk_cells(map, center, radius, r_lo, i + 1, c_lo, c_hi) =~= disk_cells(
            map,
            center,
            radius,
            r_lo,
            i,
            c_lo,
            c_hi,
        ) + row_cells(map, center, radius, i, c_lo, c_hi));
    } else {
        lemma_disk_cells_step(map, center, radius, r_lo + 1, i, c_lo, c_hi);
        assert(disk_cells(map, center, radius, r_lo, i + 1, c_lo, c_hi) =~= disk_cells(
            map,
            center,
            radius,
            r_lo,
            i,
            c_lo,
            c_hi,
        ) + row_cells(map, center, radius, i, c_lo, c_hi));
    }
}

} // verus!
