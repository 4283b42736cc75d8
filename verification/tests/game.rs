//! Engine scenarios: visibility, the move fan-out, shooting, and the
//! generated payloads.

use baboogee::codec::Serialize;
use baboogee::engine::{visible_map, Client, Server, ServerCell, ServerMap, Weapon};
use baboogee::protocol::{
    generate_initial_payload, Direction, OtherPlayerMoved, Packet, Player, ServerPacket,
};
use baboogee::types::{Block, Coords, WorldMap};
use baboogee::utils::{generate_map, generate_random_coords, is_inside_circle};

fn grass_world(height: usize, width: usize) -> WorldMap {
    WorldMap {
        height,
        width,
        coords: vec![vec![Block::Grass; width]; height],
    }
}

fn grass_server(height: usize, width: usize) -> Server {
    Server {
        clients: Vec::new(),
        id_counter: 0,
        map: ServerMap::from_map(&grass_world(height, width)),
    }
}

/// Put a player on the board by hand, so positions are deterministic.
fn install(server: &mut Server, id: u32, coords: Coords, hp: u8) {
    server.map.coords[coords.0 as usize][coords.1 as usize].occupant = Some(id);
    server.clients.push(Client {
        id,
        coords,
        radius: 5,
        hp,
        weapon: Weapon { range: 5, damage: 1 },
    });
    if server.id_counter <= id {
        server.id_counter = id + 1;
    }
}

#[test]
fn visibility_predicate_matches_squares() {
    // Boundary included: 3*3 + 4*4 == 5*5.
    assert!(is_inside_circle((0, 0), 5, (3, 4)));
    assert!(is_inside_circle((10, 10), 5, (10, 15)));
    assert!(!is_inside_circle((10, 10), 5, (10, 16)));
    assert!(!is_inside_circle((0, 0), 5, (0, 6)));
    assert!(is_inside_circle((7, 7), 0, (7, 7)));
    for r in 0u16..12 {
        for c in 0u16..12 {
            let lhs = is_inside_circle((5, 5), 3, (r, c));
            let dx = 5i32 - r as i32;
            let dy = 5i32 - c as i32;
            assert_eq!(lhs, dx * dx + dy * dy <= 9);
        }
    }
}

#[test]
fn visible_map_is_the_clipped_disk() {
    let server = grass_server(20, 20);
    let cells = visible_map(&server.map, (10, 10), 5);
    // The full disk of radius 5 holds 81 grid points.
    assert_eq!(cells.len(), 81);
    for cell in &cells {
        assert_eq!(cell.block, Block::Grass);
        assert!(cell.coords.0 < 20 && cell.coords.1 < 20);
        let dx = 10i32 - cell.coords.0 as i32;
        let dy = 10i32 - cell.coords.1 as i32;
        assert!(dx * dx + dy * dy <= 25);
    }
    // Clipped at the origin corner: only the quarter disk remains.
    let corner = visible_map(&server.map, (0, 0), 5);
    assert_eq!(corner.len(), 26);
    for cell in &corner {
        let dx = cell.coords.0 as i32;
        let dy = cell.coords.1 as i32;
        assert!(dx * dx + dy * dy <= 25);
    }
}

#[test]
fn initial_payload_bytes() {
    // Single client on a 20x20 map at (10,10), radius 5: the snapshot
    // starts with the header bytes, then 81 grass cells.
    let server = grass_server(20, 20);
    let cells = visible_map(&server.map, (10, 10), 5);
    let mut buf = [0u8; 512];
    let n = generate_initial_payload(&mut buf, 0, (10, 10), 5, 10, 5, cells, Vec::new()).unwrap();
    assert_eq!(
        &buf[..13],
        &[0x00, 0x00, 0x00, 0x00, 0x00, 0x00, 0x00, 0x0A, 0x00, 0x0A, 0x0A, 0x05, 0x05]
    );
    assert_eq!(buf[13], 81);
    // Each transmitted cell is grass.
    for k in 0..81 {
        assert_eq!(buf[14 + 5 * k], 1);
    }
    assert_eq!(n, 14 + 5 * 81 + 1);
}

#[test]
fn connect_assigns_id_and_snapshot() {
    let mut server = grass_server(20, 20);
    let out = server.client_connected().expect("empty board accepts");
    assert_eq!(server.clients.len(), 1);
    assert_eq!(server.id_counter, 1);
    let me = server.clients[0];
    assert_eq!(me.id, 0);
    assert_eq!(me.hp, 10);
    assert_eq!(me.radius, 5);
    assert_eq!(
        server.map.coords[me.coords.0 as usize][me.coords.1 as usize].occupant,
        Some(0)
    );
    assert_eq!(out.len(), 1);
    assert_eq!(out[0].0, 0);
    match &out[0].1 {
        ServerPacket::NewClientCoordsVisibleMap(nc) => {
            assert_eq!(nc.id, 0);
            assert_eq!(nc.coords, me.coords);
            assert_eq!(nc.hp, 10);
            assert_eq!(nc.radius, 5);
            assert_eq!(nc.weapon_range, 5);
            assert!(nc.players.is_empty());
            assert!(!nc.visible_coords.is_empty());
            for cell in &nc.visible_coords {
                assert_eq!(cell.block, Block::Grass);
            }
        }
        other => panic!("expected the initial snapshot, got {:?}", other),
    }
}

#[test]
fn connect_notifies_watching_peers() {
    let mut server = grass_server(20, 20);
    install(&mut server, 0, (10, 10), 10);
    server.id_counter = 1;
    let out = server.client_connected().expect("room left");
    let me = *server.clients.last().unwrap();
    assert_eq!(me.id, 1);
    let watching = is_inside_circle((10, 10), 5, me.coords);
    let notices: Vec<_> = out.iter().skip(1).collect();
    if watching {
        assert_eq!(notices.len(), 1);
        assert_eq!(notices[0].0, 0);
        assert_eq!(
            notices[0].1,
            ServerPacket::OtherPlayerMoved(OtherPlayerMoved { coords: me.coords, id: 1 })
        );
    } else {
        assert!(notices.is_empty());
    }
}

#[test]
fn connect_at_chosen_cell() {
    // Single client connects on a 20x20 map at (10,10) with radius 5: the
    // first packet's bytes begin with the snapshot header, and the
    // visible map holds the 81 grass cells of the disk.
    let mut server = grass_server(20, 20);
    let out = server.client_connected_at((10, 10)).expect("free cell accepts");
    assert_eq!(out.len(), 1);
    let (to, sp) = out.into_iter().next().unwrap();
    assert_eq!(to, 0);
    match &sp {
        ServerPacket::NewClientCoordsVisibleMap(nc) => {
            assert_eq!(nc.visible_coords.len(), 81);
            assert!(nc.visible_coords.iter().all(|c| c.block == Block::Grass));
        }
        other => panic!("expected the initial snapshot, got {:?}", other),
    }
    let mut buf = [0u8; 512];
    let n = Packet::Server(sp).serialize(&mut buf).unwrap();
    assert!(n > 13);
    assert_eq!(
        &buf[..13],
        &[0x00, 0x00, 0x00, 0x00, 0x00, 0x00, 0x00, 0x0A, 0x00, 0x0A, 0x0A, 0x05, 0x05]
    );

    // The spawn cell is taken now.
    assert!(server.client_connected_at((10, 10)).is_err());

    // A second entrant inside the first player's disk is announced to it
    // through a position update.
    let out = server.client_connected_at((10, 12)).expect("free cell accepts");
    assert_eq!(out.len(), 2);
    assert_eq!(out[1].0, 0);
    assert_eq!(
        out[1].1,
        ServerPacket::OtherPlayerMoved(OtherPlayerMoved { coords: (10, 12), id: 1 })
    );
}

#[test]
fn move_fans_out_to_watcher_and_mover() {
    // A (id 0) at (5,5), B (id 1) at (7,7); B moves right to (7,8).
    let mut server = grass_server(20, 20);
    install(&mut server, 0, (5, 5), 10);
    install(&mut server, 1, (7, 7), 10);
    let out = server.do_move(1, Direction::Right);

    assert_eq!(server.clients[1].coords, (7, 8));
    assert_eq!(server.map.coords[7][7].occupant, None);
    assert_eq!(server.map.coords[7][8].occupant, Some(1));

    assert_eq!(out.len(), 2);
    assert_eq!(out[0].0, 0);
    assert_eq!(
        out[0].1,
        ServerPacket::OtherPlayerMoved(OtherPlayerMoved { coords: (7, 8), id: 1 })
    );
    assert_eq!(out[1].0, 1);
    match &out[1].1 {
        ServerPacket::NewCoords(nc) => {
            assert_eq!(nc.center, (7, 8));
            assert_eq!(nc.players, vec![Player::new(0, (5, 5))]);
        }
        other => panic!("expected the move acknowledgement, got {:?}", other),
    }
}

#[test]
fn move_to_boundary_then_out_of_radius() {
    // A at (0,0), B at (0,4), both radius 5.  One step right keeps B on
    // the boundary (25 <= 25); the next leaves A's disk (36 > 25).
    let mut server = grass_server(20, 20);
    install(&mut server, 0, (0, 0), 10);
    install(&mut server, 1, (0, 4), 10);

    let out = server.do_move(1, Direction::Right);
    assert_eq!(out[0].0, 0);
    assert_eq!(
        out[0].1,
        ServerPacket::OtherPlayerMoved(OtherPlayerMoved { coords: (0, 5), id: 1 })
    );

    let out = server.do_move(1, Direction::Right);
    assert_eq!(out[0].0, 0);
    assert_eq!(out[0].1, ServerPacket::OtherPlayerMovedOutsideRadius(1));
    // The mover's own acknowledgement no longer lists A either way.
    match &out[1].1 {
        ServerPacket::NewCoords(nc) => assert!(nc.players.is_empty()),
        other => panic!("expected the move acknowledgement, got {:?}", other),
    }
}

#[test]
fn move_rejected_at_edge_is_silent() {
    // A tries to move left from (0,0): rejected, nothing sent to anyone.
    let mut server = grass_server(20, 20);
    install(&mut server, 0, (0, 0), 10);
    install(&mut server, 1, (0, 2), 10);
    let out = server.do_move(0, Direction::Left);
    assert!(out.is_empty());
    assert_eq!(server.clients[0].coords, (0, 0));
    assert_eq!(server.map.coords[0][0].occupant, Some(0));
}

#[test]
fn move_into_occupied_cell_is_silent() {
    let mut server = grass_server(20, 20);
    install(&mut server, 0, (3, 3), 10);
    install(&mut server, 1, (3, 4), 10);
    let out = server.do_move(0, Direction::Right);
    assert!(out.is_empty());
    assert_eq!(server.clients[0].coords, (3, 3));
}

#[test]
fn shoot_hits_then_kills() {
    // A at (10,10) faces right, range 5, damage 1; B at (10,12) with 2 hp.
    let mut server = grass_server(20, 20);
    install(&mut server, 0, (10, 10), 10);
    install(&mut server, 1, (10, 12), 2);

    let out = server.do_shoot(0, Direction::Right);
    assert_eq!(out.len(), 1);
    assert_eq!(out[0].0, 1);
    assert_eq!(out[0].1, ServerPacket::PlayerWasShot(1, Direction::Right));
    assert_eq!(server.clients[1].hp, 1);

    let out = server.do_shoot(0, Direction::Right);
    assert_eq!(out.len(), 2);
    assert_eq!(out[0], (1, ServerPacket::PlayerDied(0)));
    assert_eq!(out[1], (0, ServerPacket::PlayerDisconnected(1)));
    assert_eq!(server.clients.len(), 1);
    assert_eq!(server.map.coords[10][12].occupant, None);
}

#[test]
fn shoot_stops_at_nearest_target() {
    let mut server = grass_server(20, 20);
    install(&mut server, 0, (10, 10), 10);
    install(&mut server, 1, (10, 12), 10);
    install(&mut server, 2, (10, 14), 10);
    let out = server.do_shoot(0, Direction::Right);
    assert_eq!(out.len(), 1);
    assert_eq!(out[0].0, 1);
    assert_eq!(server.clients[1].hp, 9);
    assert_eq!(server.clients[2].hp, 10);
}

#[test]
fn shoot_up_from_origin_is_a_no_op() {
    // The swept range is clamped away at the top edge: no target, no
    // packets.
    let mut server = grass_server(20, 20);
    install(&mut server, 0, (0, 0), 10);
    install(&mut server, 1, (5, 5), 10);
    let out = server.do_shoot(0, Direction::Up);
    assert!(out.is_empty());
    assert_eq!(server.clients[0].hp, 10);
    assert_eq!(server.clients[1].hp, 10);
}

#[test]
fn shoot_out_of_range_misses() {
    let mut server = grass_server(20, 20);
    install(&mut server, 0, (10, 10), 10);
    install(&mut server, 1, (10, 16), 10);
    let out = server.do_shoot(0, Direction::Right);
    assert!(out.is_empty());
}

#[test]
fn disconnect_broadcasts_to_everyone_left() {
    let mut server = grass_server(20, 20);
    install(&mut server, 0, (1, 1), 10);
    install(&mut server, 1, (2, 2), 10);
    install(&mut server, 2, (18, 18), 10);
    let out = server.client_disconnected(1).expect("id 1 is connected");
    assert_eq!(server.clients.len(), 2);
    assert_eq!(server.map.coords[2][2].occupant, None);
    assert_eq!(out.len(), 2);
    assert_eq!(out[0], (0, ServerPacket::PlayerDisconnected(1)));
    assert_eq!(out[1], (2, ServerPacket::PlayerDisconnected(1)));
    assert!(server.client_disconnected(1).is_err());
}

#[test]
fn inbound_frames_are_dispatched_or_dropped() {
    let mut server = grass_server(20, 20);
    install(&mut server, 0, (5, 5), 10);

    // A well-formed move frame acts.
    let mut buf = [0u8; 16];
    let n = Packet::Client(baboogee::protocol::ClientPacket::Move(Direction::Down))
        .serialize(&mut buf)
        .unwrap();
    let out = server.client_wrote(0, &buf[..n]);
    assert_eq!(server.clients[0].coords, (6, 5));
    assert_eq!(out.len(), 1);

    // Garbage and server-to-client frames are dropped; the session stays.
    let out = server.client_wrote(0, &[0xFF, 0x00]);
    assert!(out.is_empty());
    let n = Packet::Server(ServerPacket::PlayerDied(0)).serialize(&mut buf).unwrap();
    let out = server.client_wrote(0, &buf[..n]);
    assert!(out.is_empty());
    assert_eq!(server.clients[0].coords, (6, 5));

    // Frames from an unknown id are ignored.
    let n = Packet::Client(baboogee::protocol::ClientPacket::Move(Direction::Down))
        .serialize(&mut buf)
        .unwrap();
    let out = server.client_wrote(77, &buf[..n]);
    assert!(out.is_empty());
}

#[test]
fn generated_world_is_bounded_grass() {
    let world = generate_map();
    assert!((20..50).contains(&world.height));
    assert!((20..50).contains(&world.width));
    assert_eq!(world.coords.len(), world.height);
    for row in &world.coords {
        assert_eq!(row.len(), world.width);
        for block in row {
            assert_eq!(*block, Block::Grass);
        }
    }
}

#[test]
fn random_coords_stay_in_range() {
    for _ in 0..100 {
        let (x, y) = generate_random_coords(20, 30);
        assert!(x < 20 && y < 30);
    }
}

#[test]
fn fresh_engine_is_empty() {
    let server = Server::new();
    assert!(server.clients.is_empty());
    assert_eq!(server.id_counter, 0);
    assert!((20..50).contains(&server.map.height));
    assert!((20..50).contains(&server.map.width));
    for row in &server.map.coords {
        for cell in row {
            assert_eq!(
                *cell,
                ServerCell { block: Block::Grass, occupant: None }
            );
        }
    }
}
