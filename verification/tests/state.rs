//! Client-state tests: applying server packets to the renderer's model.

use baboogee::client::{get_padding, to_absolute, ClientState};
use baboogee::protocol::{
    Direction, NewClient, NewCoords, OtherPlayerMoved, Packet, Player, ServerPacket,
};
use baboogee::types::{Block, MapCell};

fn snapshot() -> Packet {
    Packet::Server(ServerPacket::NewClientCoordsVisibleMap(NewClient {
        id: 3,
        coords: (10, 10),
        hp: 10,
        radius: 5,
        weapon_range: 5,
        visible_coords: vec![
            MapCell::new(Block::Grass, (10, 10)),
            MapCell::new(Block::Grass, (10, 11)),
        ],
        players: vec![Player::new(1, (12, 12)), Player::new(2, (9, 9))],
    }))
}

#[test]
fn padding_and_absolute_positions() {
    assert_eq!(get_padding((10, 10), (12, 7)), (2, -3));
    assert_eq!(to_absolute((10, 10), (2, -3)), (12, 7));
    assert_eq!(get_padding((5, 5), (5, 5)), (0, 0));
}

#[test]
fn keys_map_to_directions() {
    assert_eq!(Direction::try_from('w'), Ok(Direction::Up));
    assert_eq!(Direction::try_from('k'), Ok(Direction::Up));
    assert_eq!(Direction::try_from('d'), Ok(Direction::Right));
    assert_eq!(Direction::try_from('l'), Ok(Direction::Right));
    assert_eq!(Direction::try_from('s'), Ok(Direction::Down));
    assert_eq!(Direction::try_from('j'), Ok(Direction::Down));
    assert_eq!(Direction::try_from('a'), Ok(Direction::Left));
    assert_eq!(Direction::try_from('h'), Ok(Direction::Left));
    assert_eq!(Direction::try_from('q'), Err(()));
}

#[test]
fn fresh_state_defaults() {
    let c = ClientState::new();
    assert_eq!(c.radius, 5);
    assert_eq!(c.shooting_angle, Direction::Up);
    assert!(!c.quit);
    assert!(c.visible_map.is_empty());
    assert!(c.other_players.is_empty());
    assert!(c.players_outside.is_empty());
}

#[test]
fn snapshot_fills_the_state() {
    let mut c = ClientState::new();
    c.apply_packet(snapshot());
    assert_eq!(c.id, 3);
    assert_eq!(c.coords, (10, 10));
    assert_eq!(c.max_hp, 10);
    assert_eq!(c.current_hp, 10);
    assert_eq!(c.radius, 5);
    assert_eq!(c.weapon_range, 5);
    assert_eq!(c.visible_map.len(), 2);
    assert_eq!(c.other_players, vec![Player::new(1, (12, 12)), Player::new(2, (9, 9))]);
    assert!(c.players_outside.is_empty());
}

#[test]
fn peer_moves_update_the_tables() {
    let mut c = ClientState::new();
    c.apply_packet(snapshot());

    // A known peer moves: its entry is updated in place.
    c.apply_packet(Packet::Server(ServerPacket::OtherPlayerMoved(OtherPlayerMoved {
        coords: (12, 13),
        id: 1,
    })));
    assert_eq!(c.other_players, vec![Player::new(1, (12, 13)), Player::new(2, (9, 9))]);

    // An unknown id appears: it is inserted.
    c.apply_packet(Packet::Server(ServerPacket::OtherPlayerMoved(OtherPlayerMoved {
        coords: (8, 8),
        id: 9,
    })));
    assert_eq!(c.other_players.len(), 3);
    assert_eq!(*c.other_players.last().unwrap(), Player::new(9, (8, 8)));

    // Leaving the radius moves the peer aside; disconnecting forgets it.
    c.apply_packet(Packet::Server(ServerPacket::OtherPlayerMovedOutsideRadius(1)));
    assert!(c.other_players.iter().all(|p| p.id != 1));
    c.apply_packet(Packet::Server(ServerPacket::PlayerDisconnected(9)));
    assert!(c.other_players.iter().all(|p| p.id != 9));
    assert!(c.players_outside.iter().all(|p| p.id != 9));
}

#[test]
fn own_move_prunes_and_sorts() {
    let mut c = ClientState::new();
    c.apply_packet(snapshot());

    // Move far away: old terrain is pruned, the new cells arrive, and the
    // previously known peers (now out of range) are set aside.
    c.apply_packet(Packet::Server(ServerPacket::NewCoords(NewCoords {
        center: (30, 30),
        coords: vec![MapCell::new(Block::Grass, (30, 30))],
        players: vec![],
    })));
    assert_eq!(c.coords, (30, 30));
    assert_eq!(c.visible_map, vec![MapCell::new(Block::Grass, (30, 30))]);
    assert!(c.other_players.is_empty());
    let mut outside_ids: Vec<u32> = c.players_outside.iter().map(|p| p.id).collect();
    outside_ids.sort();
    assert_eq!(outside_ids, vec![1, 2]);

    // A reported peer inside the new disk lands in the known table and
    // leaves the out-of-sight one.
    c.apply_packet(Packet::Server(ServerPacket::NewCoords(NewCoords {
        center: (30, 30),
        coords: vec![],
        players: vec![Player::new(1, (31, 31))],
    })));
    assert_eq!(c.other_players, vec![Player::new(1, (31, 31))]);
    let outside_ids: Vec<u32> = c.players_outside.iter().map(|p| p.id).collect();
    assert_eq!(outside_ids, vec![2]);
}

#[test]
fn outbound_payloads() {
    let mut c = ClientState::new();
    let mut buf = [0u8; 16];

    let n = c.build_move_payload(&mut buf, 'd').unwrap();
    assert_eq!(&buf[..n], &[0x01, 0x00, 0x01]);
    assert!(c.build_move_payload(&mut buf, 'x').is_err());

    let n = c.build_shoot_payload(&mut buf).unwrap();
    assert_eq!(&buf[..n], &[0x01, 0x01, 0x00]);
    c.shooting_angle = Direction::Left;
    let n = c.build_shoot_payload(&mut buf).unwrap();
    assert_eq!(&buf[..n], &[0x01, 0x01, 0x03]);

    let mut tiny = [0u8; 1];
    assert!(c.build_shoot_payload(&mut tiny).is_err());
}

#[test]
fn damage_saturates_and_death_quits() {
    let mut c = ClientState::new();
    c.apply_packet(snapshot());
    c.apply_packet(Packet::Server(ServerPacket::PlayerWasShot(3, Direction::Down)));
    assert_eq!(c.current_hp, 7);
    c.apply_packet(Packet::Server(ServerPacket::PlayerWasShot(200, Direction::Down)));
    assert_eq!(c.current_hp, 0);
    assert!(!c.quit);
    c.apply_packet(Packet::Server(ServerPacket::PlayerDied(1)));
    assert!(c.quit);
}
