//! Wire-format tests: round trips, the fixed byte layouts, and the failure
//! modes of the codec.

use baboogee::codec::{Deserialize, DeserializeError, Serialize, SerializeError};
use baboogee::protocol::{
    ClientPacket, Direction, NewClient, NewCoords, OtherPlayerMoved, Packet, Player, ServerPacket,
};
use baboogee::types::{Block, MapCell};

fn encode<T: Serialize>(v: &T) -> Vec<u8> {
    let mut buf = [0u8; 512];
    let n = v.serialize(&mut buf).expect("encoding must fit");
    buf[..n].to_vec()
}

#[test]
fn primitive_round_trips() {
    let mut buf = [0u8; 16];

    let n = 0xABu8.serialize(&mut buf).unwrap();
    assert_eq!(u8::deserialize(&buf[..n]).unwrap(), (0xAB, 1));

    let n = (-7i8).serialize(&mut buf).unwrap();
    assert_eq!(i8::deserialize(&buf[..n]).unwrap(), (-7, 1));

    let n = 0xBEEFu16.serialize(&mut buf).unwrap();
    assert_eq!(buf[..n], [0xBE, 0xEF]);
    assert_eq!(u16::deserialize(&buf[..n]).unwrap(), (0xBEEF, 2));

    let n = (-12345i16).serialize(&mut buf).unwrap();
    assert_eq!(i16::deserialize(&buf[..n]).unwrap(), (-12345, 2));

    let n = 0xDEAD_BEEFu32.serialize(&mut buf).unwrap();
    assert_eq!(buf[..n], [0xDE, 0xAD, 0xBE, 0xEF]);
    assert_eq!(u32::deserialize(&buf[..n]).unwrap(), (0xDEAD_BEEF, 4));

    let n = (-123_456_789i32).serialize(&mut buf).unwrap();
    assert_eq!(i32::deserialize(&buf[..n]).unwrap(), (-123_456_789, 4));
}

#[test]
fn option_round_trips() {
    let mut buf = [0u8; 16];

    let n = Some(0x1234u16).serialize(&mut buf).unwrap();
    assert_eq!(buf[..n], [1, 0x12, 0x34]);
    assert_eq!(
        <Option<u16>>::deserialize(&buf[..n]).unwrap(),
        (Some(0x1234), 3)
    );

    let n = (None::<u16>).serialize(&mut buf).unwrap();
    assert_eq!(buf[..n], [0]);
    assert_eq!(<Option<u16>>::deserialize(&buf[..n]).unwrap(), (None, 1));

    // Any other presence tag is invalid.
    assert!(matches!(
        <Option<u16>>::deserialize(&[2, 0, 0]),
        Err(DeserializeError::Invalid)
    ));
}

#[test]
fn sequence_round_trip() {
    let v: Vec<u16> = vec![1, 2, 515];
    let bytes = encode(&v);
    assert_eq!(bytes, [3, 0, 1, 0, 2, 2, 3]);
    let (back, used) = <Vec<u16>>::deserialize(&bytes).unwrap();
    assert_eq!(back, v);
    assert_eq!(used, bytes.len());
}

#[test]
fn direction_ordinals() {
    assert_eq!(encode(&Direction::Up), [0]);
    assert_eq!(encode(&Direction::Right), [1]);
    assert_eq!(encode(&Direction::Down), [2]);
    assert_eq!(encode(&Direction::Left), [3]);
    assert!(matches!(
        Direction::deserialize(&[4]),
        Err(DeserializeError::Invalid)
    ));
}

#[test]
fn block_ordinals() {
    assert_eq!(encode(&Block::Void), [0]);
    assert_eq!(encode(&Block::Grass), [1]);
    assert_eq!(encode(&Block::WallBottomRight), [9]);
    assert!(matches!(
        Block::deserialize(&[10]),
        Err(DeserializeError::Invalid)
    ));
}

#[test]
fn client_packet_bytes() {
    assert_eq!(
        encode(&Packet::Client(ClientPacket::Move(Direction::Up))),
        [0x01, 0x00, 0x00]
    );
    assert_eq!(
        encode(&Packet::Client(ClientPacket::Move(Direction::Right))),
        [0x01, 0x00, 0x01]
    );
    assert_eq!(
        encode(&Packet::Client(ClientPacket::Shoot(Direction::Left))),
        [0x01, 0x01, 0x03]
    );
}

#[test]
fn server_packet_bytes() {
    assert_eq!(
        encode(&Packet::Server(ServerPacket::PlayerDisconnected(7))),
        [0x00, 0x04, 0x00, 0x00, 0x00, 0x07]
    );
    assert_eq!(
        encode(&Packet::Server(ServerPacket::PlayerWasShot(3, Direction::Down))),
        [0x00, 0x05, 0x03, 0x02]
    );
    assert_eq!(
        encode(&Packet::Server(ServerPacket::OtherPlayerMoved(OtherPlayerMoved {
            coords: (10, 20),
            id: 7,
        }))),
        [0x00, 0x02, 0x00, 0x0A, 0x00, 0x14, 0x00, 0x00, 0x00, 0x07]
    );
}

#[test]
fn packet_round_trips() {
    let packets = vec![
        Packet::Client(ClientPacket::Move(Direction::Down)),
        Packet::Client(ClientPacket::Shoot(Direction::Up)),
        Packet::Server(ServerPacket::PlayerDied(99)),
        Packet::Server(ServerPacket::PlayerDisconnected(1)),
        Packet::Server(ServerPacket::PlayerWasShot(2, Direction::Left)),
        Packet::Server(ServerPacket::OtherPlayerMovedOutsideRadius(12)),
        Packet::Server(ServerPacket::OtherPlayerMoved(OtherPlayerMoved {
            coords: (3, 4),
            id: 5,
        })),
        Packet::Server(ServerPacket::NewCoords(NewCoords {
            center: (7, 8),
            coords: vec![
                MapCell::new(Block::Grass, (7, 9)),
                MapCell::new(Block::Void, (8, 8)),
            ],
            players: vec![Player::new(0, (5, 5))],
        })),
        Packet::Server(ServerPacket::NewClientCoordsVisibleMap(NewClient {
            id: 4,
            coords: (10, 10),
            hp: 10,
            radius: 5,
            weapon_range: 5,
            visible_coords: vec![MapCell::new(Block::Grass, (10, 11))],
            players: vec![Player::new(1, (12, 12)), Player::new(2, (9, 9))],
        })),
    ];
    for p in packets {
        let bytes = encode(&p);
        let (back, used) = Packet::deserialize(&bytes).expect("round trip decodes");
        assert_eq!(used, bytes.len());
        assert_eq!(back, p);
    }
}

#[test]
fn truncation_is_invalid() {
    let p = Packet::Server(ServerPacket::NewCoords(NewCoords {
        center: (7, 8),
        coords: vec![MapCell::new(Block::Grass, (7, 9))],
        players: vec![Player::new(0, (5, 5))],
    }));
    let bytes = encode(&p);
    for k in 0..bytes.len() {
        assert!(matches!(
            Packet::deserialize(&bytes[..k]),
            Err(DeserializeError::Invalid)
        ));
    }
}

#[test]
fn unknown_tags_are_invalid() {
    assert!(matches!(
        Packet::deserialize(&[0x02, 0x00]),
        Err(DeserializeError::Invalid)
    ));
    assert!(matches!(
        Packet::deserialize(&[0x00, 0x07, 0x00]),
        Err(DeserializeError::Invalid)
    ));
    assert!(matches!(
        Packet::deserialize(&[0x01, 0x02, 0x00]),
        Err(DeserializeError::Invalid)
    ));
}

#[test]
fn small_buffer_overflows() {
    let mut tiny = [0u8; 2];
    let r = Packet::Server(ServerPacket::PlayerDisconnected(7)).serialize(&mut tiny);
    assert!(matches!(r, Err(SerializeError::BufferOverflow)));

    let mut zero = [0u8; 0];
    let r = 5u8.serialize(&mut zero);
    assert!(matches!(r, Err(SerializeError::BufferOverflow)));
}

#[test]
fn failed_atom_encodes_leave_the_buffer_alone() {
    // The fixed-width atoms test for room before writing anything.
    let mut one = [0x77u8; 1];
    assert!(0xBEEFu16.serialize(&mut one).is_err());
    assert_eq!(one, [0x77]);

    let mut three = [0x77u8; 3];
    assert!(0xDEAD_BEEFu32.serialize(&mut three).is_err());
    assert_eq!(three, [0x77, 0x77, 0x77]);
    assert!((-5i32).serialize(&mut three).is_err());
    assert_eq!(three, [0x77, 0x77, 0x77]);
    assert!((-5i16).serialize(&mut three[..1].as_mut()).is_err());
    assert_eq!(three, [0x77, 0x77, 0x77]);
}

#[test]
fn consumed_count_ignores_trailing_bytes() {
    let mut bytes = encode(&Packet::Client(ClientPacket::Move(Direction::Up)));
    let expect = bytes.len();
    bytes.extend_from_slice(&[0xFF, 0xEE]);
    let (back, used) = Packet::deserialize(&bytes).unwrap();
    assert_eq!(used, expect);
    assert_eq!(back, Packet::Client(ClientPacket::Move(Direction::Up)));
}
