//! Core world data: grid coordinates, terrain blocks, visible map cells and
//! the generated world rectangle.

use crate::codec::{
    write_byte, Deserialize, DeserializeError, Serialize, SerializeError,
};
use vstd::prelude::*;

verus! {

/// Grid position `(row, column)`; the row grows downward, the column
/// rightward.
pub type Coords = (u16, u16);

/// Terrain kind of one map cell.  Wire ordinals follow declaration order.
#[derive(Clone, Copy, Debug, PartialEq, Eq, Structural)]
pub enum Block {
    Void,
    Grass,
    Player,
    OtherPlayer,
    WallHorizontal,
    WallVertical,
    WallTopLeft,
    WallTopRight,
    WallBottomLeft,
    WallBottomRight,
}

impl DeepView for Block {
    type V = Block;

    open spec fn deep_view(&self) -> Block {
        *self
    }
}

/// The wire ordinal of each terrain kind.
pub open spec fn block_ordinal(b: Block) -> u8 {
    match b {
        Block::Void => 0,
        Block::Grass => 1,
        Block::Player => 2,
        Block::OtherPlayer => 3,
        Block::WallHorizontal => 4,
        Block::WallVertical => 5,
        Block::WallTopLeft => 6,
        Block::WallTopRight => 7,
        Block::WallBottomLeft => 8,
        Block::WallBottomRight => 9,
    }
}

/// The terrain kind a wire ordinal stands for, if any.
pub open spec fn block_of_ordinal(t: u8) -> Option<Block> {
    if t == 0 {
        Some(Block::Void)
    } else if t == 1 {
        Some(Block::Grass)
    } else if t == 2 {
        Some(Block::Player)
    } else if t == 3 {
        Some(Block::OtherPlayer)
    } else if t == 4 {
        Some(Block::WallHorizontal)
    } else if t == 5 {
        Some(Block::WallVertical)
    } else if t == 6 {
        Some(Block::WallTopLeft)
    } else if t == 7 {
        Some(Block::WallTopRight)
    } else if t == 8 {
        Some(Block::WallBottomLeft)
    } else if t == 9 {
        Some(Block::WallBottomRight)
    } else {
        None
    }
}

impl Serialize for Block {
    open spec fn overflow_leaves_buffer() -> bool {
        true
    }

    open spec fn wf(&self) -> bool {
        true
    }

    open spec fn wire(&self) -> Seq<u8> {
        seq![block_ordinal(*self)]
    }

    fn serialize_at(&self, buffer: &mut [u8], pos: usize) -> (r: Result<usize, SerializeError>) {
        let t: u8 = match self {
            Block::Void => 0,
            Block::Grass => 1,
            Block::Player => 2,
            Block::OtherPlayer => 3,
            Block::WallHorizontal => 4,
            Block::WallVertical => 5,
            Block::WallTopLeft => 6,
            Block::WallTopRight => 7,
            Block::WallBottomLeft => 8,
            Block::WallBottomRight => 9,
        };
        if write_byte(buffer, pos, t) {
            assert(buffer@.subrange(pos as int, pos + 1) =~= self.wire());
            assert(buffer@.subrange(0, pos as int) =~= old(buffer)@.subrange(0, pos as int));
            assert(buffer@.skip(pos + 1) =~= old(buffer)@.skip(pos + 1));
            Ok(1)
        } else {
            Err(SerializeError::BufferOverflow)
        }
    }
}

impl Deserialize for Block {
    open spec fn parse(buf: Seq<u8>) -> Option<(Block, int)> {
        if buf.len() >= 1 {
            match block_of_ordinal(buf[0]) {
                Some(b) => Some((b, 1)),
                None => None,
            }
        } else {
            None
        }
    }

    fn deserialize(buf: &[u8]) -> (r: Result<(Self, usize), DeserializeError>) {
        if buf.len() < 1 {
            return Err(DeserializeError::Invalid);
        }
        let t = buf[0];
        let b = if t == 0 {
            Block::Void
        } else if t == 1 {
            Block::Grass
        } else if t == 2 {
            Block::Player
        } else if t == 3 {
            Block::OtherPlayer
        } else if t == 4 {
            Block::WallHorizontal
        } else if t == 5 {
            Block::WallVertical
        } else if t == 6 {
            Block::WallTopLeft
        } else if t == 7 {
            Block::WallTopRight
        } else if t == 8 {
            Block::WallBottomLeft
        } else if t == 9 {
            Block::WallBottomRight
        } else {
            return Err(DeserializeError::Invalid);
        };
        Ok((b, 1))
    }

    proof fn lemma_parse_wire(v: Self, rest: Seq<u8>) {
        assert((v.wire() + rest)[0] == block_ordinal(v));
    }

    proof fn lemma_parse_prefix(buf: Seq<u8>, ext: Seq<u8>) {
        if buf.len() >= 1 {
            assert((buf + ext)[0] == buf[0]);
        }
    }
}

/// One visible cell as transmitted to a client: its terrain and position.
#[derive(Clone, Copy, Debug, PartialEq, Eq)]
pub struct MapCell {
    pub block: Block,
    pub coords: Coords,
}

impl MapCell {
    /// Pack a terrain kind and a position into one wire cell.
    pub fn new(block: Block, coords: Coords) -> (c: MapCell)
        ensures
            c == (MapCell { block, coords }),
    {
        MapCell { block, coords }
    }
}

impl DeepView for MapCell {
    type V = MapCell;

    open spec fn deep_view(&self) -> MapCell {
        *self
    }
}

impl Serialize for MapCell {
    open spec fn overflow_leaves_buffer() -> bool {
        false
    }

    open spec fn wf(&self) -> bool {
        true
    }

    open spec fn wire(&self) -> Seq<u8> {
        self.block.wire() + self.coords.wire()
    }

    fn serialize_at(&self, buffer: &mut [u8], pos: usize) -> (r: Result<usize, SerializeError>) {
        let pair = (self.block, self.coords);
        pair.serialize_at(buffer, pos)
    }
}

impl Deserialize for MapCell {
    open spec fn parse(buf: Seq<u8>) -> Option<(MapCell, int)> {
        match <(Block, Coords)>::parse(buf) {
            Some(((block, coords), n)) => Some((MapCell { block, coords }, n)),
            None => None,
        }
    }

    fn deserialize(buf: &[u8]) -> (r: Result<(Self, usize), DeserializeError>) {
        let ((block, coords), n) = <(Block, Coords)>::deserialize(buf)?;
        Ok((MapCell { block, coords }, n))
    }

    proof fn lemma_parse_wire(v: Self, rest: Seq<u8>) {
        <(Block, Coords)>::lemma_parse_wire((v.block, v.coords), rest);
    }

    proof fn lemma_parse_prefix(buf: Seq<u8>, ext: Seq<u8>) {
        <(Block, Coords)>::lemma_parse_prefix(buf, ext);
    }
}

/// The generated world: a rectangle of terrain blocks.
pub struct WorldMap {
    pub height: usize,
    pub width: usize,
    pub coords: Vec<Vec<Block>>,
}

impl WorldMap {
    /// The stored grid matches the declared dimensions, and both fit the
    /// 16-bit coordinate space with room for the exclusive bounds used by
    /// the engine.
    pub open spec fn wf(&self) -> bool {
        &&& self.coords@.len() == self.height
        &&& forall|i: int|
            0 <= i < self.coords@.len() ==> #[trigger] self.coords@[i]@.len() == self.width
        &&& 0 < self.height <= u16::MAX
        &&& 0 < self.width <= u16::MAX
    }

    /// The terrain at a position (by mathematical indices).
    pub open spec fn block_at(&self, row: int, col: int) -> Block {
        self.coords@[row]@[col]
    }
}

} // verus!
