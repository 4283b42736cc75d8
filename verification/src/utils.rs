//! World utilities: the visibility predicate, random placement, and map
//! generation.

use crate::types::{Block, Coords, WorldMap};
use vstd::prelude::*;

verus! {

/// Whether `other` lies within the Euclidean disk of radius `radius` around
/// `center`, boundary included.
pub open spec fn in_disk(center: Coords, radius: u8, other: Coords) -> bool {
    let dx = center.0 as int - other.0 as int;
    let dy = center.1 as int - other.1 as int;
    dx * dx + dy * dy <= (radius as int) * (radius as int)
}

/// Relies on rand's `Rng::gen_range` over `0..bound`: it panics only on an
/// empty range and returns a value contained in the range.
#[verifier::external_body]
fn random_below(bound: usize) -> (r: usize)
    requires
        bound > 0,
    ensures
        r < bound,
{
    rand::Rng::gen_range(&mut rand::thread_rng(), 0..bound)
}

/// A random position inside `[0, max_x) x [0, max_y)`.
pub fn generate_random_coords(max_x: usize, max_y: usize) -> (c: Coords)
    requires
        0 < max_x <= u16::MAX,
        0 < max_y <= u16::MAX,
    ensures
        (c.0 as int) < max_x,
        (c.1 as int) < max_y,
{
    let x = random_below(max_x);
    let y = random_below(max_y);
    (x as u16, y as u16)
}

/// Decide the visibility predicate: exactly `dx^2 + dy^2 <= r^2`.
pub fn is_inside_circle(center: Coords, radius: u8, other: Coords) -> (r: bool)
    ensures
        r == in_disk(center, radius, other),
{
    let (center_x, center_y) = center;
    let (other_x, other_y) = other;
    let dx: i64 = (center_x as i64) - (other_x as i64);
    let dy: i64 = (center_y as i64) - (other_y as i64);
    proof {
        assert(dx * dx <= 0x10000 * 0x10000 && dx * dx >= 0) by (nonlinear_arith)
            requires
                -0x10000 <= dx <= 0x10000,
        ;
        assert(dy * dy <= 0x10000 * 0x10000 && dy * dy >= 0) by (nonlinear_arith)
            requires
                -0x10000 <= dy <= 0x10000,
        ;
    }
    let diff_sqr: i64 = dx * dx + dy * dy;
    let r64: i64 = radius as i64;
    proof {
        assert(r64 * r64 <= 256 * 256 && r64 * r64 >= 0) by (nonlinear_arith)
            requires
                0 <= r64 <= 256,
        ;
    }
    let radius_sqr: i64 = r64 * r64;
    diff_sqr <= radius_sqr
}

/// A freshly generated world: both sides drawn from `[20, 50)`, every cell
/// grass.
pub fn generate_map() -> (m: WorldMap)
    ensures
        m.wf(),
        20 <= m.height < 50,
        20 <= m.width < 50,
        forall|i: int, j: int|
            0 <= i < m.height && 0 <= j < m.width ==> m.block_at(i, j) == Block::Grass,
{
    let height = 20 + random_below(30);
    let width = 20 + random_below(30);
    let mut coords: Vec<Vec<Block>> = Vec::new();
    let mut i: usize = 0;
    while i < height
        invariant
            i <= height,
            20 <= height < 50,
            20 <= width < 50,
            coords@.len() == i,
            forall|r: int| 0 <= r < i ==> (#[trigger] coords@[r])@.len() == width,
            forall|r: int, c: int|
                0 <= r < i && 0 <= c < width ==> coords@[r]@[c] == Block::Grass,
        decreases height - i,
    {
        let mut row: Vec<Block> = Vec::new();
        let mut j: usize = 0;
        while j < width
            invariant
                j <= width,
                row@.len() == j,
                forall|c: int| 0 <= c < j ==> row@[c] == Block::Grass,
            decreases width - j,
        {
            row.push(Block::Grass);
            j = j + 1;
        }
        coords.push(row);
        i = i + 1;
    }
    WorldMap { height, width, coords }
}

} // verus!
