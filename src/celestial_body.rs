use vstd::prelude::*;

verus! {

/// Largest coordinate of a grid cell on each axis.
pub const GRID_MAX: u32 = 0xFFFF_FFFF;

/// A point mass of the simulation.
///
/// `index` is the body's identity: it survives the reordering by key, and
/// state that belongs to the body (its velocity) is looked up by it. The
/// position is a cell of the domain grid; `key` is derived from it.
#[derive(Clone, Copy, Debug)]
pub struct CelestialBody {
    pub index: usize,
    pub mass: u128,
    pub x: u32,
    pub y: u32,
    pub z: u32,
    pub key: u128,
}

/// Square of the distance between two grid cells.
pub open spec fn dist_sq(ax: int, ay: int, az: int, bx: int, by: int, bz: int) -> int {
    (ax - bx) * (ax - bx) + (ay - by) * (ay - by) + (az - bz) * (az - bz)
}

/// Square of a difference of two coordinates.
fn sq_diff(a: u32, b: u32) -> (r: u128)
    ensures
        r == (a - b) * (a - b),
        r <= (GRID_MAX as int) * (GRID_MAX as int),
{
    let d: u128 = if a >= b {
        (a - b) as u128
    } else {
        (b - a) as u128
    };
    assert(d * d <= (GRID_MAX as int) * (GRID_MAX as int)) by (nonlinear_arith)
        requires
            d <= GRID_MAX,
    ;
    assert(d * d == (a - b) * (a - b)) by (nonlinear_arith)
        requires
            d == a - b || d == b - a,
    ;
    d * d
}

/// Square of the distance between two grid cells, in grid units.
pub fn distance_sq(ax: u32, ay: u32, az: u32, bx: u32, by: u32, bz: u32) -> (r: u128)
    ensures
        r == dist_sq(ax as int, ay as int, az as int, bx as int, by as int, bz as int),
{
    sq_diff(ax, bx) + sq_diff(ay, by) + sq_diff(az, bz)
}

impl CelestialBody {
    /// A body with the given identity, mass and cell; its key is not yet set.
    pub fn new(index: usize, mass: u128, x: u32, y: u32, z: u32) -> (r: Self)
        ensures
            r == (CelestialBody { index, mass, x, y, z, key: 0 }),
    {
        CelestialBody { index, mass, x, y, z, key: 0 }
    }

    /// Square of the distance between the cells of two bodies.
    pub fn distance_to_squared(&self, other: &CelestialBody) -> (r: u128)
        ensures
            r == dist_sq(
                self.x as int,
                self.y as int,
                self.z as int,
                other.x as int,
                other.y as int,
                other.z as int,
            ),
    {
        distance_sq(self.x, self.y, self.z, other.x, other.y, other.z)
    }
}

} // verus!
