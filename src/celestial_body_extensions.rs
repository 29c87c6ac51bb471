use vstd::prelude::*;

use crate::celestial_body::{CelestialBody, GRID_MAX};

verus! {

/// A displacement or a change of velocity, in grid cells (per step).
#[derive(Clone, Copy, Debug, PartialEq, Eq, Structural)]
pub struct GridVector {
    pub x: i64,
    pub y: i64,
    pub z: i64,
}

/// `v` cut to the range of `i64`.
pub open spec fn saturate(v: int) -> i64 {
    if v > i64::MAX {
        i64::MAX
    } else if v < i64::MIN {
        i64::MIN
    } else {
        v as i64
    }
}

/// `v` cut to the grid: bodies that would leave the domain stay on its
/// boundary.
pub open spec fn clamp_to_grid(v: int) -> u32 {
    if v < 0 {
        0
    } else if v > GRID_MAX {
        GRID_MAX
    } else {
        v as u32
    }
}

/// Componentwise sum, saturating.
pub open spec fn add_vectors(a: GridVector, b: GridVector) -> GridVector {
    GridVector { x: saturate(a.x + b.x), y: saturate(a.y + b.y), z: saturate(a.z + b.z) }
}

/// The body moved by `m`, kept inside the grid; its key is left for the next
/// rebuild.
pub open spec fn moved(c: CelestialBody, m: GridVector) -> CelestialBody {
    CelestialBody {
        x: clamp_to_grid(c.x + m.x),
        y: clamp_to_grid(c.y + m.y),
        z: clamp_to_grid(c.z + m.z),
        ..c
    }
}

fn saturating_add(a: i64, b: i64) -> (r: i64)
    ensures
        r == saturate(a + b),
{
    let s = a as i128 + b as i128;
    if s > i64::MAX as i128 {
        i64::MAX
    } else if s < i64::MIN as i128 {
        i64::MIN
    } else {
        s as i64
    }
}

fn step_coordinate(c: u32, m: i64) -> (r: u32)
    ensures
        r == clamp_to_grid(c + m),
{
    let s = c as i128 + m as i128;
    if s < 0 {
        0
    } else if s > GRID_MAX as i128 {
        GRID_MAX
    } else {
        s as u32
    }
}

impl GridVector {
    /// Componentwise sum, saturating at the range of `i64`.
    pub fn add(&self, other: &GridVector) -> (r: GridVector)
        ensures
            r == add_vectors(*self, *other),
    {
        GridVector {
            x: saturating_add(self.x, other.x),
            y: saturating_add(self.y, other.y),
            z: saturating_add(self.z, other.z),
        }
    }
}

/// Moves a body by `m`, clamped to the grid.
pub fn move_body(body: &mut CelestialBody, m: &GridVector)
    ensures
        *final(body) == moved(*old(body), *m),
{
    body.x = step_coordinate(body.x, m.x);
    body.y = step_coordinate(body.y, m.y);
    body.z = step_coordinate(body.z, m.z);
}

/// The state that one body carries from step to step.
#[derive(Clone, Copy, Debug, PartialEq, Eq, Structural)]
pub struct CelestialBodyForces {
    /// Change of velocity that the last force evaluation gave.
    pub current_force_zero_mass: GridVector,
    /// Velocity, in cells per step.
    pub current_movement: GridVector,
}

impl CelestialBodyForces {
    /// Leapfrog-like step: the velocity takes the change, then the body
    /// moves by the new velocity.
    pub fn update(&mut self, body: &mut CelestialBody)
        ensures
            final(self).current_force_zero_mass == old(self).current_force_zero_mass,
            final(self).current_movement == add_vectors(
                old(self).current_movement,
                old(self).current_force_zero_mass,
            ),
            *final(body) == moved(*old(body), final(self).current_movement),
    {
        self.current_movement = self.current_movement.add(&self.current_force_zero_mass);
        move_body(body, &self.current_movement);
    }
}

} // verus!
