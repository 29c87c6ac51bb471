use vstd::prelude::*;

use crate::celestial_body::{CelestialBody, GRID_MAX};
use crate::cosmic_system::{
    comparison_factor, factor_of, first_difference, index_of_1, MAX_TOTAL_MASS, NO_SPLIT,
};

verus! {

/// Key given to the body view of a node whose keys differ: no body has it.
pub const NEVER_KEY: u128 = 0xFFFF_FFFF_FFFF_FFFF_FFFF_FFFF_FFFF_FFFF;

/// Aggregate of the bodies under one node of the tree.
///
/// `mass` and the three moments (mass times coordinate) are exact sums over
/// the node's bodies; the center of mass is moment over mass. `first_key`
/// and `last_key` are the keys of its first and last body in key order,
/// `index_of_1` is the bit at which they first differ, and
/// `comparison_factor` the acceptance threshold that follows from it (below
/// zero: never opened). An empty node has mass zero.
#[derive(Clone, Copy, Debug, PartialEq, Eq, Structural)]
pub struct CosmicSystemNode {
    pub mass: u128,
    pub moment_x: u128,
    pub moment_y: u128,
    pub moment_z: u128,
    pub first_key: u128,
    pub last_key: u128,
    pub index_of_1: u8,
    pub comparison_factor: i128,
}

/// The node over no body.
pub open spec fn empty_node() -> CosmicSystemNode {
    CosmicSystemNode {
        mass: 0,
        moment_x: 0,
        moment_y: 0,
        moment_z: 0,
        first_key: 0,
        last_key: 0,
        index_of_1: NO_SPLIT,
        comparison_factor: -1i128,
    }
}

/// What a body adds to a sum: its mass (axis 0) or its mass times its x, y
/// or z coordinate (axes 1 to 3).
pub open spec fn term(c: CelestialBody, axis: int) -> int {
    if axis == 0 {
        c.mass as int
    } else if axis == 1 {
        c.mass * c.x
    } else if axis == 2 {
        c.mass * c.y
    } else {
        c.mass * c.z
    }
}

/// Sum of `term(_, axis)` over the bodies at positions `lo .. hi`.
pub open spec fn range_sum(b: Seq<CelestialBody>, lo: int, hi: int, axis: int) -> int
    decreases hi - lo,
{
    if hi <= lo {
        0
    } else {
        range_sum(b, lo, hi - 1, axis) + term(b[hi - 1], axis)
    }
}

/// The aggregate of the bodies at positions `lo .. hi`.
pub open spec fn range_node(b: Seq<CelestialBody>, lo: int, hi: int) -> CosmicSystemNode {
    if hi <= lo {
        empty_node()
    } else {
        let split = first_difference(b[lo].key, b[hi - 1].key);
        CosmicSystemNode {
            mass: range_sum(b, lo, hi, 0) as u128,
            moment_x: range_sum(b, lo, hi, 1) as u128,
            moment_y: range_sum(b, lo, hi, 2) as u128,
            moment_z: range_sum(b, lo, hi, 3) as u128,
            first_key: b[lo].key,
            last_key: b[hi - 1].key,
            index_of_1: split,
            comparison_factor: factor_of(split) as i128,
        }
    }
}

/// The aggregate of two adjacent groups of bodies, `a` before `b` in key
/// order.
pub open spec fn merged(a: CosmicSystemNode, b: CosmicSystemNode) -> CosmicSystemNode {
    if b.mass == 0 {
        a
    } else if a.mass == 0 {
        b
    } else {
        let split = first_difference(a.first_key, b.last_key);
        CosmicSystemNode {
            mass: (a.mass + b.mass) as u128,
            moment_x: (a.moment_x + b.moment_x) as u128,
            moment_y: (a.moment_y + b.moment_y) as u128,
            moment_z: (a.moment_z + b.moment_z) as u128,
            first_key: a.first_key,
            last_key: b.last_key,
            index_of_1: split,
            comparison_factor: factor_of(split) as i128,
        }
    }
}

/// Every body has a positive mass.
pub open spec fn masses_positive(b: Seq<CelestialBody>) -> bool {
    forall|i: int| 0 <= i < b.len() ==> #[trigger] b[i].mass > 0
}

/// The sums of every range fit: the total mass is at most `MAX_TOTAL_MASS`.
pub open spec fn mass_bounded(b: Seq<CelestialBody>) -> bool {
    range_sum(b, 0, b.len() as int, 0) <= MAX_TOTAL_MASS
}

impl CosmicSystemNode {
    /// The empty node.
    pub fn empty() -> (r: Self)
        ensures
            r == empty_node(),
    {
        CosmicSystemNode {
            mass: 0,
            moment_x: 0,
            moment_y: 0,
            moment_z: 0,
            first_key: 0,
            last_key: 0,
            index_of_1: NO_SPLIT,
            comparison_factor: -1,
        }
    }

    /// The node that holds one body.
    pub fn from_body(c: &CelestialBody) -> (r: Self)
        requires
            c.mass <= MAX_TOTAL_MASS,
        ensures
            r == range_node(seq![*c], 0, 1),
    {
        proof {
            lemma_term_bounds(*c);
            lemma_bounded_moment(c.mass as int);
            assert(term(*c, 1) <= u128::MAX && term(*c, 2) <= u128::MAX && term(*c, 3)
                <= u128::MAX);
            reveal_with_fuel(range_sum, 2);
        }
        let split = index_of_1(c.key, c.key);
        CosmicSystemNode {
            mass: c.mass,
            moment_x: c.mass * c.x as u128,
            moment_y: c.mass * c.y as u128,
            moment_z: c.mass * c.z as u128,
            first_key: c.key,
            last_key: c.key,
            index_of_1: split,
            comparison_factor: comparison_factor(split),
        }
    }

    /// Merges two non-empty aggregates, `a` before `b` in key order: masses
    /// and moments add, and the split depth is that of the outer keys.
    pub fn from_bodies(a: &CosmicSystemNode, b: &CosmicSystemNode) -> (r: Self)
        requires
            a.mass > 0,
            b.mass > 0,
            a.mass + b.mass <= u128::MAX,
            a.moment_x + b.moment_x <= u128::MAX,
            a.moment_y + b.moment_y <= u128::MAX,
            a.moment_z + b.moment_z <= u128::MAX,
        ensures
            r == merged(*a, *b),
    {
        let split = index_of_1(a.first_key, b.last_key);
        CosmicSystemNode {
            mass: a.mass + b.mass,
            moment_x: a.moment_x + b.moment_x,
            moment_y: a.moment_y + b.moment_y,
            moment_z: a.moment_z + b.moment_z,
            first_key: a.first_key,
            last_key: b.last_key,
            index_of_1: split,
            comparison_factor: comparison_factor(split),
        }
    }

    /// The body view of a node: its total mass at its center of mass. The
    /// key is the node's key where all its bodies share one, else
    /// `NEVER_KEY`.
    pub fn body(&self) -> (r: CelestialBody)
        requires
            self.mass > 0,
            self.moment_x <= self.mass * GRID_MAX,
            self.moment_y <= self.mass * GRID_MAX,
            self.moment_z <= self.mass * GRID_MAX,
        ensures
            r.mass == self.mass,
            r.x == self.moment_x / self.mass,
            r.y == self.moment_y / self.mass,
            r.z == self.moment_z / self.mass,
            r.key == if self.index_of_1 == NO_SPLIT {
                self.first_key
            } else {
                NEVER_KEY
            },
            r.index == usize::MAX,
    {
        proof {
            lemma_center_in_grid(self.moment_x, self.mass);
            lemma_center_in_grid(self.moment_y, self.mass);
            lemma_center_in_grid(self.moment_z, self.mass);
        }
        CelestialBody {
            index: usize::MAX,
            mass: self.mass,
            x: (self.moment_x / self.mass) as u32,
            y: (self.moment_y / self.mass) as u32,
            z: (self.moment_z / self.mass) as u32,
            key: if self.index_of_1 == NO_SPLIT {
                self.first_key
            } else {
                NEVER_KEY
            },
        }
    }
}

/// Merges two aggregates of adjacent groups, either of which may be empty.
pub fn combine(a: &CosmicSystemNode, b: &CosmicSystemNode) -> (r: CosmicSystemNode)
    requires
        a.mass + b.mass <= u128::MAX,
        a.moment_x + b.moment_x <= u128::MAX,
        a.moment_y + b.moment_y <= u128::MAX,
        a.moment_z + b.moment_z <= u128::MAX,
    ensures
        r == merged(*a, *b),
{
    if b.mass == 0 {
        *a
    } else if a.mass == 0 {
        *b
    } else {
        CosmicSystemNode::from_bodies(a, b)
    }
}

proof fn lemma_center_in_grid(moment: u128, mass: u128)
    requires
        mass > 0,
        moment <= mass * GRID_MAX,
    ensures
        moment / mass <= GRID_MAX,
{
    assert(moment / mass <= GRID_MAX) by (nonlinear_arith)
        requires
            mass > 0,
            moment <= mass * GRID_MAX,
    ;
}

/// A moment of a mass within the bound fits in 128 bits.
pub proof fn lemma_bounded_moment(mass: int)
    requires
        0 <= mass <= MAX_TOTAL_MASS,
    ensures
        mass * GRID_MAX <= u128::MAX,
{
    assert(mass * GRID_MAX <= u128::MAX) by (nonlinear_arith)
        requires
            0 <= mass <= MAX_TOTAL_MASS,
    ;
}

/// A body's moments are at most its mass times the largest coordinate.
pub proof fn lemma_term_bounds(c: CelestialBody)
    ensures
        forall|axis: int| 0 <= #[trigger] term(c, axis) <= term(c, 0) * GRID_MAX,
{
    assert(c.mass * c.x <= c.mass * GRID_MAX) by (nonlinear_arith)
        requires
            c.x <= GRID_MAX,
    ;
    assert(c.mass * c.y <= c.mass * GRID_MAX) by (nonlinear_arith)
        requires
            c.y <= GRID_MAX,
    ;
    assert(c.mass * c.z <= c.mass * GRID_MAX) by (nonlinear_arith)
        requires
            c.z <= GRID_MAX,
    ;
    assert(c.mass <= c.mass * GRID_MAX) by (nonlinear_arith);
    assert(0 <= c.mass * c.x) by (nonlinear_arith);
    assert(0 <= c.mass * c.y) by (nonlinear_arith);
    assert(0 <= c.mass * c.z) by (nonlinear_arith);
}

/// A range sum splits at any point of the range.
pub proof fn lemma_range_sum_split(b: Seq<CelestialBody>, lo: int, mid: int, hi: int, axis: int)
    requires
        lo <= mid <= hi,
    ensures
        range_sum(b, lo, hi, axis) == range_sum(b, lo, mid, axis) + range_sum(b, mid, hi, axis),
    decreases hi - mid,
{
    if hi > mid {
        lemma_range_sum_split(b, lo, mid, hi - 1, axis);
    }
}

/// Range sums are non-negative, and each moment sum is at most the mass sum
/// times the largest coordinate.
pub proof fn lemma_range_sum_bounds(b: Seq<CelestialBody>, lo: int, hi: int, axis: int)
    requires
        0 <= lo,
        hi <= b.len(),
    ensures
        0 <= range_sum(b, lo, hi, axis) <= range_sum(b, lo, hi, 0) * GRID_MAX,
    decreases hi - lo,
{
    if hi > lo {
        lemma_range_sum_bounds(b, lo, hi - 1, axis);
        lemma_term_bounds(b[hi - 1]);
        assert(term(b[hi - 1], axis) <= term(b[hi - 1], 0) * GRID_MAX);
        assert(range_sum(b, lo, hi, 0) * GRID_MAX == range_sum(b, lo, hi - 1, 0) * GRID_MAX + term(
            b[hi - 1],
            0,
        ) * GRID_MAX) by (nonlinear_arith)
            requires
                range_sum(b, lo, hi, 0) == range_sum(b, lo, hi - 1, 0) + term(b[hi - 1], 0),
        ;
    }
}

/// With positive masses, a range has positive mass exactly when it holds a
/// body.
pub proof fn lemma_range_mass_positive(b: Seq<CelestialBody>, lo: int, hi: int)
    requires
        0 <= lo,
        hi <= b.len(),
        masses_positive(b),
    ensures
        range_sum(b, lo, hi, 0) > 0 <==> lo < hi,
    decreases hi - lo,
{
    if hi > lo {
        lemma_range_sum_bounds(b, lo, hi - 1, 0);
        assert(b[hi - 1].mass > 0);
    }
}

/// Every sum over a range of a bounded body sequence fits in 128 bits.
pub proof fn lemma_range_fits(b: Seq<CelestialBody>, lo: int, hi: int)
    requires
        0 <= lo,
        hi <= b.len(),
        mass_bounded(b),
    ensures
        range_sum(b, lo, hi, 0) <= MAX_TOTAL_MASS,
        forall|axis: int| 0 <= #[trigger] range_sum(b, lo, hi, axis) <= u128::MAX,
{
    let n = b.len() as int;
    if lo < hi {
        lemma_range_sum_split(b, 0, lo, n, 0);
        lemma_range_sum_split(b, lo, hi, n, 0);
        lemma_range_sum_bounds(b, 0, lo, 0);
        lemma_range_sum_bounds(b, hi, n, 0);
    }
    lemma_range_sum_bounds(b, lo, hi, 0);
    lemma_bounded_moment(range_sum(b, lo, hi, 0));
    assert forall|axis: int| 0 <= #[trigger] range_sum(b, lo, hi, axis) <= u128::MAX by {
        lemma_range_sum_bounds(b, lo, hi, axis);
    }
}

/// The aggregate of a range is the merge of the aggregates of its two parts.
pub proof fn lemma_range_merge(b: Seq<CelestialBody>, lo: int, mid: int, hi: int)
    requires
        0 <= lo <= mid <= hi <= b.len(),
        masses_positive(b),
        mass_bounded(b),
    ensures
        range_node(b, lo, hi) == merged(range_node(b, lo, mid), range_node(b, mid, hi)),
        range_node(b, lo, mid).mass + range_node(b, mid, hi).mass <= u128::MAX,
        range_node(b, lo, mid).moment_x + range_node(b, mid, hi).moment_x <= u128::MAX,
        range_node(b, lo, mid).moment_y + range_node(b, mid, hi).moment_y <= u128::MAX,
        range_node(b, lo, mid).moment_z + range_node(b, mid, hi).moment_z <= u128::MAX,
{
    lemma_range_fits(b, lo, hi);
    lemma_range_fits(b, lo, mid);
    lemma_range_fits(b, mid, hi);
    lemma_range_mass_positive(b, lo, mid);
    lemma_range_mass_positive(b, mid, hi);
    lemma_range_sum_split(b, lo, mid, hi, 0);
    lemma_range_sum_split(b, lo, mid, hi, 1);
    lemma_range_sum_split(b, lo, mid, hi, 2);
    lemma_range_sum_split(b, lo, mid, hi, 3);
    assert(range_sum(b, lo, hi, 1) <= u128::MAX);
    assert(range_sum(b, lo, hi, 2) <= u128::MAX);
    assert(range_sum(b, lo, hi, 3) <= u128::MAX);
    assert(range_sum(b, lo, mid, 1) >= 0 && range_sum(b, mid, hi, 1) >= 0);
    assert(range_sum(b, lo, mid, 2) >= 0 && range_sum(b, mid, hi, 2) >= 0);
    assert(range_sum(b, lo, mid, 3) >= 0 && range_sum(b, mid, hi, 3) >= 0);
}

impl Default for CosmicSystemNode {
    /// The empty node.
    fn default() -> (r: Self)
        ensures
            r == empty_node(),
    {
        CosmicSystemNode::empty()
    }
}

} // verus!
