use rayon::slice::ParallelSliceMut;
use vstd::prelude::*;

use crate::celestial_body::{dist_sq, distance_sq, CelestialBody};
use crate::z_order::{morton, z_order_curve};
use crate::node::{
    combine, empty_node, lemma_range_fits, lemma_range_merge, lemma_range_sum_bounds,
    lemma_range_sum_split, mass_bounded, masses_positive, merged, range_node, range_sum,
    CosmicSystemNode,
};

verus! {

/// Side of the domain cube, in grid cells.
pub const DOMAIN_SIDE: u64 = 0x1_0000_0000;

/// `1 / T²`, where `T` is the acceptance angle: a cluster whose width seen
/// from the query is below `T` counts as one point mass. With `T = 1` it is 1.
pub const INV_T_SQUARED: i128 = 1;

/// Split depth of two equal keys: no split separates them.
pub const NO_SPLIT: u8 = 255;

/// Upper bound on the total mass of the bodies of one tree, so that every
/// mass-weighted coordinate sum fits in 128 bits.
pub const MAX_TOTAL_MASS: u128 = 0xFFFF_FFFF_FFFF_FFFF_FFFF_FFFF;

/// Number of significant bits of `v`.
pub open spec fn bit_length(v: u128) -> nat
    decreases v,
{
    if v == 0 {
        0
    } else {
        1 + bit_length(v / 2)
    }
}

proof fn lemma_bit_length_below(v: u128, k: nat)
    requires
        (v as int) < exp2(k),
    ensures
        bit_length(v) <= k,
        v != 0 ==> bit_length(v) >= 1,
    decreases k,
{
    if v != 0 {
        if k == 0 {
            assert(exp2(0) == 1);
        } else {
            assert(exp2(k) == 2 * exp2((k - 1) as nat));
            lemma_bit_length_below(v / 2, (k - 1) as nat);
        }
    }
}

/// A 128-bit value has at most 128 significant bits, and at least one when
/// it is not zero.
pub proof fn lemma_bit_length_bound(v: u128)
    ensures
        bit_length(v) <= 128,
        v != 0 ==> bit_length(v) >= 1,
{
    reveal_with_fuel(exp2, 9);
    assert(exp2(8) == 256);
    lemma_exp2_add(8, 8);
    assert(exp2(16) == 0x1_0000int);
    lemma_exp2_add(16, 16);
    assert(exp2(32) == 0x1_0000_0000int);
    lemma_exp2_add(32, 32);
    assert(exp2(64) == 0x1_0000_0000_0000_0000int);
    lemma_exp2_add(64, 64);
    assert(exp2(128) == 0x1_0000_0000_0000_0000_0000_0000_0000_0000int);
    lemma_bit_length_below(v, 128);
}

/// Keys that differ first differ at a bit below 128.
pub proof fn lemma_first_difference_bound(a: u128, b: u128)
    ensures
        a != b ==> first_difference(a, b) < 128,
{
    if a != b {
        lemma_bit_length_bound(a ^ b);
        assert(a ^ b != 0) by (bit_vector)
            requires
                a != b,
        ;
    }
}

/// Number of significant bits of `v`.
fn significant_bits(v: u128) -> (r: u32)
    ensures
        r == bit_length(v),
        r <= 128,
{
    let mut rest = v;
    let mut n: u32 = 0;
    proof {
        lemma_bit_length_bound(v);
    }
    while rest != 0
        invariant
            n + bit_length(rest) == bit_length(v),
            bit_length(v) <= 128,
        decreases rest,
    {
        rest = rest / 2;
        n = n + 1;
    }
    n
}

/// Number of leading bits on which `a` and `b` agree, or `NO_SPLIT` when they
/// are equal.
pub open spec fn first_difference(a: u128, b: u128) -> u8 {
    if a == b {
        NO_SPLIT
    } else {
        (128 - bit_length(a ^ b)) as u8
    }
}

/// Index of the bit where two keys first differ, counted from the most
/// significant bit; `NO_SPLIT` for equal keys.
pub fn index_of_1(a: u128, b: u128) -> (r: u8)
    ensures
        r == first_difference(a, b),
        a != b ==> r < 128,
{
    let x = a ^ b;
    let lz = 128 - significant_bits(x);
    if lz < 128 {
        proof {
            assert(a != b) by {
                if a == b {
                    assert(a ^ a == 0) by (bit_vector);
                    assert(bit_length(0) == 0);
                }
            }
        }
        lz as u8
    } else {
        proof {
            assert(x == 0) by {
                if x != 0 {
                    assert(bit_length(x) == 1 + bit_length(x / 2));
                }
            }
            assert(a == b) by (bit_vector)
                requires
                    x == a ^ b,
                    x == 0,
            ;
        }
        NO_SPLIT
    }
}

/// Takes the octant of the top octree level off a key: the key's top three
/// bits are the octant, and the key moves up by one level.
pub fn get_octant(z_order: &mut u128) -> (r: usize)
    ensures
        r as u128 == *old(z_order) >> 125,
        r < 8,
        *final(z_order) == *old(z_order) << 3,
{
    let v = *z_order;
    let octant = v >> 125;
    assert(octant < 8) by (bit_vector)
        requires
            octant == v >> 125,
    ;
    *z_order = v << 3;
    octant as usize
}

/// Side of the octree cell `number_of_splits / 3` halvings below the domain,
/// in grid cells; zero below the size of one cell.
pub open spec fn side_of(number_of_splits: u8) -> u64 {
    if number_of_splits / 3 > 32 {
        0
    } else {
        DOMAIN_SIDE >> ((number_of_splits / 3) as u64)
    }
}

/// No cell is wider than the domain.
pub proof fn lemma_side_bound(number_of_splits: u8)
    ensures
        side_of(number_of_splits) <= DOMAIN_SIDE,
{
    if number_of_splits / 3 <= 32 {
        let l = (number_of_splits / 3) as u64;
        assert(DOMAIN_SIDE >> l <= DOMAIN_SIDE) by (bit_vector);
    }
}

/// Side of the smallest cell that holds two keys agreeing on their first
/// `number_of_splits` bits.
pub fn side_length(number_of_splits: u8) -> (r: u64)
    ensures
        r == side_of(number_of_splits),
        r <= DOMAIN_SIDE,
{
    let number_of_cube_splits = number_of_splits / 3;
    if number_of_cube_splits > 32 {
        0
    } else {
        let r = DOMAIN_SIDE >> (number_of_cube_splits as u64);
        assert(r <= DOMAIN_SIDE) by (bit_vector)
            requires
                r == DOMAIN_SIDE >> (number_of_cube_splits as u64),
        ;
        r
    }
}

/// The acceptance threshold of a node whose keys agree on their first
/// `number_of_splits` bits: its squared width over `T²`, or -1 when no split
/// separates its bodies, so that it is never opened.
pub open spec fn factor_of(number_of_splits: u8) -> int {
    if number_of_splits == NO_SPLIT {
        -1
    } else {
        side_of(number_of_splits) * side_of(number_of_splits) * INV_T_SQUARED
    }
}

/// Comparison factor for the Barnes–Hut acceptance test.
pub fn comparison_factor(number_of_splits: u8) -> (r: i128)
    ensures
        r == factor_of(number_of_splits),
{
    if number_of_splits == NO_SPLIT {
        return -1;
    }
    let side = side_length(number_of_splits) as i128;
    assert(side * side <= 0x1_0000_0000i128 * 0x1_0000_0000i128) by (nonlinear_arith)
        requires
            0 <= side <= 0x1_0000_0000i128,
    ;
    side * side * INV_T_SQUARED
}

/// `2^e`.
pub open spec fn exp2(e: nat) -> nat
    decreases e,
{
    if e == 0 {
        1
    } else {
        2 * exp2((e - 1) as nat)
    }
}

/// Powers of two grow with their exponent.
pub proof fn lemma_exp2_monotone(a: nat, b: nat)
    requires
        a <= b,
    ensures
        1 <= exp2(a) <= exp2(b),
        a < b ==> 2 * exp2(a) <= exp2(b),
    decreases b,
{
    if a < b {
        lemma_exp2_monotone(a, (b - 1) as nat);
    } else {
        lemma_exp2_positive(a);
    }
}

proof fn lemma_exp2_positive(a: nat)
    ensures
        exp2(a) >= 1,
    decreases a,
{
    if a > 0 {
        lemma_exp2_positive((a - 1) as nat);
    }
}

/// Flat index of the `i`-th node of level `t`; the root is at index 1.
pub open spec fn node_index(t: nat, i: int) -> int {
    exp2(t) + i
}

/// First body slot under the `i`-th node of level `t` in a tree of depth `d`.
pub open spec fn slot_lo(d: nat, t: nat, i: int) -> int {
    i * exp2((d - t) as nat)
}

/// End of the body slots under that node, cut at the number of bodies `n`.
pub open spec fn slot_hi(d: nat, t: nat, i: int, n: int) -> int {
    let hi = (i + 1) * exp2((d - t) as nat);
    if hi < n {
        hi
    } else {
        n
    }
}

/// What the `i`-th node of level `t` holds: the aggregate of its bodies.
pub open spec fn subtree(b: Seq<CelestialBody>, d: nat, t: nat, i: int) -> CosmicSystemNode {
    range_node(b, slot_lo(d, t, i), slot_hi(d, t, i, b.len() as int))
}

/// `nodes` is the tree of depth `d` built over the bodies `b`, in key order:
/// node `k` has its children at `2k` and `2k + 1`, the body slots `j` stand
/// below the last level as leaves `2^d + j`, and every node holds the
/// aggregate of the bodies below it.
pub open spec fn tree_ok(nodes: Seq<CosmicSystemNode>, b: Seq<CelestialBody>, d: nat) -> bool {
    &&& nodes.len() == exp2(d)
    &&& b.len() <= exp2(d)
    &&& nodes[0] == empty_node()
    &&& forall|t: nat, i: int|
        t < d && 0 <= i < exp2(t) ==> #[trigger] nodes[node_index(t, i)] == subtree(b, d, t, i)
}

/// The node that a child position holds during the build: a body leaf below
/// the last level, else the node already built there.
fn child_node(
    nodes: &Vec<CosmicSystemNode>,
    bodies: &Vec<CelestialBody>,
    leaf_level: bool,
    c: usize,
) -> (r: CosmicSystemNode)
    requires
        c < nodes.len(),
        bodies.len() <= nodes.len(),
        mass_bounded(bodies@),
        masses_positive(bodies@),
    ensures
        leaf_level ==> r == range_node(
            bodies@,
            c as int,
            if (c as int) < bodies.len() {
                c + 1
            } else {
                c as int
            },
        ),
        !leaf_level ==> r == nodes@[c as int],
{
    if leaf_level {
        if c < bodies.len() {
            proof {
                crate::node::lemma_range_fits(bodies@, c as int, c + 1);
                reveal_with_fuel(crate::node::range_sum, 2);
                assert(seq![bodies@[c as int]][0] == bodies@[c as int]);
                assert forall|axis: int|
                    crate::node::range_sum(seq![bodies@[c as int]], 0, 1, axis)
                        == #[trigger] crate::node::range_sum(bodies@, c as int, c + 1, axis) by {
                    reveal_with_fuel(crate::node::range_sum, 2);
                }
            }
            CosmicSystemNode::from_body(&bodies[c])
        } else {
            CosmicSystemNode::empty()
        }
    } else {
        nodes[c]
    }
}

/// Below the last level each slot holds one body, or none past the end.
proof fn lemma_leaf_slots(d: nat, j: int, n: int)
    ensures
        slot_lo(d, d, j) == j,
        slot_hi(d, d, j, n) == if j + 1 < n {
            j + 1
        } else {
            n
        },
{
    assert(exp2(0) == 1);
    assert((d - d) as nat == 0);
}

/// The slots of a node's two children split the node's slots at
/// `lo + 2^(d-t-1)`, cut at `n`.
proof fn lemma_child_slots(d: nat, t: nat, i: int, n: int)
    requires
        t < d,
        0 <= i,
        0 <= n,
    ensures
        slot_lo(d, t + 1, 2 * i) == slot_lo(d, t, i),
        slot_lo(d, t + 1, 2 * i + 1) == slot_lo(d, t, i) + exp2((d - (t + 1)) as nat),
        slot_hi(d, t + 1, 2 * i + 1, n) == slot_hi(d, t, i, n),
        slot_hi(d, t + 1, 2 * i, n) == if slot_lo(d, t, i) + exp2((d - (t + 1)) as nat) < n {
            slot_lo(d, t, i) + exp2((d - (t + 1)) as nat)
        } else {
            n
        },
        exp2((d - t) as nat) == 2 * exp2((d - (t + 1)) as nat),
        slot_lo(d, t, i) >= 0,
        slot_hi(d, t, i, n) == if slot_lo(d, t, i) + exp2((d - t) as nat) < n {
            slot_lo(d, t, i) + exp2((d - t) as nat)
        } else {
            n
        },
{
    let w = exp2((d - t) as nat);
    let wh = exp2((d - (t + 1)) as nat);
    assert(w == 2 * wh);
    let lo = i * w;
    assert((2 * i) * wh == lo && (2 * i + 1) * wh == lo + wh && (2 * i + 2) * wh == (i + 1) * w
        && (i + 1) * w == lo + w) by (nonlinear_arith)
        requires
            w == 2 * wh,
            lo == i * w,
    ;
    lemma_exp2_positive((d - t) as nat);
    assert(lo >= 0) by (nonlinear_arith)
        requires
            i >= 0,
            w >= 0,
            lo == i * w,
    ;
}

/// `2^(a + b) = 2^a * 2^b`.
pub proof fn lemma_exp2_add(a: nat, b: nat)
    ensures
        exp2(a + b) == exp2(a) * exp2(b),
    decreases b,
{
    if b > 0 {
        lemma_exp2_add(a, (b - 1) as nat);
        assert((a + b - 1) as nat == a + ((b - 1) as nat));
        assert(exp2(a + b) == 2 * exp2((a + b - 1) as nat));
        assert(exp2(a) * exp2(b) == 2 * (exp2(a) * exp2((b - 1) as nat))) by (nonlinear_arith)
            requires
                exp2(b) == 2 * exp2((b - 1) as nat),
        ;
    } else {
        assert(exp2(0) == 1);
        assert(a + b == a);
    }
}

/// A node holds the merge of what its two children hold.
proof fn lemma_children(b: Seq<CelestialBody>, d: nat, t: nat, i: int)
    requires
        t < d,
        0 <= i < exp2(t),
        b.len() <= exp2(d),
        masses_positive(b),
        mass_bounded(b),
    ensures
        subtree(b, d, t, i) == merged(
            subtree(b, d, t + 1, 2 * i),
            subtree(b, d, t + 1, 2 * i + 1),
        ),
        subtree(b, d, t + 1, 2 * i).mass + subtree(b, d, t + 1, 2 * i + 1).mass <= u128::MAX,
        subtree(b, d, t + 1, 2 * i).moment_x + subtree(b, d, t + 1, 2 * i + 1).moment_x
            <= u128::MAX,
        subtree(b, d, t + 1, 2 * i).moment_y + subtree(b, d, t + 1, 2 * i + 1).moment_y
            <= u128::MAX,
        subtree(b, d, t + 1, 2 * i).moment_z + subtree(b, d, t + 1, 2 * i + 1).moment_z
            <= u128::MAX,
{
    let n = b.len() as int;
    let w = exp2((d - t) as nat);
    let wh = exp2((d - (t + 1)) as nat);
    assert(w == 2 * wh);
    lemma_exp2_positive((d - (t + 1)) as nat);
    let lo = i * w;
    assert(slot_lo(d, t + 1, 2 * i) == lo) by (nonlinear_arith)
        requires
            w == 2 * wh,
            lo == i * w,
            slot_lo(d, t + 1, 2 * i) == (2 * i) * wh,
    ;
    assert(slot_lo(d, t + 1, 2 * i + 1) == lo + wh) by (nonlinear_arith)
        requires
            w == 2 * wh,
            lo == i * w,
            slot_lo(d, t + 1, 2 * i + 1) == (2 * i + 1) * wh,
    ;
    assert((2 * i + 1) * wh == lo + wh && (2 * i + 2) * wh == (i + 1) * w && (i + 1) * w == lo
        + w) by (nonlinear_arith)
        requires
            w == 2 * wh,
            lo == i * w,
    ;
    assert(lo >= 0) by (nonlinear_arith)
        requires
            i >= 0,
            w >= 0,
            lo == i * w,
    ;
    let hi = if lo + w < n {
        lo + w
    } else {
        n
    };
    let mid = if lo + wh < n {
        lo + wh
    } else {
        n
    };
    assert(subtree(b, d, t, i) == range_node(b, lo, hi));
    assert(subtree(b, d, t + 1, 2 * i) == range_node(b, lo, mid));
    assert(subtree(b, d, t + 1, 2 * i + 1) == range_node(b, lo + wh, hi));
    if lo >= n {
        assert(range_node(b, lo, hi) == empty_node());
        assert(range_node(b, lo, mid) == empty_node());
        assert(range_node(b, lo + wh, hi) == empty_node());
    } else if lo + wh >= n {
        assert(range_node(b, lo + wh, hi) == empty_node());
        assert(range_node(b, n, n) == empty_node());
        lemma_range_merge(b, lo, n, n);
    } else {
        lemma_range_merge(b, lo, mid, hi);
    }
}

/// Why the tree could not be built.
#[derive(Clone, Copy, Debug, PartialEq, Eq, Structural)]
pub enum BuildError {
    /// A body has mass zero: merging it would give no center of mass.
    NonPositiveMass,
    /// The total mass exceeds `MAX_TOTAL_MASS`.
    MassOverflow,
}

/// `p` shows `s` to be `t` stably sorted by key: `s[i]` is `t[p[i]]`, `p` is
/// one to one, keys do not decrease along `s`, and bodies with equal keys
/// keep their order in `t`.
pub open spec fn is_sort_witness(p: Seq<int>, s: Seq<CelestialBody>, t: Seq<CelestialBody>) -> bool {
    &&& p.len() == s.len() == t.len()
    &&& forall|i: int| 0 <= i < s.len() ==> 0 <= #[trigger] p[i] < t.len() && s[i] == t[p[i]]
    &&& forall|i: int, j: int| 0 <= i < j < s.len() ==> #[trigger] p[i] != #[trigger] p[j]
    &&& forall|i: int, j: int| 0 <= i < j < s.len() ==> #[trigger] s[i].key <= #[trigger] s[j].key
    &&& forall|i: int, j: int|
        0 <= i < j < s.len() && #[trigger] s[i].key == #[trigger] s[j].key ==> p[i] < p[j]
}

/// `s` is `t` stably sorted by key.
pub open spec fn is_stable_sort_of(s: Seq<CelestialBody>, t: Seq<CelestialBody>) -> bool {
    exists|p: Seq<int>| is_sort_witness(p, s, t)
}

/// Relies on rayon's `par_sort_by_key`: a stable sort of the slice by the
/// extracted key, ascending.
#[verifier::external_body]
fn sort_by_key(bodies: &mut Vec<CelestialBody>)
    ensures
        is_stable_sort_of(final(bodies)@, old(bodies)@),
{
    bodies.par_sort_by_key(|c| c.key);
}

/// `c` is a power of two, the least one that is at least `n` and 1.
pub open spec fn is_next_power_of_two(c: nat, n: nat) -> bool {
    exists|d: nat| c == #[trigger] exp2(d) && c >= n && (d == 0 || exp2((d - 1) as nat) < n)
}

/// `p` shows `s` to be `t` with keys set from the cells and stably sorted by
/// key.
pub open spec fn is_keyed_sort_witness(
    p: Seq<int>,
    s: Seq<CelestialBody>,
    t: Seq<CelestialBody>,
) -> bool {
    &&& p.len() == s.len() == t.len()
    &&& forall|i: int|
        0 <= i < s.len() ==> 0 <= #[trigger] p[i] < t.len() && unkeyed(s[i]) == unkeyed(t[p[i]])
            && s[i].key == morton(s[i].x, s[i].y, s[i].z)
    &&& forall|i: int, j: int| 0 <= i < j < s.len() ==> #[trigger] p[i] != #[trigger] p[j]
    &&& forall|i: int, j: int| 0 <= i < j < s.len() ==> #[trigger] s[i].key <= #[trigger] s[j].key
    &&& forall|i: int, j: int|
        0 <= i < j < s.len() && #[trigger] s[i].key == #[trigger] s[j].key ==> p[i] < p[j]
}

/// `s` holds the bodies of `t`, each once, with keys set from their cells
/// and in stable key order.
pub open spec fn is_keyed_sort_of(s: Seq<CelestialBody>, t: Seq<CelestialBody>) -> bool {
    exists|p: Seq<int>| is_keyed_sort_witness(p, s, t)
}

/// Keys do not decrease along `b`.
pub open spec fn keys_sorted(b: Seq<CelestialBody>) -> bool {
    forall|i: int, j: int| 0 <= i < j < b.len() ==> #[trigger] b[i].key <= #[trigger] b[j].key
}

/// `2^e` determines `e`.
pub proof fn lemma_exp2_injective(a: nat, b: nat)
    requires
        exp2(a) == exp2(b),
    ensures
        a == b,
{
    if a < b {
        lemma_exp2_monotone(a, b);
        lemma_exp2_positive(a);
    } else if b < a {
        lemma_exp2_monotone(b, a);
        lemma_exp2_positive(b);
    }
}

/// A body with its key left out.
pub open spec fn unkeyed(c: CelestialBody) -> CelestialBody {
    CelestialBody { key: 0, ..c }
}

/// Checks that every mass is positive and that the total fits the bound.
fn check_masses(bodies: &Vec<CelestialBody>) -> (r: Result<(), BuildError>)
    ensures
        r == Ok::<(), BuildError>(()) <==> masses_positive(bodies@) && mass_bounded(bodies@),
        r == Err::<(), BuildError>(BuildError::NonPositiveMass) <==> !masses_positive(bodies@),
        r == Err::<(), BuildError>(BuildError::MassOverflow) <==> masses_positive(bodies@)
            && !mass_bounded(bodies@),
{
    let n = bodies.len();
    let mut i: usize = 0;
    while i < n
        invariant
            n == bodies.len(),
            i <= n,
            forall|j: int| 0 <= j < i ==> #[trigger] bodies@[j].mass > 0,
        decreases n - i,
    {
        if bodies[i].mass == 0 {
            return Err(BuildError::NonPositiveMass);
        }
        i = i + 1;
    }
    let mut total: u128 = 0;
    let mut i: usize = 0;
    while i < n
        invariant
            n == bodies.len(),
            i <= n,
            masses_positive(bodies@),
            total == range_sum(bodies@, 0, i as int, 0),
            total <= MAX_TOTAL_MASS,
        decreases n - i,
    {
        let m = bodies[i].mass;
        if m > MAX_TOTAL_MASS - total {
            proof {
                lemma_range_sum_split(bodies@, 0, i + 1, n as int, 0);
                lemma_range_sum_bounds(bodies@, i + 1, n as int, 0);
            }
            return Err(BuildError::MassOverflow);
        }
        total = total + m;
        i = i + 1;
    }
    Ok(())
}

/// Sets the key of every body from its cell.
fn set_keys(bodies: &mut Vec<CelestialBody>)
    ensures
        final(bodies)@.len() == old(bodies)@.len(),
        forall|j: int|
            0 <= j < old(bodies)@.len() ==> unkeyed(#[trigger] final(bodies)@[j]) == unkeyed(
                old(bodies)@[j],
            ),
        forall|j: int|
            0 <= j < old(bodies)@.len() ==> #[trigger] final(bodies)@[j].key == morton(
                final(bodies)@[j].x,
                final(bodies)@[j].y,
                final(bodies)@[j].z,
            ),
{
    let n = bodies.len();
    let mut i: usize = 0;
    while i < n
        invariant
            n == bodies.len(),
            n == old(bodies)@.len(),
            i <= n,
            forall|j: int| 0 <= j < n ==> unkeyed(#[trigger] bodies@[j]) == unkeyed(old(bodies)@[j]),
            forall|j: int|
                0 <= j < i ==> #[trigger] bodies@[j].key == morton(
                    bodies@[j].x,
                    bodies@[j].y,
                    bodies@[j].z,
                ),
        decreases n - i,
    {
        let c = bodies[i];
        let key = z_order_curve(c.x, c.y, c.z);
        bodies.set(i, CelestialBody { key, ..c });
        i = i + 1;
    }
}

/// Least power of two that is at least `n` (and at least 1), with its
/// exponent.
fn next_power_of_two(n: usize) -> (r: (usize, Ghost<nat>))
    requires
        n <= usize::MAX / 2 + 1,
    ensures
        r.0 == exp2(r.1@),
        r.0 >= n,
        r.1@ == 0 || exp2((r.1@ - 1) as nat) < n,
{
    let mut p: usize = 1;
    let ghost mut e: nat = 0;
    while p < n
        invariant
            p == exp2(e),
            p >= 1,
            n <= usize::MAX / 2 + 1,
            e == 0 || exp2((e - 1) as nat) < n,
        decreases usize::MAX - p,
    {
        p = p * 2;
        proof {
            e = e + 1;
        }
    }
    (p, Ghost(e))
}

/// All nodes of a tree of `2^d` empty nodes hold the aggregate of no body.
proof fn lemma_empty_tree(nodes: Seq<CosmicSystemNode>, d: nat)
    requires
        nodes.len() == exp2(d),
        forall|k: int| 0 <= k < nodes.len() ==> #[trigger] nodes[k] == empty_node(),
    ensures
        tree_ok(nodes, Seq::<CelestialBody>::empty(), d),
{
    lemma_exp2_positive(d);
    assert forall|t: nat, i: int| t < d && 0 <= i < exp2(t) implies #[trigger] nodes[node_index(
        t,
        i,
    )] == subtree(Seq::<CelestialBody>::empty(), d, t, i) by {
        lemma_exp2_monotone(t + 1, d);
        lemma_exp2_positive((d - t) as nat);
        assert(exp2(t + 1) == 2 * exp2(t));
        assert(i * exp2((d - t) as nat) >= 0) by (nonlinear_arith)
            requires
                i >= 0,
        ;
    }
}

/// A vector of `len` empty nodes.
fn empty_nodes(len: usize) -> (r: Vec<CosmicSystemNode>)
    ensures
        r@.len() == len,
        forall|k: int| 0 <= k < len ==> #[trigger] r@[k] == empty_node(),
{
    let mut nodes: Vec<CosmicSystemNode> = Vec::new();
    let mut i: usize = 0;
    while i < len
        invariant
            i <= len,
            nodes@.len() == i,
            forall|k: int| 0 <= k < i ==> #[trigger] nodes@[k] == empty_node(),
        decreases len - i,
    {
        nodes.push(CosmicSystemNode::empty());
        i = i + 1;
    }
    nodes
}

/// The Barnes–Hut aggregation tree: an implicit binary tree stored flat in a
/// `Vec`, rebuilt over the bodies in key order at every step.
pub struct CosmicSystem {
    /// Nodes of the implicit binary tree; the root is at index 1, index 0 is
    /// unused, and the length is a power of two.
    nodes: Vec<CosmicSystemNode>,
    /// Depth of the tree: the number of nodes is `2^depth`.
    depth: Ghost<nat>,
}

impl CosmicSystem {
    /// The tree's nodes.
    pub closed spec fn nodes_view(&self) -> Seq<CosmicSystemNode> {
        self.nodes@
    }

    /// The tree's depth.
    pub closed spec fn depth_view(&self) -> nat {
        self.depth@
    }

    /// Number of nodes, which is also the number of bodies the tree can hold.
    pub closed spec fn capacity_view(&self) -> nat {
        self.nodes@.len()
    }

    /// The tree's storage is well formed: `2^depth` nodes, node 0 empty.
    pub closed spec fn wf(&self) -> bool {
        self.nodes@.len() == exp2(self.depth@) && self.nodes@[0] == empty_node()
    }

    /// The tree was built over the bodies `b`, which have positive masses
    /// within the bound.
    pub closed spec fn built_from(&self, b: Seq<CelestialBody>) -> bool {
        &&& tree_ok(self.nodes@, b, self.depth@)
        &&& masses_positive(b)
        &&& mass_bounded(b)
    }

    /// What a well-formed tree is: `2^depth` nodes, as many as its capacity,
    /// node 0 empty.
    pub proof fn lemma_wf(&self)
        requires
            self.wf(),
        ensures
            self.nodes_view().len() == self.capacity_view(),
            self.capacity_view() == exp2(self.depth_view()),
            self.nodes_view()[0] == empty_node(),
    {
    }

    /// What a tree built over `b` holds: every node the aggregate of the
    /// bodies below it (`tree_ok`), over bodies of positive masses within the
    /// bound.
    pub proof fn lemma_built(&self, b: Seq<CelestialBody>)
        requires
            self.built_from(b),
        ensures
            tree_ok(self.nodes_view(), b, self.depth_view()),
            self.capacity_view() == exp2(self.depth_view()),
            masses_positive(b),
            mass_bounded(b),
    {
    }

    /// A tree for at least `capacity` bodies, with no body in it.
    pub fn new(capacity: usize) -> (r: Self)
        requires
            capacity <= usize::MAX / 2 + 1,
        ensures
            r.wf(),
            r.built_from(Seq::<CelestialBody>::empty()),
            is_next_power_of_two(r.capacity_view(), capacity as nat),
            r.nodes_view().len() == r.capacity_view(),
            forall|k: int| 0 <= k < r.capacity_view() ==> #[trigger] r.nodes_view()[k] == empty_node(),
    {
        let (cap, d) = next_power_of_two(capacity);
        let nodes = empty_nodes(cap);
        proof {
            lemma_exp2_positive(d@);
            lemma_empty_tree(nodes@, d@);
        }
        CosmicSystem { nodes, depth: d }
    }

    /// Number of nodes, which is also the number of bodies the tree holds
    /// without growing.
    pub fn capacity(&self) -> (r: usize)
        ensures
            r == self.capacity_view(),
    {
        self.nodes.len()
    }

    /// The node at flat index `k`; the root is at index 1.
    pub fn node(&self, k: usize) -> (r: CosmicSystemNode)
        requires
            k < self.capacity_view(),
        ensures
            r == self.nodes_view()[k as int],
    {
        self.nodes[k]
    }

    /// Recomputes every body's key, sorts the bodies by key (stably) and
    /// rebuilds the tree over them, growing its storage to the next power of
    /// two when the bodies outnumber it.
    ///
    /// With capacity 1 there is no internal node: the one body slot is the
    /// root, and the tree holds nothing else.
    ///
    /// Fails, leaving the tree as it was, when a body has mass zero or the
    /// total mass exceeds `MAX_TOTAL_MASS`; the bodies are keyed and sorted
    /// either way.
    pub fn set_all(&mut self, bodies: &mut Vec<CelestialBody>) -> (r: Result<(), BuildError>)
        requires
            old(self).wf(),
            old(bodies)@.len() <= usize::MAX / 2 + 1,
        ensures
            is_keyed_sort_of(final(bodies)@, old(bodies)@),
            keys_sorted(final(bodies)@),
            r == Ok::<(), BuildError>(()) <==> masses_positive(final(bodies)@) && mass_bounded(
                final(bodies)@,
            ),
            r == Err::<(), BuildError>(BuildError::NonPositiveMass) <==> !masses_positive(
                final(bodies)@,
            ),
            r == Err::<(), BuildError>(BuildError::MassOverflow) <==> masses_positive(
                final(bodies)@,
            ) && !mass_bounded(final(bodies)@),
            final(self).wf(),
            r is Ok ==> final(self).built_from(final(bodies)@),
            r is Ok && old(bodies)@.len() <= old(self).capacity_view() ==> final(self).capacity_view()
                == old(self).capacity_view(),
            r is Ok && old(bodies)@.len() > old(self).capacity_view() ==> is_next_power_of_two(
                final(self).capacity_view(),
                old(bodies)@.len(),
            ),
            r is Ok && final(self).capacity_view() >= 2 ==> final(self).nodes_view()[1].mass
                == range_sum(final(bodies)@, 0, final(bodies)@.len() as int, 0),
            r is Err ==> final(self).capacity_view() == old(self).capacity_view(),
            r is Err ==> final(self).nodes_view() == old(self).nodes_view()
                && final(self).depth_view() == old(self).depth_view(),
    {
        let ghost given = bodies@;
        set_keys(bodies);
        let ghost keyed = bodies@;
        sort_by_key(bodies);
        proof {
            let p = choose|p: Seq<int>| is_sort_witness(p, bodies@, keyed);
            assert(is_keyed_sort_witness(p, bodies@, given)) by {
                assert forall|i: int| 0 <= i < bodies@.len() implies 0 <= #[trigger] p[i]
                    < given.len() && unkeyed(bodies@[i]) == unkeyed(given[p[i]])
                    && bodies@[i].key == morton(bodies@[i].x, bodies@[i].y, bodies@[i].z) by {
                    assert(bodies@[i] == keyed[p[i]]);
                    assert(unkeyed(keyed[p[i]]) == unkeyed(given[p[i]]));
                }
            }
        }
        proof {
            let p = choose|p: Seq<int>| is_keyed_sort_witness(p, bodies@, given);
            assert(keys_sorted(bodies@));
        }
        let checked = check_masses(bodies);
        if checked.is_err() {
            return checked;
        }
        let n = bodies.len();
        if n > self.nodes.len() {
            let (cap, d) = next_power_of_two(n);
            proof {
                lemma_exp2_positive(d@);
            }
            self.nodes = empty_nodes(cap);
            self.depth = d;
        }
        self.build(bodies);
        proof {
            if self.nodes@.len() >= 2 && self.depth@ == 0 {
                assert(exp2(0) == 1);
            }
            if self.depth@ >= 1 {
                crate::theorems::lemma_mass_conservation(self.nodes@, bodies@, self.depth@);
            }
        }
        Ok(())
    }

    /// Fills the nodes bottom-up, one level at a time, from the bodies in
    /// key order.
    fn build(&mut self, bodies: &Vec<CelestialBody>)
        requires
            old(self).wf(),
            bodies.len() <= old(self).nodes@.len(),
            masses_positive(bodies@),
            mass_bounded(bodies@),
        ensures
            final(self).depth@ == old(self).depth@,
            tree_ok(final(self).nodes@, bodies@, final(self).depth@),
    {
        let cap = self.nodes.len();
        let ghost d = self.depth@;
        let mut k: usize = cap / 2;
        let ghost mut t: int = d - 1;
        proof {
            if d > 0 {
                assert(exp2(d) == 2 * exp2((d - 1) as nat));
                lemma_exp2_positive((d - 1) as nat);
            }
        }
        while k > 0
            invariant
                self.nodes@.len() == cap,
                cap == exp2(d),
                self.depth@ == d,
                self.nodes@[0] == empty_node(),
                bodies.len() <= cap,
                masses_positive(bodies@),
                mass_bounded(bodies@),
                k > 0 ==> 0 <= t < d && k == exp2(t as nat),
                k == 0 ==> t == -1,
                forall|t2: nat, i: int|
                    t < t2 < d && 0 <= i < exp2(t2) ==> #[trigger] self.nodes@[node_index(t2, i)]
                        == subtree(bodies@, d, t2, i),
            decreases k,
        {
            let ghost tl = t as nat;
            let leaf_level = k == cap / 2;
            proof {
                lemma_exp2_monotone(tl + 1, d);
                if tl + 1 < d {
                    lemma_exp2_monotone(tl + 2, d);
                    assert(exp2(tl + 2) == 2 * exp2(tl + 1));
                }
            }
            let mut i: usize = 0;
            while i < k
                invariant
                    self.nodes@.len() == cap,
                    cap == exp2(d),
                    self.depth@ == d,
                    self.nodes@[0] == empty_node(),
                    bodies.len() <= cap,
                    masses_positive(bodies@),
                    mass_bounded(bodies@),
                    0 <= t < d,
                    tl == t,
                    k == exp2(tl),
                    2 * k <= cap,
                    leaf_level <==> tl + 1 == d,
                    !leaf_level ==> 4 * k <= cap,
                    i <= k,
                    forall|t2: nat, i2: int|
                        t < t2 < d && 0 <= i2 < exp2(t2) ==> #[trigger] self.nodes@[node_index(
                            t2,
                            i2,
                        )] == subtree(bodies@, d, t2, i2),
                    forall|i2: int|
                        0 <= i2 < i ==> #[trigger] self.nodes@[node_index(tl, i2)] == subtree(
                            bodies@,
                            d,
                            tl,
                            i2,
                        ),
                decreases k - i,
            {
                proof {
                    lemma_children(bodies@, d, tl, i as int);
                    assert(exp2(tl + 1) == 2 * k);
                }
                let left;
                let right;
                if leaf_level {
                    left = child_node(&self.nodes, bodies, true, 2 * i);
                    right = child_node(&self.nodes, bodies, true, 2 * i + 1);
                    proof {
                        assert(exp2((d - (tl + 1)) as nat) == 1);
                        let n = bodies.len() as int;
                        let c0 = 2 * i as int;
                        let tc: nat = tl + 1;
                        lemma_leaf_slots(d, c0, n);
                        lemma_leaf_slots(d, c0 + 1, n);
                        assert(slot_lo(d, tc, c0) == c0);
                        assert(slot_lo(d, tc, c0 + 1) == c0 + 1);
                        assert(slot_hi(d, tc, c0, n) == if c0 + 1 < n {
                            c0 + 1
                        } else {
                            n
                        });
                        assert(slot_hi(d, tc, c0 + 1, n) == if c0 + 2 < n {
                            c0 + 2
                        } else {
                            n
                        });
                        if c0 >= n {
                            assert(range_node(bodies@, c0, n) == empty_node());
                            assert(range_node(bodies@, c0, c0) == empty_node());
                        }
                        if c0 + 1 >= n {
                            assert(range_node(bodies@, c0 + 1, n) == empty_node());
                            assert(range_node(bodies@, c0 + 1, c0 + 1) == empty_node());
                        }
                        assert(subtree(bodies@, d, tl + 1, 2 * i as int) == left);
                        assert(subtree(bodies@, d, tl + 1, 2 * i + 1) == right);
                    }
                } else {
                    left = child_node(&self.nodes, bodies, false, 2 * k + 2 * i);
                    right = child_node(&self.nodes, bodies, false, 2 * k + 2 * i + 1);
                    proof {
                        assert(node_index(tl + 1, 2 * i as int) == 2 * k + 2 * i);
                        assert(node_index(tl + 1, 2 * i + 1) == 2 * k + 2 * i + 1);
                    }
                }
                let v = combine(&left, &right);
                let ghost before = self.nodes@;
                self.nodes.set(k + i, v);
                proof {
                    assert(node_index(tl, i as int) == k + i);
                    assert forall|t2: nat, i2: int|
                        t < t2 < d && 0 <= i2 < exp2(t2) implies #[trigger] self.nodes@[node_index(
                            t2,
                            i2,
                        )] == subtree(bodies@, d, t2, i2) by {
                        lemma_exp2_monotone(tl, t2);
                        lemma_exp2_monotone(t2 + 1, d);
                        assert(exp2(t2 + 1) == 2 * exp2(t2));
                        assert(before[node_index(t2, i2)] == subtree(bodies@, d, t2, i2));
                    }
                    assert forall|i2: int| 0 <= i2 < i + 1 implies #[trigger] self.nodes@[node_index(
                        tl,
                        i2,
                    )] == subtree(bodies@, d, tl, i2) by {
                        if i2 < i {
                            assert(before[node_index(tl, i2)] == subtree(bodies@, d, tl, i2));
                        }
                    }
                }
                i = i + 1;
            }
            proof {
                assert forall|t2: nat, i2: int|
                    t - 1 < t2 < d && 0 <= i2 < exp2(t2) implies #[trigger] self.nodes@[node_index(
                        t2,
                        i2,
                    )] == subtree(bodies@, d, t2, i2) by {
                    if t2 == tl {
                        assert(self.nodes@[node_index(tl, i2)] == subtree(bodies@, d, tl, i2));
                    }
                }
                if tl > 0 {
                    assert(exp2(tl) == 2 * exp2((tl - 1) as nat));
                }
            }
            k = k / 2;
            proof {
                t = t - 1;
            }
        }
    }
}

/// One term of the force on a query point: a single body, by its slot in
/// key order, or a whole node, by its index and the slots `first .. end` of
/// its bodies, taken as one point mass at its center of mass.
#[derive(Clone, Copy, Debug, PartialEq, Eq, Structural)]
pub enum Interaction {
    Body(usize),
    Cluster { node: usize, first: usize, end: usize },
}

/// Center of mass of a node, in grid cells (rounded down).
pub open spec fn center_x(nd: CosmicSystemNode) -> int {
    nd.moment_x as int / nd.mass as int
}

/// Center of mass of a node, in grid cells (rounded down).
pub open spec fn center_y(nd: CosmicSystemNode) -> int {
    nd.moment_y as int / nd.mass as int
}

/// Center of mass of a node, in grid cells (rounded down).
pub open spec fn center_z(nd: CosmicSystemNode) -> int {
    nd.moment_z as int / nd.mass as int
}

/// The Barnes–Hut acceptance test: the node is never opened (factor below
/// zero), or its squared width over `T²` is below the squared distance from
/// the query to its center of mass.
pub open spec fn far_enough(nd: CosmicSystemNode, qx: int, qy: int, qz: int) -> bool {
    nd.comparison_factor < 0 || nd.comparison_factor < dist_sq(
        qx,
        qy,
        qz,
        center_x(nd),
        center_y(nd),
        center_z(nd),
    )
}

/// The terms that the subtree of the `i`-th node of level `t` gives for a
/// query at `(qx, qy, qz)`; `me` is the slot of the query body, whose own
/// pull is left out (any slot past the bodies for a query point). A node
/// that holds the query body is always opened; another one is taken whole
/// when it is far enough, else opened. Level `d` holds the body slots.
pub open spec fn terms(
    nodes: Seq<CosmicSystemNode>,
    b: Seq<CelestialBody>,
    d: nat,
    t: nat,
    i: int,
    qx: int,
    qy: int,
    qz: int,
    me: int,
) -> Seq<Interaction>
    decreases d - t,
{
    if t >= d {
        if 0 <= i < b.len() && i != me {
            seq![Interaction::Body(i as usize)]
        } else {
            seq![]
        }
    } else {
        let nd = nodes[node_index(t, i)];
        let lo = slot_lo(d, t, i);
        let hi = slot_hi(d, t, i, b.len() as int);
        if nd.mass == 0 {
            seq![]
        } else if !(lo <= me < hi) && far_enough(nd, qx, qy, qz) {
            seq![Interaction::Cluster { node: node_index(t, i) as usize, first: lo as usize, end: hi as usize }]
        } else {
            terms(nodes, b, d, t + 1, 2 * i, qx, qy, qz, me) + terms(
                nodes,
                b,
                d,
                t + 1,
                2 * i + 1,
                qx,
                qy,
                qz,
                me,
            )
        }
    }
}

/// The term stands for the body in slot `j`.
pub open spec fn covers(it: Interaction, j: int) -> bool {
    match it {
        Interaction::Body(s) => s == j,
        Interaction::Cluster { node, first, end } => first <= j < end,
    }
}

/// Number of terms of `s` that stand for the body in slot `j`.
pub open spec fn cover_count(s: Seq<Interaction>, j: int) -> nat
    decreases s.len(),
{
    if s.len() == 0 {
        0
    } else {
        cover_count(s.drop_last(), j) + if covers(s.last(), j) {
            1nat
        } else {
            0nat
        }
    }
}

/// Counting over a concatenation adds up.
pub proof fn lemma_cover_count_concat(a: Seq<Interaction>, b: Seq<Interaction>, j: int)
    ensures
        cover_count(a + b, j) == cover_count(a, j) + cover_count(b, j),
    decreases b.len(),
{
    if b.len() > 0 {
        assert((a + b).drop_last() =~= a + b.drop_last());
        lemma_cover_count_concat(a, b.drop_last(), j);
    } else {
        assert(a + b =~= a);
    }
}

/// The terms of a subtree stand for each of its bodies but the query body
/// exactly once, and for no other body.
pub proof fn lemma_terms_cover(
    nodes: Seq<CosmicSystemNode>,
    b: Seq<CelestialBody>,
    d: nat,
    t: nat,
    i: int,
    qx: int,
    qy: int,
    qz: int,
    me: int,
    j: int,
)
    requires
        tree_ok(nodes, b, d),
        masses_positive(b),
        mass_bounded(b),
        b.len() <= usize::MAX,
        t <= d,
        0 <= i < exp2(t),
    ensures
        cover_count(terms(nodes, b, d, t, i, qx, qy, qz, me), j) == if slot_lo(d, t, i) <= j
            < slot_hi(d, t, i, b.len() as int) && j != me {
            1nat
        } else {
            0nat
        },
    decreases d - t,
{
    let n = b.len() as int;
    let s = terms(nodes, b, d, t, i, qx, qy, qz, me);
    if t >= d {
        lemma_leaf_slots(d, i, n);
        if 0 <= i < n && i != me {
            assert(s.drop_last() =~= Seq::<Interaction>::empty());
            assert(s.last() == Interaction::Body(i as usize));
            assert(cover_count(s, j) == cover_count(s.drop_last(), j) + if covers(s.last(), j) {
                1nat
            } else {
                0nat
            });
        } else {
            assert(s.len() == 0);
        }
    } else {
        lemma_exp2_monotone(t + 1, d);
        assert(exp2(t + 1) == 2 * exp2(t));
        let nd = nodes[node_index(t, i)];
        let lo = slot_lo(d, t, i);
        let hi = slot_hi(d, t, i, n);
        lemma_child_slots(d, t, i, n);
        assert(nd == subtree(b, d, t, i));
        if nd.mass == 0 {
            if lo < hi {
                crate::node::lemma_range_mass_positive(b, lo, hi);
                lemma_range_fits(b, lo, hi);
            }

        } else if !(lo <= me < hi) && far_enough(nd, qx, qy, qz) {
            if lo >= hi {
                assert(nd == empty_node());
            }
            assert(s.drop_last() =~= Seq::<Interaction>::empty());
            assert(cover_count(s, j) == cover_count(s.drop_last(), j) + if covers(s.last(), j) {
                1nat
            } else {
                0nat
            });
            assert(covers(s.last(), j) == (lo <= j < hi));

        } else {
            assert(exp2(t + 1) == 2 * exp2(t));
            lemma_terms_cover(nodes, b, d, t + 1, 2 * i, qx, qy, qz, me, j);
            lemma_terms_cover(nodes, b, d, t + 1, 2 * i + 1, qx, qy, qz, me, j);
            lemma_cover_count_concat(
                terms(nodes, b, d, t + 1, 2 * i, qx, qy, qz, me),
                terms(nodes, b, d, t + 1, 2 * i + 1, qx, qy, qz, me),
                j,
            );
        }
    }
}

/// A term of the traversal is sound: a body term names another body, and a
/// cluster term names a node that holds exactly the aggregate of its bodies
/// `first .. end`, does not hold the query body, and passes the acceptance
/// test.
pub open spec fn term_ok(
    nodes: Seq<CosmicSystemNode>,
    b: Seq<CelestialBody>,
    qx: int,
    qy: int,
    qz: int,
    me: int,
    it: Interaction,
) -> bool {
    match it {
        Interaction::Body(s) => s < b.len() && s != me,
        Interaction::Cluster { node, first, end } => {
            &&& 0 < node < nodes.len()
            &&& first < end <= b.len()
            &&& nodes[node as int] == range_node(b, first as int, end as int)
            &&& !(first <= me < end)
            &&& far_enough(nodes[node as int], qx, qy, qz)
        },
    }
}

/// Every term of a subtree is sound.
pub proof fn lemma_terms_sound(
    nodes: Seq<CosmicSystemNode>,
    b: Seq<CelestialBody>,
    d: nat,
    t: nat,
    i: int,
    qx: int,
    qy: int,
    qz: int,
    me: int,
)
    requires
        tree_ok(nodes, b, d),
        masses_positive(b),
        mass_bounded(b),
        b.len() <= usize::MAX,
        nodes.len() <= usize::MAX,
        t <= d,
        0 <= i < exp2(t),
    ensures
        forall|x: int|
            0 <= x < terms(nodes, b, d, t, i, qx, qy, qz, me).len() ==> term_ok(
                nodes,
                b,
                qx,
                qy,
                qz,
                me,
                #[trigger] terms(nodes, b, d, t, i, qx, qy, qz, me)[x],
            ),
    decreases d - t,
{
    let n = b.len() as int;
    let s = terms(nodes, b, d, t, i, qx, qy, qz, me);
    if t >= d {
        if 0 <= i < n && i != me {
            assert(s[0] == Interaction::Body(i as usize));
            assert(term_ok(nodes, b, qx, qy, qz, me, s[0]));
        }
    } else {
        lemma_exp2_monotone(t + 1, d);
        assert(exp2(t + 1) == 2 * exp2(t));
        let nd = nodes[node_index(t, i)];
        let lo = slot_lo(d, t, i);
        let hi = slot_hi(d, t, i, n);
        lemma_child_slots(d, t, i, n);
        assert(nd == subtree(b, d, t, i));
        if nd.mass != 0 && !(lo <= me < hi) && far_enough(nd, qx, qy, qz) {
            if lo >= hi {
                assert(nd == empty_node());
            }
            lemma_exp2_positive(t);
            assert(node_index(t, i) > 0);
            let it = Interaction::Cluster {
                node: node_index(t, i) as usize,
                first: lo as usize,
                end: hi as usize,
            };
            assert(s[0] == it);
            assert(term_ok(nodes, b, qx, qy, qz, me, it));
        } else if nd.mass != 0 {
            lemma_terms_sound(nodes, b, d, t + 1, 2 * i, qx, qy, qz, me);
            lemma_terms_sound(nodes, b, d, t + 1, 2 * i + 1, qx, qy, qz, me);
            let l = terms(nodes, b, d, t + 1, 2 * i, qx, qy, qz, me);
            let r = terms(nodes, b, d, t + 1, 2 * i + 1, qx, qy, qz, me);
            assert forall|x: int| 0 <= x < s.len() implies term_ok(
                nodes,
                b,
                qx,
                qy,
                qz,
                me,
                #[trigger] s[x],
            ) by {
                if x < l.len() {
                    assert(s[x] == l[x]);
                } else {
                    assert(s[x] == r[x - l.len()]);
                }
            }
        }
    }
}

impl CosmicSystem {
    /// Appends the terms of the subtree of the `i`-th node of level `t`,
    /// at flat index `k`, whose bodies start at slot `lo` and which spans
    /// `w` slots.
    fn collect(
        &self,
        bodies: &Vec<CelestialBody>,
        t: Ghost<nat>,
        i: Ghost<int>,
        k: usize,
        lo: usize,
        w: usize,
        qx: u32,
        qy: u32,
        qz: u32,
        me: usize,
        out: &mut Vec<Interaction>,
    )
        requires
            self.built_from(bodies@),
            t@ <= self.depth@,
            0 <= i@ < exp2(t@),
            t@ < self.depth@ ==> k == node_index(t@, i@),
            lo == slot_lo(self.depth@, t@, i@),
            w == exp2((self.depth@ - t@) as nat),
        ensures
            final(out)@ == old(out)@ + terms(
                self.nodes@,
                bodies@,
                self.depth@,
                t@,
                i@,
                qx as int,
                qy as int,
                qz as int,
                me as int,
            ),
        decreases self.depth@ - t@,
    {
        let ghost d = self.depth@;
        let ghost n = bodies@.len() as int;
        let cap = self.nodes.len();
        proof {
            assert(cap == exp2(d));
            if t@ < d {
                lemma_exp2_monotone(1, (d - t@) as nat);
            }
        }
        if w == 1 {
            proof {
                lemma_leaf_slots(d, i@, n);
                assert(i@ * 1 == i@);
            }
            if lo < bodies.len() && lo != me {
                out.push(Interaction::Body(lo));
            }
            return;
        }
        proof {
            lemma_exp2_monotone(t@ + 1, d);
            assert(exp2(t@ + 1) == 2 * exp2(t@));
            lemma_child_slots(d, t@, i@, n);
            lemma_exp2_add(t@, (d - t@) as nat);
            assert(t@ + ((d - t@) as nat) == d);
            assert((i@ + 1) * w <= exp2(t@) * w) by (nonlinear_arith)
                requires
                    i@ + 1 <= exp2(t@),
                    w >= 0,
            ;
            assert(lo + w == (i@ + 1) * w) by (nonlinear_arith)
                requires
                    lo == i@ * w,
            ;
        }
        let nd = self.nodes[k];
        if nd.mass == 0 {
            return;
        }
        let n_bodies = bodies.len();
        let hi = if w < n_bodies - lo {
            lo + w
        } else {
            n_bodies
        };
        proof {
            assert(nd == subtree(bodies@, d, t@, i@));
            if lo >= hi {
                assert(nd == empty_node());
            }
            lemma_range_fits(bodies@, lo as int, hi as int);
            lemma_range_sum_bounds(bodies@, lo as int, hi as int, 1);
            lemma_range_sum_bounds(bodies@, lo as int, hi as int, 2);
            lemma_range_sum_bounds(bodies@, lo as int, hi as int, 3);
        }
        let holds_me = lo <= me && me < hi;
        let far = if nd.comparison_factor < 0 {
            true
        } else {
            let c = nd.body();
            let d2 = distance_sq(qx, qy, qz, c.x, c.y, c.z);
            (nd.comparison_factor as u128) < d2
        };
        if !holds_me && far {
            out.push(Interaction::Cluster { node: k, first: lo, end: hi });
        } else {
            let wh = w / 2;
            let kl: usize;
            let kr: usize;
            if wh == 1 {
                kl = 0;
                kr = 0;
            } else {
                proof {
                    assert(wh == exp2((d - (t@ + 1)) as nat));
                    if t@ + 1 == d {
                        assert(exp2(0) == 1);
                    }
                    lemma_exp2_monotone(t@ + 2, d);
                    assert(exp2(t@ + 2) == 2 * exp2(t@ + 1));
                }
                kl = 2 * k;
                kr = 2 * k + 1;
            }
            let ghost before = out@;
            self.collect(bodies, Ghost(t@ + 1), Ghost(2 * i@), kl, lo, wh, qx, qy, qz, me, out);
            self.collect(
                bodies,
                Ghost(t@ + 1),
                Ghost(2 * i@ + 1),
                kr,
                lo + wh,
                wh,
                qx,
                qy,
                qz,
                me,
                out,
            );
            proof {
                assert(out@ =~= before + terms(
                    self.nodes@,
                    bodies@,
                    d,
                    t@,
                    i@,
                    qx as int,
                    qy as int,
                    qz as int,
                    me as int,
                ));
            }
        }
    }

    /// The terms of the force on the body in slot `slot` (key order): each
    /// other body is stood for by exactly one term, the body itself by none.
    /// Times `G`, the sum of their pulls is the force per unit of mass.
    pub fn gravitational_force_zero_mass(&self, slot: usize, bodies: &Vec<CelestialBody>) -> (r: Vec<
        Interaction,
    >)
        requires
            self.built_from(bodies@),
            slot < bodies@.len(),
        ensures
            r@ == terms(
                self.nodes_view(),
                bodies@,
                self.depth_view(),
                0,
                0,
                bodies@[slot as int].x as int,
                bodies@[slot as int].y as int,
                bodies@[slot as int].z as int,
                slot as int,
            ),
            forall|j: int|
                #[trigger] cover_count(r@, j) == if 0 <= j < bodies@.len() && j != slot {
                    1nat
                } else {
                    0nat
                },
            forall|x: int|
                0 <= x < r@.len() ==> term_ok(
                    self.nodes_view(),
                    bodies@,
                    bodies@[slot as int].x as int,
                    bodies@[slot as int].y as int,
                    bodies@[slot as int].z as int,
                    slot as int,
                    #[trigger] r@[x],
                ),
    {
        let c = bodies[slot];
        self.query(c.x, c.y, c.z, slot, bodies)
    }

    /// The terms of the force on a point of zero mass at cell `(x, y, z)`:
    /// every body is stood for by exactly one term.
    pub fn query_force(&self, x: u32, y: u32, z: u32, bodies: &Vec<CelestialBody>) -> (r: Vec<
        Interaction,
    >)
        requires
            self.built_from(bodies@),
        ensures
            r@ == terms(
                self.nodes_view(),
                bodies@,
                self.depth_view(),
                0,
                0,
                x as int,
                y as int,
                z as int,
                usize::MAX as int,
            ),
            forall|j: int|
                #[trigger] cover_count(r@, j) == if 0 <= j < bodies@.len() {
                    1nat
                } else {
                    0nat
                },
            forall|e: int|
                0 <= e < r@.len() ==> term_ok(
                    self.nodes_view(),
                    bodies@,
                    x as int,
                    y as int,
                    z as int,
                    usize::MAX as int,
                    #[trigger] r@[e],
                ),
    {
        let r = self.query(x, y, z, usize::MAX, bodies);
        let n = bodies.len();
        proof {
            assert forall|j: int| #[trigger]
                cover_count(r@, j) == if 0 <= j < bodies@.len() {
                    1nat
                } else {
                    0nat
                } by {
                assert(0 <= j < n ==> j != usize::MAX);
            }
        }
        r
    }

    fn query(&self, x: u32, y: u32, z: u32, me: usize, bodies: &Vec<CelestialBody>) -> (r: Vec<
        Interaction,
    >)
        requires
            self.built_from(bodies@),
        ensures
            r@ == terms(
                self.nodes@,
                bodies@,
                self.depth@,
                0,
                0,
                x as int,
                y as int,
                z as int,
                me as int,
            ),
            forall|j: int|
                #[trigger] cover_count(r@, j) == if 0 <= j < bodies@.len() && j != me {
                    1nat
                } else {
                    0nat
                },
            forall|i: int|
                0 <= i < r@.len() ==> term_ok(
                    self.nodes@,
                    bodies@,
                    x as int,
                    y as int,
                    z as int,
                    me as int,
                    #[trigger] r@[i],
                ),
    {
        let mut out: Vec<Interaction> = Vec::new();
        let cap = self.nodes.len();
        proof {
            assert(exp2(0) == 1);
            lemma_exp2_positive(self.depth@);
            assert(0 * exp2(self.depth@) == 0);
        }
        self.collect(bodies, Ghost(0), Ghost(0), 1, 0, cap, x, y, z, me, &mut out);
        proof {
            assert(out@ =~= terms(
                self.nodes@,
                bodies@,
                self.depth@,
                0,
                0,
                x as int,
                y as int,
                z as int,
                me as int,
            ));
            assert forall|j: int| #[trigger]
                cover_count(out@, j) == if 0 <= j < bodies@.len() && j != me {
                    1nat
                } else {
                    0nat
                } by {
                lemma_terms_cover(
                    self.nodes@,
                    bodies@,
                    self.depth@,
                    0,
                    0,
                    x as int,
                    y as int,
                    z as int,
                    me as int,
                    j,
                );
            }
            lemma_terms_sound(
                self.nodes@,
                bodies@,
                self.depth@,
                0,
                0,
                x as int,
                y as int,
                z as int,
                me as int,
            );
        }
        out
    }
}

} // verus!
