use vstd::prelude::*;

use crate::celestial_body::CelestialBody;
use crate::cosmic_system::{
    exp2, factor_of, first_difference, is_keyed_sort_of, is_keyed_sort_witness, keys_sorted,
    lemma_exp2_injective, lemma_exp2_monotone, node_index, side_of, slot_hi, slot_lo, subtree,
    terms, tree_ok, unkeyed, CosmicSystem, Interaction, INV_T_SQUARED, NO_SPLIT,
};
use crate::node::{
    empty_node, lemma_range_fits, mass_bounded, masses_positive, range_sum, CosmicSystemNode,
};
use crate::z_order::{bit_of, key_x_bit, key_y_bit, key_z_bit, lemma_morton_is_key, morton};

verus! {

/// Mass is conserved: the root of a tree built over bodies holds their
/// total mass.
pub proof fn lemma_mass_conservation(nodes: Seq<CosmicSystemNode>, b: Seq<CelestialBody>, d: nat)
    requires
        tree_ok(nodes, b, d),
        mass_bounded(b),
        d >= 1,
    ensures
        nodes[1].mass == range_sum(b, 0, b.len() as int, 0),
{
    assert(exp2(0) == 1);
    assert(nodes[node_index(0, 0)] == subtree(b, d, 0, 0));
    assert(slot_lo(d, 0, 0) == 0);
    assert(slot_hi(d, 0, 0, b.len() as int) == b.len()) by {
        assert(((d - 0) as nat) == d);
        assert(1 * exp2(d) == exp2(d));
    }
    lemma_range_fits(b, 0, b.len() as int);
}

/// With two bodies the tree degenerates to a direct pair: the terms of the
/// force on each body are exactly the other body, so the two pulls are
/// evaluated on the same displacement with opposite signs.
pub proof fn lemma_two_bodies_pair(
    nodes: Seq<CosmicSystemNode>,
    b: Seq<CelestialBody>,
    d: nat,
    qx: int,
    qy: int,
    qz: int,
    me: int,
)
    requires
        tree_ok(nodes, b, d),
        masses_positive(b),
        mass_bounded(b),
        b.len() == 2,
        me == 0 || me == 1,
    ensures
        terms(nodes, b, d, 0, 0, qx, qy, qz, me) == seq![Interaction::Body((1 - me) as usize)],
{
    if d == 0 {
        assert(exp2(0) == 1);
    }
    lemma_pair_spine(nodes, b, d, 0, qx, qy, qz, me);
}

proof fn lemma_pair_spine(
    nodes: Seq<CosmicSystemNode>,
    b: Seq<CelestialBody>,
    d: nat,
    t: nat,
    qx: int,
    qy: int,
    qz: int,
    me: int,
)
    requires
        tree_ok(nodes, b, d),
        masses_positive(b),
        mass_bounded(b),
        b.len() == 2,
        me == 0 || me == 1,
        t < d,
    ensures
        terms(nodes, b, d, t, 0, qx, qy, qz, me) == seq![Interaction::Body((1 - me) as usize)],
    decreases d - t,
{
    let n = 2int;
    lemma_exp2_monotone(t + 1, d);
    assert(exp2(t + 1) == 2 * exp2(t));
    lemma_exp2_monotone(1, (d - t) as nat);
    assert(exp2(1) == 2 * exp2(0));
    let nd = nodes[node_index(t, 0)];
    assert(nd == subtree(b, d, t, 0));
    assert(slot_lo(d, t, 0) == 0);
    assert(slot_hi(d, t, 0, n) == 2);
    lemma_range_fits(b, 0, 2);
    crate::node::lemma_range_mass_positive(b, 0, 2);
    assert(nd.mass > 0);
    let left = terms(nodes, b, d, t + 1, 0, qx, qy, qz, me);
    let right = terms(nodes, b, d, t + 1, 1, qx, qy, qz, me);
    assert(terms(nodes, b, d, t, 0, qx, qy, qz, me) == left + right);
    if t + 1 == d {
        assert(left == if me != 0 {
            seq![Interaction::Body(0usize)]
        } else {
            Seq::<Interaction>::empty()
        });
        assert(right == if me != 1 {
            seq![Interaction::Body(1usize)]
        } else {
            Seq::<Interaction>::empty()
        });
        if me == 0 {
            assert(left + right =~= seq![Interaction::Body(1usize)]);
        } else {
            assert(left + right =~= seq![Interaction::Body(0usize)]);
        }
    } else {
        lemma_pair_spine(nodes, b, d, t + 1, qx, qy, qz, me);
        lemma_exp2_monotone(t + 2, d);
        assert(exp2(t + 2) == 2 * exp2(t + 1));
        lemma_exp2_monotone(1, (d - (t + 1)) as nat);
        let w = exp2((d - (t + 1)) as nat);
        assert(slot_lo(d, t + 1, 1) == w);
        assert(w >= 2);
        let nr = nodes[node_index(t + 1, 1)];
        assert(nr == subtree(b, d, t + 1, 1));
        assert(nr == empty_node());
        assert(right == Seq::<Interaction>::empty());
        assert(left + right =~= left);
    }
}

/// Two cells that differ only in bit `j` of their x coordinate have keys
/// that differ in exactly one bit, bit `32 + 3j`.
pub proof fn lemma_key_single_bit(x: u32, x2: u32, y: u32, z: u32, j: u128)
    requires
        j < 32,
        (x as u128) ^ (x2 as u128) == 1u128 << j,
    ensures
        forall|b: u128|
            b < 128 ==> (bit_of(morton(x, y, z), b) != bit_of(morton(x2, y, z), b) <==> b == 32 + 3
                * j),
{
    let k1 = morton(x, y, z);
    let k2 = morton(x2, y, z);
    lemma_morton_is_key(x, y, z);
    lemma_morton_is_key(x2, y, z);
    assert forall|b: u128| b < 128 implies (bit_of(k1, b) != bit_of(k2, b) <==> b == 32 + 3
        * j) by {
        if b < 32 {
            lemma_low_bits_zero(k1, b);
            lemma_low_bits_zero(k2, b);
        } else {
            let m = ((b - 32) / 3) as u128;
            let r = (b - 32) % 3;
            assert(m < 32);
            if r == 0 {
                assert(bit_of(k1, b) == key_x_bit(k1, m));
                assert(bit_of(k2, b) == key_x_bit(k2, m));
                lemma_single_bit_difference(x as u128, x2 as u128, j, m);
            } else if r == 1 {
                assert(bit_of(k1, b) == key_y_bit(k1, m));
                assert(bit_of(k2, b) == key_y_bit(k2, m));
            } else {
                assert(bit_of(k1, b) == key_z_bit(k1, m));
                assert(bit_of(k2, b) == key_z_bit(k2, m));
            }
        }
    }
}

proof fn lemma_low_bits_zero(k: u128, b: u128)
    requires
        b < 32,
        k & 0xFFFF_FFFFu128 == 0,
    ensures
        bit_of(k, b) == 0,
{
    assert((k >> b) & 1 == 0) by (bit_vector)
        requires
            b < 32,
            k & 0xFFFF_FFFFu128 == 0,
    ;
}

proof fn lemma_single_bit_difference(a: u128, c: u128, j: u128, m: u128)
    requires
        j < 32,
        m < 32,
        a ^ c == 1u128 << j,
    ensures
        bit_of(a, m) != bit_of(c, m) <==> m == j,
{
    assert(((a >> m) & 1 != (c >> m) & 1) <==> m == j) by (bit_vector)
        requires
            j < 32,
            m < 32,
            a ^ c == 1u128 << j,
    ;
}

/// Rebuilding without moving bodies changes nothing: sorting bodies that a
/// rebuild already keyed and sorted gives them back as they were, and two
/// trees of one depth built over the same bodies hold the same nodes.
pub proof fn lemma_rebuild_identical(
    given: Seq<CelestialBody>,
    b: Seq<CelestialBody>,
    s: Seq<CelestialBody>,
    n1: Seq<CosmicSystemNode>,
    n2: Seq<CosmicSystemNode>,
    d: nat,
)
    requires
        is_keyed_sort_of(b, given),
        is_keyed_sort_of(s, b),
        tree_ok(n1, b, d),
        tree_ok(n2, s, d),
    ensures
        s == b,
        n1 == n2,
{
    let q = choose|q: Seq<int>| is_keyed_sort_witness(q, b, given);
    let p = choose|p: Seq<int>| is_keyed_sort_witness(p, s, b);
    let n = s.len() as int;
    assert forall|i: int| 0 <= i < n implies #[trigger] s[i] == b[p[i]] by {
        assert(unkeyed(s[i]) == unkeyed(b[p[i]]));
        assert(0 <= q[p[i]] < given.len());
        assert(b[p[i]].key == morton(b[p[i]].x, b[p[i]].y, b[p[i]].z));
    }
    assert forall|i: int, j: int| 0 <= i < j < n implies #[trigger] p[i] < #[trigger] p[j] by {
        assert(s[i] == b[p[i]]);
        assert(s[j] == b[p[j]]);
        if s[i].key != s[j].key {
            assert(s[i].key <= s[j].key);
            if p[j] < p[i] {
                assert(b[p[j]].key <= b[p[i]].key);
            }
        }
    }
    lemma_increasing_is_identity(p, n);
    assert(s =~= b) by {
        assert forall|i: int| 0 <= i < n implies s[i] == b[i] by {
            assert(s[i] == b[p[i]]);
        }
    }
    lemma_tree_unique(n1, n2, b, d);
}

/// A strictly increasing map of `0 .. n` into itself is the identity.
proof fn lemma_increasing_is_identity(p: Seq<int>, n: int)
    requires
        p.len() == n,
        forall|i: int| 0 <= i < n ==> 0 <= #[trigger] p[i] < n,
        forall|i: int, j: int| 0 <= i < j < n ==> #[trigger] p[i] < #[trigger] p[j],
    ensures
        forall|i: int| 0 <= i < n ==> #[trigger] p[i] == i,
{
    assert forall|i: int| 0 <= i < n implies #[trigger] p[i] == i by {
        lemma_at_least_index(p, n, i);
        lemma_at_most_index(p, n, i);
    }
}

proof fn lemma_at_least_index(p: Seq<int>, n: int, i: int)
    requires
        p.len() == n,
        0 <= i < n,
        forall|k: int| 0 <= k < n ==> 0 <= #[trigger] p[k] < n,
        forall|k: int, j: int| 0 <= k < j < n ==> #[trigger] p[k] < #[trigger] p[j],
    ensures
        p[i] >= i,
    decreases i,
{
    if i > 0 {
        lemma_at_least_index(p, n, i - 1);
        assert(p[i - 1] < p[i]);
    }
}

proof fn lemma_at_most_index(p: Seq<int>, n: int, i: int)
    requires
        p.len() == n,
        0 <= i < n,
        forall|k: int| 0 <= k < n ==> 0 <= #[trigger] p[k] < n,
        forall|k: int, j: int| 0 <= k < j < n ==> #[trigger] p[k] < #[trigger] p[j],
    ensures
        p[i] <= i,
    decreases n - i,
{
    if i < n - 1 {
        lemma_at_most_index(p, n, i + 1);
        assert(p[i] < p[i + 1]);
        lemma_at_least_index(p, n, i + 1);
    }
}

/// Every positive index lies on one level of the tree.
proof fn lemma_level_of(k: nat) -> (t: nat)
    requires
        k >= 1,
    ensures
        exp2(t) <= k < exp2(t + 1),
    decreases k,
{
    if k == 1 {
        assert(exp2(1) == 2 * exp2(0));
        0
    } else {
        let t = lemma_level_of(k / 2);
        assert(exp2(t + 2) == 2 * exp2(t + 1));
        t + 1
    }
}

/// What the `i`-th node of level `t` holds, over the bodies of slots
/// `lo .. hi` below it: its mass and moments are the sums over those bodies;
/// its mass is positive exactly when it has a body; its factor is below zero
/// exactly when it has at most one body or all their keys are equal; and
/// otherwise its factor is the squared side of the smallest Morton cell that
/// holds its first and last key, over `T²`.
pub proof fn lemma_node_contents(
    nodes: Seq<CosmicSystemNode>,
    b: Seq<CelestialBody>,
    d: nat,
    t: nat,
    i: int,
)
    requires
        tree_ok(nodes, b, d),
        masses_positive(b),
        mass_bounded(b),
        keys_sorted(b),
        t < d,
        0 <= i < exp2(t),
    ensures
        ({
            let nd = nodes[node_index(t, i)];
            let lo = slot_lo(d, t, i);
            let hi = slot_hi(d, t, i, b.len() as int);
            &&& nd.mass == range_sum(b, lo, hi, 0)
            &&& nd.moment_x == range_sum(b, lo, hi, 1)
            &&& nd.moment_y == range_sum(b, lo, hi, 2)
            &&& nd.moment_z == range_sum(b, lo, hi, 3)
            &&& nd.mass > 0 <==> lo < hi
            &&& nd.comparison_factor < 0 <==> (hi - lo <= 1 || forall|j: int|
                lo <= j < hi ==> #[trigger] b[j].key == b[lo].key)
            &&& lo < hi && b[lo].key != b[hi - 1].key ==> nd.comparison_factor == side_of(
                first_difference(b[lo].key, b[hi - 1].key),
            ) * side_of(first_difference(b[lo].key, b[hi - 1].key)) * INV_T_SQUARED
        }),
{
    let n = b.len() as int;
    let nd = nodes[node_index(t, i)];
    let lo = slot_lo(d, t, i);
    let hi = slot_hi(d, t, i, n);
    assert(nd == subtree(b, d, t, i));
    assert(lo >= 0) by (nonlinear_arith)
        requires
            lo == i * exp2((d - t) as nat),
            i >= 0,
    ;
    if lo < hi {
        lemma_range_fits(b, lo, hi);
        crate::node::lemma_range_mass_positive(b, lo, hi);
        assert(range_sum(b, lo, hi, 1) >= 0 && range_sum(b, lo, hi, 2) >= 0 && range_sum(
            b,
            lo,
            hi,
            3,
        ) >= 0);
        let split = first_difference(b[lo].key, b[hi - 1].key);
        crate::cosmic_system::lemma_first_difference_bound(b[lo].key, b[hi - 1].key);
        if split != NO_SPLIT {
            assert(side_of(split) * side_of(split) >= 0) by (nonlinear_arith);
            crate::cosmic_system::lemma_side_bound(split);
            assert(side_of(split) * side_of(split) <= 0x1_0000_0000u64 * 0x1_0000_0000u64) by (
            nonlinear_arith)
                requires
                    side_of(split) <= 0x1_0000_0000u64,
            ;
        }
        if b[lo].key == b[hi - 1].key {
            assert forall|j: int| lo <= j < hi implies #[trigger] b[j].key == b[lo].key by {
                if j > lo {
                    assert(b[lo].key <= b[j].key);
                }
                if j < hi - 1 {
                    assert(b[j].key <= b[hi - 1].key);
                }
            }
        } else {
            assert(!(b[hi - 1].key == b[lo].key));
        }
    } else {
        assert(nd == empty_node());
        assert(range_sum(b, lo, hi, 0) == 0 && range_sum(b, lo, hi, 1) == 0 && range_sum(
            b,
            lo,
            hi,
            2,
        ) == 0 && range_sum(b, lo, hi, 3) == 0);
    }
}

/// Two trees of one capacity built over the same bodies hold the same
/// nodes.
pub proof fn lemma_tree_unique(
    n1: Seq<CosmicSystemNode>,
    n2: Seq<CosmicSystemNode>,
    b: Seq<CelestialBody>,
    d: nat,
)
    requires
        tree_ok(n1, b, d),
        tree_ok(n2, b, d),
    ensures
        n1 == n2,
{
    assert(n1 =~= n2) by {
        assert forall|k: int| 0 <= k < n1.len() implies n1[k] == n2[k] by {
            if k > 0 {
                let t = lemma_level_of(k as nat);
                if t >= d {
                    lemma_exp2_monotone(d, t);
                }
                assert(n1[node_index(t, k - exp2(t))] == subtree(b, d, t, k - exp2(t)));
                assert(n2[node_index(t, k - exp2(t))] == subtree(b, d, t, k - exp2(t)));
            }
        }
    }
}

/// Rebuilding a tree without moving its bodies gives the same bodies, in the
/// same order, and the same nodes: `first` was built over `b1`, the keyed
/// and sorted `given` bodies; `second`, of the same capacity, was then built
/// over `b2`, the keyed and sorted `b1`.
pub proof fn lemma_rebuild_twice(
    given: Seq<CelestialBody>,
    first: CosmicSystem,
    b1: Seq<CelestialBody>,
    second: CosmicSystem,
    b2: Seq<CelestialBody>,
)
    requires
        is_keyed_sort_of(b1, given),
        first.built_from(b1),
        is_keyed_sort_of(b2, b1),
        second.built_from(b2),
        second.capacity_view() == first.capacity_view(),
    ensures
        b2 == b1,
        second.nodes_view() == first.nodes_view(),
{
    first.lemma_built(b1);
    second.lemma_built(b2);
    lemma_exp2_injective(first.depth_view(), second.depth_view());
    lemma_rebuild_identical(
        given,
        b1,
        b2,
        first.nodes_view(),
        second.nodes_view(),
        first.depth_view(),
    );
}

/// Bit `b` of a key comes from an axis bit that differs between the cells
/// `(x, y, z)` and `(x2, y2, z2)`: bits from 32 up hold bit `(b - 32) / 3`
/// of the x, y or z coordinate as `(b - 32) % 3` is 0, 1 or 2.
pub open spec fn axis_bit_differs(x: u32, y: u32, z: u32, x2: u32, y2: u32, z2: u32, b: u128) -> bool {
    b >= 32 && {
        let m = ((b - 32) / 3) as u128;
        let r = (b - 32) % 3;
        if r == 0 {
            bit_of(x as u128, m) != bit_of(x2 as u128, m)
        } else if r == 1 {
            bit_of(y as u128, m) != bit_of(y2 as u128, m)
        } else {
            bit_of(z as u128, m) != bit_of(z2 as u128, m)
        }
    }
}

/// The keys of two cells differ exactly at the bits whose axis bits differ.
pub proof fn lemma_key_bits(x: u32, y: u32, z: u32, x2: u32, y2: u32, z2: u32)
    ensures
        forall|b: u128|
            b < 128 ==> (bit_of(morton(x, y, z), b) != bit_of(morton(x2, y2, z2), b)
                <==> #[trigger] axis_bit_differs(x, y, z, x2, y2, z2, b)),
{
    let k1 = morton(x, y, z);
    let k2 = morton(x2, y2, z2);
    lemma_morton_is_key(x, y, z);
    lemma_morton_is_key(x2, y2, z2);
    assert forall|b: u128| b < 128 implies (bit_of(k1, b) != bit_of(k2, b)
        <==> #[trigger] axis_bit_differs(x, y, z, x2, y2, z2, b)) by {
        if b < 32 {
            lemma_low_bits_zero(k1, b);
            lemma_low_bits_zero(k2, b);
        } else {
            let m = ((b - 32) / 3) as u128;
            let r = (b - 32) % 3;
            assert(m < 32);
            if r == 0 {
                assert(bit_of(k1, b) == key_x_bit(k1, m));
                assert(bit_of(k2, b) == key_x_bit(k2, m));
            } else if r == 1 {
                assert(bit_of(k1, b) == key_y_bit(k1, m));
                assert(bit_of(k2, b) == key_y_bit(k2, m));
            } else {
                assert(bit_of(k1, b) == key_z_bit(k1, m));
                assert(bit_of(k2, b) == key_z_bit(k2, m));
            }
        }
    }
}

/// Cells that differ only below bit `j` of each axis have keys that differ
/// only at bits `32 + 3i + a` with `i < j`: the bits of the lowest `j`
/// octree levels. With two axes equal, only that axis's bits differ.
pub proof fn lemma_key_low_bits(x: u32, y: u32, z: u32, x2: u32, y2: u32, z2: u32, j: u128)
    requires
        j <= 32,
        (x as u128) ^ (x2 as u128) < 1u128 << j,
        (y as u128) ^ (y2 as u128) < 1u128 << j,
        (z as u128) ^ (z2 as u128) < 1u128 << j,
    ensures
        forall|b: u128|
            b < 128 && #[trigger] bit_of(morton(x, y, z), b) != bit_of(morton(x2, y2, z2), b) ==> b
                >= 32 && (b - 32) / 3 < j,
{
    lemma_key_bits(x, y, z, x2, y2, z2);
    assert forall|b: u128|
        b < 128 && #[trigger] bit_of(morton(x, y, z), b) != bit_of(morton(x2, y2, z2), b) implies b
        >= 32 && (b - 32) / 3 < j by {
        assert(axis_bit_differs(x, y, z, x2, y2, z2, b));
        let m = ((b - 32) / 3) as u128;
        assert(m < 32);
        let r = (b - 32) % 3;
        if r == 0 {
            lemma_differing_bit_is_low(x as u128, x2 as u128, j, m);
        } else if r == 1 {
            lemma_differing_bit_is_low(y as u128, y2 as u128, j, m);
        } else {
            lemma_differing_bit_is_low(z as u128, z2 as u128, j, m);
        }
    }
}

proof fn lemma_differing_bit_is_low(a: u128, c: u128, j: u128, m: u128)
    requires
        j <= 32,
        m < 32,
        a ^ c < 1u128 << j,
        bit_of(a, m) != bit_of(c, m),
    ensures
        m < j,
{
    assert(m < j) by (bit_vector)
        requires
            j <= 32,
            m < 32,
            a ^ c < 1u128 << j,
            (a >> m) & 1 != (c >> m) & 1,
    ;
}

/// Different cells have different keys.
pub proof fn lemma_key_injective(x: u32, y: u32, z: u32, x2: u32, y2: u32, z2: u32)
    requires
        x != x2 || y != y2 || z != z2,
    ensures
        morton(x, y, z) != morton(x2, y2, z2),
{
    lemma_key_bits(x, y, z, x2, y2, z2);
    if x != x2 {
        let m = lemma_some_bit_differs(x, x2);
        assert(axis_bit_differs(x, y, z, x2, y2, z2, (32 + 3 * m) as u128));
    } else if y != y2 {
        let m = lemma_some_bit_differs(y, y2);
        assert(axis_bit_differs(x, y, z, x2, y2, z2, (33 + 3 * m) as u128));
    } else {
        let m = lemma_some_bit_differs(z, z2);
        assert(axis_bit_differs(x, y, z, x2, y2, z2, (34 + 3 * m) as u128));
    }
}

/// Two different 32-bit values differ at some bit.
proof fn lemma_some_bit_differs(a: u32, c: u32) -> (m: u128)
    requires
        a != c,
    ensures
        m < 32,
        bit_of(a as u128, m) != bit_of(c as u128, m),
    decreases a + c,
{
    let aw = a as u128;
    let cw = c as u128;
    if aw & 1 != cw & 1 {
        assert((aw >> 0u128) & 1 == aw & 1 && (cw >> 0u128) & 1 == cw & 1) by (bit_vector);
        0
    } else {
        assert(a / 2 != c / 2) by (bit_vector)
            requires
                a != c,
                (a as u128) & 1 == (c as u128) & 1,
        ;
        let m = lemma_some_bit_differs(a / 2, c / 2);
        let ah = (a / 2) as u128;
        let ch = (c / 2) as u128;
        assert(m + 1 < 32) by (bit_vector)
            requires
                m < 32,
                (ah >> m) & 1 != (ch >> m) & 1,
                ah == (a / 2) as u128,
                ch == (c / 2) as u128,
        ;
        assert((aw >> (m + 1)) & 1 == (ah >> m) & 1 && (cw >> (m + 1)) & 1 == (ch >> m) & 1)
            by (bit_vector)
            requires
                m < 31,
                aw == a as u128,
                cw == c as u128,
                ah == (a / 2) as u128,
                ch == (c / 2) as u128,
        ;
        (m + 1) as u128
    }
}

/// Keys grow along each axis: with the other two coordinates equal, the
/// cell with the smaller coordinate has the smaller key.
pub proof fn lemma_key_monotone(x: u32, y: u32, z: u32, x2: u32, y2: u32, z2: u32)
    requires
        (x < x2 && y == y2 && z == z2) || (x == x2 && y < y2 && z == z2) || (x == x2 && y == y2
            && z < z2),
    ensures
        morton(x, y, z) < morton(x2, y2, z2),
{
    let k1 = morton(x, y, z);
    let k2 = morton(x2, y2, z2);
    lemma_key_bits(x, y, z, x2, y2, z2);
    let (a, c, r) = if x < x2 {
        (x as u128, x2 as u128, 0u128)
    } else if y < y2 {
        (y as u128, y2 as u128, 1u128)
    } else {
        (z as u128, z2 as u128, 2u128)
    };
    assert(a >> 32u128 == 0 && c >> 32u128 == 0) by (bit_vector)
        requires
            a <= 0xFFFF_FFFFu128,
            c <= 0xFFFF_FFFFu128,
    ;
    let m = lemma_top_difference(a, c, 32);
    let p = (32 + 3 * m + r) as u128;
    assert(axis_bit_differs(x, y, z, x2, y2, z2, p));
    assert forall|b: u128| p < b < 128 implies #[trigger] bit_of(k1, b) == bit_of(k2, b) by {
        assert(!axis_bit_differs(x, y, z, x2, y2, z2, b)) by {
            if b >= 32 {
                let mb = ((b - 32) / 3) as u128;
                let rb = (b - 32) % 3;
                if rb == r {
                    assert(mb > m);
                    lemma_high_bits_agree(a, c, m, mb);
                }
            }
        }
    }
    lemma_bit_facts(a, c, m);
    lemma_key_bit_values(k1, k2, p, a, c, m, x, y, z, x2, y2, z2, r);
    if p == 127 {
        assert(k1 < k2) by (bit_vector)
            requires
                (k1 >> 127u128) & 1 == 0,
                (k2 >> 127u128) & 1 == 1,
        ;
    } else {
        lemma_shift_agrees(k1, k2, (p + 1) as u128);
        assert(k1 < k2) by (bit_vector)
            requires
                p < 127,
                (k1 >> p) & 1 == 0,
                (k2 >> p) & 1 == 1,
                k1 >> (p + 1) == k2 >> (p + 1),
        ;
    }
}

proof fn lemma_key_bit_values(
    k1: u128,
    k2: u128,
    p: u128,
    a: u128,
    c: u128,
    m: u128,
    x: u32,
    y: u32,
    z: u32,
    x2: u32,
    y2: u32,
    z2: u32,
    r: u128,
)
    requires
        k1 == morton(x, y, z),
        k2 == morton(x2, y2, z2),
        m < 32,
        r < 3,
        p == 32 + 3 * m + r,
        r == 0 ==> a == x as u128 && c == x2 as u128,
        r == 1 ==> a == y as u128 && c == y2 as u128,
        r == 2 ==> a == z as u128 && c == z2 as u128,
        bit_of(a, m) == 0,
        bit_of(c, m) == 1,
    ensures
        (k1 >> p) & 1 == 0,
        (k2 >> p) & 1 == 1,
{
    lemma_morton_is_key(x, y, z);
    lemma_morton_is_key(x2, y2, z2);
    if r == 0 {
        assert(key_x_bit(k1, m) == bit_of(x as u128, m));
        assert(key_x_bit(k2, m) == bit_of(x2 as u128, m));
    } else if r == 1 {
        assert(key_y_bit(k1, m) == bit_of(y as u128, m));
        assert(key_y_bit(k2, m) == bit_of(y2 as u128, m));
    } else {
        assert(key_z_bit(k1, m) == bit_of(z as u128, m));
        assert(key_z_bit(k2, m) == bit_of(z2 as u128, m));
    }
}

/// The highest bit below `q` where `a < c` differ, with the bits above it
/// equal: there `a` has 0 and `c` has 1.
proof fn lemma_top_difference(a: u128, c: u128, q: u128) -> (m: u128)
    requires
        0 < q <= 32,
        a < c,
        a >> q == c >> q,
    ensures
        m < q,
        a >> (m + 1) == c >> (m + 1),
        (a >> m) & 1 == 0,
        (c >> m) & 1 == 1,
    decreases q,
{
    let q1 = (q - 1) as u128;
    if a >> q1 == c >> q1 {
        if q1 == 0 {
            assert(a >> 0u128 == a && c >> 0u128 == c) by (bit_vector);
        }
        lemma_top_difference(a, c, q1)
    } else {
        assert((a >> q1) & 1 == 0 && (c >> q1) & 1 == 1) by (bit_vector)
            requires
                q1 < 32,
                a < c,
                a >> (q1 + 1) == c >> (q1 + 1),
                a >> q1 != c >> q1,
        ;
        q1
    }
}

proof fn lemma_high_bits_agree(a: u128, c: u128, m: u128, mb: u128)
    requires
        m < mb < 32,
        a >> (m + 1) == c >> (m + 1),
    ensures
        bit_of(a, mb) == bit_of(c, mb),
{
    assert((a >> mb) & 1 == (c >> mb) & 1) by (bit_vector)
        requires
            m < mb < 32,
            a >> (m + 1) == c >> (m + 1),
    ;
}

proof fn lemma_bit_facts(a: u128, c: u128, m: u128)
    requires
        (a >> m) & 1 == 0,
        (c >> m) & 1 == 1,
    ensures
        bit_of(a, m) == 0,
        bit_of(c, m) == 1,
{
}

/// Values that agree on every bit from `q` up agree when shifted down by
/// `q`.
proof fn lemma_shift_agrees(a: u128, c: u128, q: u128)
    requires
        q <= 127,
        forall|b: u128| q <= b < 128 ==> #[trigger] bit_of(a, b) == bit_of(c, b),
    ensures
        a >> q == c >> q,
    decreases 127 - q,
{
    assert(bit_of(a, q) == bit_of(c, q));
    if q == 127 {
        assert(a >> 127u128 == c >> 127u128) by (bit_vector)
            requires
                (a >> 127u128) & 1 == (c >> 127u128) & 1,
        ;
    } else {
        lemma_shift_agrees(a, c, (q + 1) as u128);
        assert(a >> q == c >> q) by (bit_vector)
            requires
                q < 127,
                a >> (q + 1) == c >> (q + 1),
                (a >> q) & 1 == (c >> q) & 1,
        ;
    }
}

} // verus!
