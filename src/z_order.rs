use vstd::prelude::*;

verus! {

/// Bit `b` of `v`, as 0 or 1.
pub open spec fn bit_of(v: u128, b: u128) -> u128 {
    (v >> b) & 1
}

/// The bit of a key that holds bit `j` of the x coordinate.
pub open spec fn key_x_bit(key: u128, j: u128) -> u128 {
    (key >> ((32 + 3 * j) as u128)) & 1
}

/// The bit of a key that holds bit `j` of the y coordinate.
pub open spec fn key_y_bit(key: u128, j: u128) -> u128 {
    (key >> ((33 + 3 * j) as u128)) & 1
}

/// The bit of a key that holds bit `j` of the z coordinate.
pub open spec fn key_z_bit(key: u128, j: u128) -> u128 {
    (key >> ((34 + 3 * j) as u128)) & 1
}

/// What a key holds of a grid cell: bit `j` of `x`, `y` and `z` at bits
/// `32 + 3j`, `33 + 3j` and `34 + 3j`, and zero in its lowest 32 bits. This
/// fixes every bit of the key.
pub open spec fn is_key_of(key: u128, x: u32, y: u32, z: u32) -> bool {
    &&& forall|j: u128| j < 32 ==> #[trigger] key_x_bit(key, j) == bit_of(x as u128, j)
    &&& forall|j: u128| j < 32 ==> #[trigger] key_y_bit(key, j) == bit_of(y as u128, j)
    &&& forall|j: u128| j < 32 ==> #[trigger] key_z_bit(key, j) == bit_of(z as u128, j)
    &&& key & 0xFFFF_FFFFu128 == 0
}

/// The bits below `3 * i` of the interleave of `x`, `y` and `z`: bit `j` of
/// each at bits `3j`, `3j + 1` and `3j + 2`.
pub open spec fn interleave(x: u128, y: u128, z: u128, i: nat) -> u128
    decreases i,
{
    if i == 0 {
        0
    } else {
        let j = (i - 1) as u128;
        interleave(x, y, z, (i - 1) as nat) | (((x >> j) & 1) << ((3 * j) as u128)) | (((y >> j)
            & 1) << ((3 * j + 1) as u128)) | (((z >> j) & 1) << ((3 * j + 2) as u128))
    }
}

/// The Morton key of a grid cell: the 96-bit interleave of its coordinates
/// in the top bits of a `u128`.
pub open spec fn morton(x: u32, y: u32, z: u32) -> u128 {
    interleave(x as u128, y as u128, z as u128, 32) << 32
}

spec fn low_x_bit(v: u128, j: u128) -> u128 {
    (v >> ((3 * j) as u128)) & 1
}

spec fn low_y_bit(v: u128, j: u128) -> u128 {
    (v >> ((3 * j + 1) as u128)) & 1
}

spec fn low_z_bit(v: u128, j: u128) -> u128 {
    (v >> ((3 * j + 2) as u128)) & 1
}

/// Z-order (Morton) key of a grid cell.
///
/// Keys sort cells along the Z-order curve; the length of the common prefix
/// of two keys, divided by three, is the depth of the smallest octree cell
/// that holds both.
pub fn z_order_curve(x: u32, y: u32, z: u32) -> (r: u128)
    ensures
        r == morton(x, y, z),
        is_key_of(r, x, y, z),
{
    let xw = x as u128;
    let yw = y as u128;
    let zw = z as u128;
    let mut result: u128 = 0;
    let mut i: u128 = 0;
    assert(0u128 >> 0u128 == 0) by (bit_vector);
    while i < 32
        invariant
            i <= 32,
            xw == x as u128,
            yw == y as u128,
            zw == z as u128,
            result == interleave(xw, yw, zw, i as nat),
            result >> ((3 * i) as u128) == 0,
            forall|j: u128| j < i ==> #[trigger] low_x_bit(result, j) == bit_of(xw, j),
            forall|j: u128| j < i ==> #[trigger] low_y_bit(result, j) == bit_of(yw, j),
            forall|j: u128| j < i ==> #[trigger] low_z_bit(result, j) == bit_of(zw, j),
        decreases 32 - i,
    {
        let xm = (xw >> i) & 1;
        let ym = (yw >> i) & 1;
        let zm = (zw >> i) & 1;
        let next = result | (xm << (3 * i)) | (ym << (3 * i + 1)) | (zm << (3 * i + 2));
        proof {
            lemma_interleave_step(result, next, xw, yw, zw, i);
            assert forall|j: u128|
                #![trigger low_x_bit(next, j)]
                #![trigger low_y_bit(next, j)]
                #![trigger low_z_bit(next, j)]
                j < i + 1 implies low_x_bit(next, j) == bit_of(
                xw,
                j,
            ) && low_y_bit(next, j) == bit_of(yw, j) && low_z_bit(next, j) == bit_of(zw, j) by {
                if j < i {
                    lemma_interleave_keeps(result, next, xw, yw, zw, i, j);
                    assert(low_x_bit(result, j) == bit_of(xw, j));
                    assert(low_y_bit(result, j) == bit_of(yw, j));
                    assert(low_z_bit(result, j) == bit_of(zw, j));
                }
            }
        }
        result = next;
        i = i + 1;
    }
    let r = result << 32;
    proof {
        assert forall|j: u128|
            #![trigger key_x_bit(r, j)]
            #![trigger key_y_bit(r, j)]
            #![trigger key_z_bit(r, j)]
            j < 32 implies key_x_bit(r, j) == low_x_bit(result, j)
            && key_y_bit(r, j) == low_y_bit(result, j) && key_z_bit(r, j) == low_z_bit(
            result,
            j,
        ) by {
            lemma_shift_key(result, r, j);
        }
        assert(r & 0xFFFF_FFFFu128 == 0) by (bit_vector)
            requires
                r == result << 32,
        ;
    }
    r
}

proof fn lemma_interleave_step(result: u128, next: u128, xw: u128, yw: u128, zw: u128, i: u128)
    requires
        i < 32,
        result >> ((3 * i) as u128) == 0,
        next == result | (((xw >> i) & 1) << (3 * i)) | (((yw >> i) & 1) << (3 * i + 1)) | (((zw
            >> i) & 1) << (3 * i + 2)),
    ensures
        (next >> ((3 * i) as u128)) & 1 == (xw >> i) & 1,
        (next >> ((3 * i + 1) as u128)) & 1 == (yw >> i) & 1,
        (next >> ((3 * i + 2) as u128)) & 1 == (zw >> i) & 1,
        next >> ((3 * i + 3) as u128) == 0,
{
    assert((next >> ((3 * i) as u128)) & 1 == (xw >> i) & 1 && (next >> ((3 * i + 1) as u128)) & 1
        == (yw >> i) & 1 && (next >> ((3 * i + 2) as u128)) & 1 == (zw >> i) & 1 && next >> ((3 * i
        + 3) as u128) == 0) by (bit_vector)
        requires
            i < 32,
            result >> ((3 * i) as u128) == 0,
            next == result | (((xw >> i) & 1) << (3 * i)) | (((yw >> i) & 1) << (3 * i + 1)) | (((
            zw >> i) & 1) << (3 * i + 2)),
    ;
}

proof fn lemma_interleave_keeps(
    result: u128,
    next: u128,
    xw: u128,
    yw: u128,
    zw: u128,
    i: u128,
    j: u128,
)
    requires
        j < i,
        i < 32,
        next == result | (((xw >> i) & 1) << (3 * i)) | (((yw >> i) & 1) << (3 * i + 1)) | (((zw
            >> i) & 1) << (3 * i + 2)),
    ensures
        (next >> ((3 * j) as u128)) & 1 == (result >> ((3 * j) as u128)) & 1,
        (next >> ((3 * j + 1) as u128)) & 1 == (result >> ((3 * j + 1) as u128)) & 1,
        (next >> ((3 * j + 2) as u128)) & 1 == (result >> ((3 * j + 2) as u128)) & 1,
{
    assert((next >> ((3 * j) as u128)) & 1 == (result >> ((3 * j) as u128)) & 1 && (next >> ((3 * j
        + 1) as u128)) & 1 == (result >> ((3 * j + 1) as u128)) & 1 && (next >> ((3 * j
        + 2) as u128)) & 1 == (result >> ((3 * j + 2) as u128)) & 1) by (bit_vector)
        requires
            j < i,
            i < 32,
            next == result | (((xw >> i) & 1) << (3 * i)) | (((yw >> i) & 1) << (3 * i + 1)) | (((
            zw >> i) & 1) << (3 * i + 2)),
    ;
}

proof fn lemma_shift_key(result: u128, r: u128, j: u128)
    requires
        j < 32,
        result >> 96 == 0,
        r == result << 32,
    ensures
        (r >> ((32 + 3 * j) as u128)) & 1 == (result >> ((3 * j) as u128)) & 1,
        (r >> ((33 + 3 * j) as u128)) & 1 == (result >> ((3 * j + 1) as u128)) & 1,
        (r >> ((34 + 3 * j) as u128)) & 1 == (result >> ((3 * j + 2) as u128)) & 1,
{
    assert((r >> ((32 + 3 * j) as u128)) & 1 == (result >> ((3 * j) as u128)) & 1 && (r >> ((33
        + 3 * j) as u128)) & 1 == (result >> ((3 * j + 1) as u128)) & 1 && (r >> ((34 + 3
        * j) as u128)) & 1 == (result >> ((3 * j + 2) as u128)) & 1) by (bit_vector)
        requires
            j < 32,
            result >> 96 == 0,
            r == result << 32,
    ;
}

/// The Morton key of a cell has the bit layout that `is_key_of` states.
pub proof fn lemma_morton_is_key(x: u32, y: u32, z: u32)
    ensures
        is_key_of(morton(x, y, z), x, y, z),
{
    let xw = x as u128;
    let yw = y as u128;
    let zw = z as u128;
    lemma_interleave_bits(xw, yw, zw, 32);
    let result = interleave(xw, yw, zw, 32);
    let r = morton(x, y, z);
    assert(r == result << 32);
    assert forall|j: u128|
        #![trigger key_x_bit(r, j)]
        #![trigger key_y_bit(r, j)]
        #![trigger key_z_bit(r, j)]
        j < 32 implies key_x_bit(r, j) == bit_of(xw, j) && key_y_bit(r, j) == bit_of(yw, j)
        && key_z_bit(r, j) == bit_of(zw, j) by {
        lemma_shift_key(result, r, j);
        assert(low_x_bit(result, j) == bit_of(xw, j));
        assert(low_y_bit(result, j) == bit_of(yw, j));
        assert(low_z_bit(result, j) == bit_of(zw, j));
    }
    assert(r & 0xFFFF_FFFFu128 == 0) by (bit_vector)
        requires
            r == result << 32,
    ;
}

proof fn lemma_interleave_bits(xw: u128, yw: u128, zw: u128, i: u128)
    requires
        i <= 32,
    ensures
        interleave(xw, yw, zw, i as nat) >> ((3 * i) as u128) == 0,
        forall|j: u128|
            j < i ==> #[trigger] low_x_bit(interleave(xw, yw, zw, i as nat), j) == bit_of(xw, j),
        forall|j: u128|
            j < i ==> #[trigger] low_y_bit(interleave(xw, yw, zw, i as nat), j) == bit_of(yw, j),
        forall|j: u128|
            j < i ==> #[trigger] low_z_bit(interleave(xw, yw, zw, i as nat), j) == bit_of(zw, j),
    decreases i,
{
    if i == 0 {
        assert(0u128 >> 0u128 == 0) by (bit_vector);
    } else {
        let p = (i - 1) as u128;
        lemma_interleave_bits(xw, yw, zw, p);
        let result = interleave(xw, yw, zw, p as nat);
        let next = interleave(xw, yw, zw, i as nat);
        assert(next == result | (((xw >> p) & 1) << (3 * p)) | (((yw >> p) & 1) << (3 * p + 1)) | (((
        zw >> p) & 1) << (3 * p + 2)));
        lemma_interleave_step(result, next, xw, yw, zw, p);
        assert forall|j: u128|
            #![trigger low_x_bit(next, j)]
            #![trigger low_y_bit(next, j)]
            #![trigger low_z_bit(next, j)]
            j < i implies low_x_bit(next, j) == bit_of(xw, j) && low_y_bit(next, j) == bit_of(
                yw,
                j,
            ) && low_z_bit(next, j) == bit_of(zw, j) by {
            if j < p {
                lemma_interleave_keeps(result, next, xw, yw, zw, p, j);
                assert(low_x_bit(result, j) == bit_of(xw, j));
                assert(low_y_bit(result, j) == bit_of(yw, j));
                assert(low_z_bit(result, j) == bit_of(zw, j));
            }
        }
    }
}

} // verus!
