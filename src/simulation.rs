use vstd::prelude::*;

use crate::celestial_body::CelestialBody;
use crate::celestial_body_extensions::{add_vectors, move_body, moved, GridVector};

verus! {

/// Identities of the bodies are distinct and index `movements`.
pub open spec fn identities_ok(bodies: Seq<CelestialBody>, n_movements: int) -> bool {
    &&& forall|i: int| 0 <= i < bodies.len() ==> #[trigger] bodies[i].index < n_movements
    &&& forall|i: int, j: int|
        0 <= i < j < bodies.len() ==> #[trigger] bodies[i].index != #[trigger] bodies[j].index
}

/// Applies the changes of velocity of one step, after every force of the
/// step was computed: the body in slot `i` adds `forces[i]` to the velocity
/// stored under its identity, then moves by it. Velocities are found by
/// identity, not by slot, since the slots follow the key order.
pub fn integrate(
    bodies: &mut Vec<CelestialBody>,
    forces: &Vec<GridVector>,
    movements: &mut Vec<GridVector>,
)
    requires
        forces@.len() == old(bodies)@.len(),
        identities_ok(old(bodies)@, old(movements)@.len() as int),
    ensures
        final(bodies)@.len() == old(bodies)@.len(),
        final(movements)@.len() == old(movements)@.len(),
        forall|i: int|
            0 <= i < old(bodies)@.len() ==> final(movements)@[#[trigger] old(bodies)@[i].index as int]
                == add_vectors(old(movements)@[old(bodies)@[i].index as int], forces@[i]),
        forall|i: int|
            0 <= i < old(bodies)@.len() ==> #[trigger] final(bodies)@[i] == moved(
                old(bodies)@[i],
                final(movements)@[old(bodies)@[i].index as int],
            ),
        forall|m: int|
            0 <= m < old(movements)@.len() && (forall|i: int|
                0 <= i < old(bodies)@.len() ==> #[trigger] old(bodies)@[i].index != m)
                ==> #[trigger] final(movements)@[m] == old(movements)@[m],
{
    let n = bodies.len();
    let mut i: usize = 0;
    while i < n
        invariant
            n == bodies@.len(),
            n == old(bodies)@.len(),
            forces@.len() == n,
            movements@.len() == old(movements)@.len(),
            identities_ok(old(bodies)@, old(movements)@.len() as int),
            i <= n,
            forall|j: int| i <= j < n ==> #[trigger] bodies@[j] == old(bodies)@[j],
            forall|j: int|
                0 <= j < i ==> movements@[#[trigger] old(bodies)@[j].index as int] == add_vectors(
                    old(movements)@[old(bodies)@[j].index as int],
                    forces@[j],
                ),
            forall|j: int|
                0 <= j < i ==> #[trigger] bodies@[j] == moved(
                    old(bodies)@[j],
                    movements@[old(bodies)@[j].index as int],
                ),
            forall|m: int|
                0 <= m < old(movements)@.len() && (forall|j: int|
                    0 <= j < i ==> #[trigger] old(bodies)@[j].index != m) ==> #[trigger] movements@[m]
                    == old(movements)@[m],
        decreases n - i,
    {
        let c = bodies[i];
        let id = c.index;
        proof {
            assert(c == old(bodies)@[i as int]);
            assert(forall|j: int| 0 <= j < i ==> #[trigger] old(bodies)@[j].index != id);
        }
        let v = movements[id].add(&forces[i]);
        movements.set(id, v);
        let mut b = c;
        move_body(&mut b, &v);
        bodies.set(i, b);
        proof {
            assert forall|j: int| 0 <= j < i + 1 implies movements@[#[trigger] old(
                bodies,
            )@[j].index as int] == add_vectors(
                old(movements)@[old(bodies)@[j].index as int],
                forces@[j],
            ) by {
                if j < i {
                    assert(old(bodies)@[j].index != id);
                }
            }
            assert forall|j: int| 0 <= j < i + 1 implies #[trigger] bodies@[j] == moved(
                old(bodies)@[j],
                movements@[old(bodies)@[j].index as int],
            ) by {
                if j < i {
                    assert(old(bodies)@[j].index != id);
                }
            }
            assert forall|m: int|
                0 <= m < old(movements)@.len() && (forall|j: int|
                    0 <= j < i + 1 ==> #[trigger] old(bodies)@[j].index != m) implies #[trigger] movements@[m]
                == old(movements)@[m] by {
                assert(old(bodies)@[i as int].index != m);
            }
        }
        i = i + 1;
    }
}

} // verus!
