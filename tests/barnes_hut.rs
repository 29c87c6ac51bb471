use cosmic_system::celestial_body::CelestialBody;
use cosmic_system::cosmic_system::{
    comparison_factor, get_octant, index_of_1, side_length, BuildError, CosmicSystem,
    Interaction, DOMAIN_SIDE, MAX_TOTAL_MASS, NO_SPLIT,
};
use cosmic_system::node::CosmicSystemNode;
use cosmic_system::celestial_body_extensions::{CelestialBodyForces, GridVector};
use cosmic_system::simulation::integrate;
use cosmic_system::z_order::z_order_curve;

/// Deterministic pseudo-random numbers for the test configurations.
struct Lcg(u64);

impl Lcg {
    fn next(&mut self) -> u64 {
        self.0 = self
            .0
            .wrapping_mul(6364136223846793005)
            .wrapping_add(1442695040888963407);
        self.0 >> 33
    }
}

fn random_bodies(seed: u64, count: usize) -> Vec<CelestialBody> {
    let mut rng = Lcg(seed);
    (0..count)
        .map(|i| {
            let mass = 1 + (rng.next() % 1000) as u128;
            let x = (rng.next() as u32) << 1;
            let y = (rng.next() as u32) << 1;
            let z = (rng.next() as u32) << 1;
            CelestialBody::new(i, mass, x, y, z)
        })
        .collect()
}

fn pull(from: [f64; 3], mass: f64, to: [f64; 3]) -> [f64; 3] {
    let delta = [to[0] - from[0], to[1] - from[1], to[2] - from[2]];
    let d2 = delta[0] * delta[0] + delta[1] * delta[1] + delta[2] * delta[2];
    if d2 == 0.0 {
        return [0.0; 3];
    }
    let f = mass / (d2 * d2.sqrt());
    [delta[0] * f, delta[1] * f, delta[2] * f]
}

fn cell(c: &CelestialBody) -> [f64; 3] {
    [c.x as f64, c.y as f64, c.z as f64]
}

fn add(a: [f64; 3], b: [f64; 3]) -> [f64; 3] {
    [a[0] + b[0], a[1] + b[1], a[2] + b[2]]
}

fn norm(a: [f64; 3]) -> f64 {
    (a[0] * a[0] + a[1] * a[1] + a[2] * a[2]).sqrt()
}

fn tree_force(system: &CosmicSystem, bodies: &Vec<CelestialBody>, slot: usize) -> [f64; 3] {
    let me = cell(&bodies[slot]);
    let mut total = [0.0; 3];
    for term in system.gravitational_force_zero_mass(slot, bodies) {
        let contribution = match term {
            Interaction::Body(j) => pull(me, bodies[j].mass as f64, cell(&bodies[j])),
            Interaction::Cluster { node, .. } => {
                let nd = system.node(node);
                let m = nd.mass as f64;
                let center = [
                    nd.moment_x as f64 / m,
                    nd.moment_y as f64 / m,
                    nd.moment_z as f64 / m,
                ];
                pull(me, m, center)
            }
        };
        total = add(total, contribution);
    }
    total
}

fn direct_force(bodies: &Vec<CelestialBody>, slot: usize) -> [f64; 3] {
    let me = cell(&bodies[slot]);
    let mut total = [0.0; 3];
    for (j, other) in bodies.iter().enumerate() {
        if j != slot {
            total = add(total, pull(me, other.mass as f64, cell(other)));
        }
    }
    total
}

fn built(bodies: &mut Vec<CelestialBody>) -> CosmicSystem {
    let mut system = CosmicSystem::new(bodies.len());
    assert_eq!(system.set_all(bodies), Ok(()));
    system
}

#[test]
fn test_side_length() {
    assert_eq!(
        side_length(index_of_1(0b1000 << 124, 0b0101 << 124)),
        DOMAIN_SIDE
    );
    assert_eq!(
        side_length(index_of_1(0b1000 << 124, 0b1101 << 124)),
        DOMAIN_SIDE
    );
    assert_eq!(
        side_length(index_of_1(0b1000 << 124, 0b1001 << 124)),
        DOMAIN_SIDE / 2
    );
}

#[test]
fn test_z_order_curve() {
    // The unit cube scaled to the grid: 0 -> 0000.., 0.5 -> 0111.., 0.75 -> 1011..
    let scale = u32::MAX as f64;
    let x = (0.0 * scale) as u32;
    let y = (0.5 * scale) as u32;
    let z = (0.75 * scale) as u32;
    let result = z_order_curve(x, y, z);
    assert_eq!(result, 0b100010110110110110110110110110110110110110110110110110110110110110110110110110110110110110110110u128 << 32);
}

#[test]
fn key_differs_in_one_predictable_bit() {
    for j in [0u32, 5, 17, 31] {
        let a = z_order_curve(0x1234_5678, 77, 0xFFFF_0000);
        let b = z_order_curve(0x1234_5678 ^ (1 << j), 77, 0xFFFF_0000);
        assert_eq!(a ^ b, 1u128 << (32 + 3 * j));
    }
    assert_eq!(z_order_curve(1, 0, 0), 1u128 << 32);
    assert_eq!(z_order_curve(0, 1, 0), 1u128 << 33);
    assert_eq!(z_order_curve(0, 0, 1), 1u128 << 34);
}

#[test]
fn index_of_1_values() {
    assert_eq!(index_of_1(5, 5), NO_SPLIT);
    assert_eq!(index_of_1(0, 1), 127);
    assert_eq!(index_of_1(1u128 << 127, 0), 0);
    assert_eq!(index_of_1(0b1000 << 124, 0b1001 << 124), 3);
}

#[test]
fn comparison_factor_values() {
    assert_eq!(comparison_factor(NO_SPLIT), -1);
    assert_eq!(comparison_factor(0), 1i128 << 64);
    assert_eq!(comparison_factor(3), 1i128 << 62);
    assert_eq!(comparison_factor(5), 1i128 << 62);
    assert_eq!(comparison_factor(96), 1);
    assert_eq!(comparison_factor(99), 0);
}

#[test]
fn get_octant_takes_top_three_bits() {
    let mut key: u128 = (0b101u128 << 125) | 1;
    assert_eq!(get_octant(&mut key), 5);
    assert_eq!(key, 8);
    assert_eq!(get_octant(&mut key), 0);
    assert_eq!(key, 64);
}

#[test]
fn root_holds_total_mass() {
    let mut bodies = random_bodies(7, 37);
    let total: u128 = bodies.iter().map(|c| c.mass).sum();
    let system = built(&mut bodies);
    let root = system.node(1);
    assert_eq!(root.mass, total);
    let moment_x: u128 = bodies.iter().map(|c| c.mass * c.x as u128).sum();
    assert_eq!(root.moment_x, moment_x);
    let leaves: u128 = (system.capacity() / 2..system.capacity())
        .map(|k| system.node(k).mass)
        .sum();
    assert_eq!(leaves, total);
}

#[test]
fn single_body_feels_no_force() {
    let mut bodies = vec![CelestialBody::new(0, 1000, 5, 6, 7)];
    let system = built(&mut bodies);
    assert!(system.gravitational_force_zero_mass(0, &bodies).is_empty());
    assert_eq!(tree_force(&system, &bodies, 0), [0.0; 3]);
}

#[test]
fn coincident_bodies_do_not_pull_themselves() {
    let mut bodies = vec![
        CelestialBody::new(0, 10, 100, 100, 100),
        CelestialBody::new(1, 20, 100, 100, 100),
        CelestialBody::new(2, 30, 1 << 31, 1 << 31, 1 << 31),
    ];
    let mut system = CosmicSystem::new(8);
    assert_eq!(system.set_all(&mut bodies), Ok(()));
    for slot in 0..3 {
        let terms = system.gravitational_force_zero_mass(slot, &bodies);
        for j in 0..3 {
            let count = terms
                .iter()
                .filter(|t| match t {
                    Interaction::Body(s) => *s == j,
                    Interaction::Cluster { first, end, .. } => *first <= j && j < *end,
                })
                .count();
            assert_eq!(count, if j == slot { 0 } else { 1 });
        }
    }
}

#[test]
fn two_bodies_pull_each_other_equally() {
    let mut bodies = vec![
        CelestialBody::new(0, 500, 1000, 2000, 3000),
        CelestialBody::new(1, 500, 9000, 100, 4000),
    ];
    let system = built(&mut bodies);
    assert_eq!(
        system.gravitational_force_zero_mass(0, &bodies),
        vec![Interaction::Body(1)]
    );
    assert_eq!(
        system.gravitational_force_zero_mass(1, &bodies),
        vec![Interaction::Body(0)]
    );
    let a = tree_force(&system, &bodies, 0);
    let b = tree_force(&system, &bodies, 1);
    for axis in 0..3 {
        assert!((a[axis] + b[axis]).abs() <= 1e-12 * a[axis].abs().max(1e-300));
    }
}

#[test]
fn tree_force_is_close_to_direct_sum() {
    let acceptance_angle = 1.0;
    for seed in [1u64, 2, 3] {
        let mut bodies = random_bodies(seed, 50);
        let system = built(&mut bodies);
        for slot in 0..bodies.len() {
            let approx = tree_force(&system, &bodies, slot);
            let exact = direct_force(&bodies, slot);
            let error = norm([
                approx[0] - exact[0],
                approx[1] - exact[1],
                approx[2] - exact[2],
            ]);
            let scale: f64 = (0..bodies.len())
                .filter(|j| *j != slot)
                .map(|j| norm(pull(cell(&bodies[slot]), bodies[j].mass as f64, cell(&bodies[j]))))
                .sum();
            // The error is bounded against the sum of the magnitudes of the
            // pulls, since the net force may nearly cancel.
            assert!(
                error <= 0.15 * acceptance_angle * scale,
                "seed {} slot {}",
                seed,
                slot
            );
        }
    }
}

#[test]
fn query_point_sees_every_body() {
    let mut bodies = random_bodies(11, 20);
    let system = built(&mut bodies);
    let terms = system.query_force(1 << 31, 1 << 31, 1 << 31, &bodies);
    let mut seen = vec![0; bodies.len()];
    for t in &terms {
        match t {
            Interaction::Body(s) => seen[*s] += 1,
            Interaction::Cluster { first, end, .. } => {
                for j in *first..*end {
                    seen[j] += 1;
                }
            }
        }
    }
    assert!(seen.iter().all(|c| *c == 1));
}

#[test]
fn rebuild_is_idempotent() {
    let mut bodies = random_bodies(5, 29);
    let mut system = CosmicSystem::new(29);
    assert_eq!(system.set_all(&mut bodies), Ok(()));
    let first: Vec<CosmicSystemNode> = (0..system.capacity()).map(|k| system.node(k)).collect();
    let sorted: Vec<(usize, u128)> = bodies.iter().map(|c| (c.index, c.key)).collect();
    assert_eq!(system.set_all(&mut bodies), Ok(()));
    let second: Vec<CosmicSystemNode> = (0..system.capacity()).map(|k| system.node(k)).collect();
    let again: Vec<(usize, u128)> = bodies.iter().map(|c| (c.index, c.key)).collect();
    assert_eq!(first, second);
    assert_eq!(sorted, again);
}

#[test]
fn capacity_grows_without_losing_bodies() {
    let mut system = CosmicSystem::new(4);
    assert_eq!(system.capacity(), 4);
    let mut bodies = random_bodies(9, 4);
    assert_eq!(system.set_all(&mut bodies), Ok(()));
    assert_eq!(system.capacity(), 4);
    let mut bodies = random_bodies(9, 10);
    let total: u128 = bodies.iter().map(|c| c.mass).sum();
    assert_eq!(system.set_all(&mut bodies), Ok(()));
    assert_eq!(system.capacity(), 16);
    let mut ids: Vec<usize> = bodies.iter().map(|c| c.index).collect();
    ids.sort();
    assert_eq!(ids, (0..10).collect::<Vec<_>>());
    assert!(bodies.windows(2).all(|w| w[0].key <= w[1].key));
    assert_eq!(system.node(1).mass, total);
}

#[test]
fn new_rounds_capacity_up() {
    assert_eq!(CosmicSystem::new(0).capacity(), 1);
    assert_eq!(CosmicSystem::new(1).capacity(), 1);
    assert_eq!(CosmicSystem::new(5).capacity(), 8);
    assert_eq!(CosmicSystem::new(8).capacity(), 8);
}

#[test]
fn zero_mass_is_rejected() {
    let mut bodies = vec![
        CelestialBody::new(0, 10, 1, 2, 3),
        CelestialBody::new(1, 0, 4, 5, 6),
    ];
    let mut system = CosmicSystem::new(2);
    assert_eq!(system.set_all(&mut bodies), Err(BuildError::NonPositiveMass));
    assert_eq!(system.node(1), CosmicSystemNode::default());
}

#[test]
fn too_much_mass_is_rejected() {
    let mut bodies = vec![
        CelestialBody::new(0, MAX_TOTAL_MASS, 1, 2, 3),
        CelestialBody::new(1, 1, 4, 5, 6),
    ];
    let mut system = CosmicSystem::new(2);
    assert_eq!(system.set_all(&mut bodies), Err(BuildError::MassOverflow));
    let mut bodies = vec![CelestialBody::new(0, MAX_TOTAL_MASS, u32::MAX, u32::MAX, u32::MAX)];
    assert_eq!(system.set_all(&mut bodies), Ok(()));
}

#[test]
fn equal_keys_make_a_closed_node() {
    let mut bodies = vec![
        CelestialBody::new(0, 3, 42, 42, 42),
        CelestialBody::new(1, 4, 42, 42, 42),
    ];
    let system = built(&mut bodies);
    let root = system.node(1);
    assert_eq!(root.index_of_1, NO_SPLIT);
    assert_eq!(root.comparison_factor, -1);
    assert_eq!(root.mass, 7);
    assert_eq!(root.moment_y, 7 * 42);
}

#[test]
fn sort_is_stable_by_key() {
    let mut bodies = vec![
        CelestialBody::new(0, 1, 9, 9, 9),
        CelestialBody::new(1, 1, 1, 1, 1),
        CelestialBody::new(2, 1, 9, 9, 9),
        CelestialBody::new(3, 1, 1, 1, 1),
    ];
    let _system = built(&mut bodies);
    let ids: Vec<usize> = bodies.iter().map(|c| c.index).collect();
    assert_eq!(ids, vec![1, 3, 0, 2]);
    assert_eq!(bodies[0].key, z_order_curve(1, 1, 1));
}

#[test]
fn integrate_uses_identity() {
    let mut bodies = vec![
        CelestialBody::new(1, 1, 10, 10, 10),
        CelestialBody::new(0, 1, 0, 5, u32::MAX - 1),
    ];
    let forces = vec![
        GridVector { x: 1, y: 1, z: 1 },
        GridVector { x: -3, y: 0, z: 5 },
    ];
    let mut movements = vec![
        GridVector { x: -4, y: 0, z: 0 },
        GridVector { x: 1, y: 2, z: 3 },
    ];
    integrate(&mut bodies, &forces, &mut movements);
    assert_eq!(movements[1], GridVector { x: 2, y: 3, z: 4 });
    assert_eq!(movements[0], GridVector { x: -7, y: 0, z: 5 });
    assert_eq!((bodies[0].x, bodies[0].y, bodies[0].z), (12, 13, 14));
    assert_eq!((bodies[1].x, bodies[1].y, bodies[1].z), (0, 5, u32::MAX));
}

#[test]
fn forces_update_saturates() {
    let mut state = CelestialBodyForces {
        current_force_zero_mass: GridVector { x: i64::MAX, y: -1, z: 0 },
        current_movement: GridVector { x: 10, y: 0, z: 0 },
    };
    let mut body = CelestialBody::new(0, 1, 5, 5, 5);
    state.update(&mut body);
    assert_eq!(state.current_movement, GridVector { x: i64::MAX, y: -1, z: 0 });
    assert_eq!((body.x, body.y, body.z), (u32::MAX, 4, 5));
}

#[test]
fn distance_is_squared_in_cells() {
    let a = CelestialBody::new(0, 1, 0, 0, 0);
    let b = CelestialBody::new(1, 1, 3, 4, 12);
    assert_eq!(a.distance_to_squared(&b), 169);
    let far = CelestialBody::new(2, 1, u32::MAX, u32::MAX, u32::MAX);
    assert_eq!(a.distance_to_squared(&far), 3 * (u32::MAX as u128) * (u32::MAX as u128));
}

#[test]
fn node_body_is_center_of_mass() {
    let mut bodies = vec![
        CelestialBody::new(0, 1, 0, 0, 0),
        CelestialBody::new(1, 3, 8, 4, 1u32 << 31),
    ];
    let system = built(&mut bodies);
    let c = system.node(1).body();
    assert_eq!(c.mass, 4);
    assert_eq!((c.x, c.y, c.z), (6, 3, 3u32 << 29));
}

#[test]
fn keys_grow_along_each_axis() {
    let base = (0x0F0F_0F0Fu32, 0x1234_5678u32, 0x8000_0001u32);
    for step in [1u32, 2, 255, 0x1000_0000] {
        let k = z_order_curve(base.0, base.1, base.2);
        assert!(k < z_order_curve(base.0 + step, base.1, base.2));
        assert!(k < z_order_curve(base.0, base.1 + step, base.2));
        assert!(k < z_order_curve(base.0, base.1, base.2 + step));
    }
    assert_ne!(z_order_curve(1, 2, 3), z_order_curve(1, 3, 2));
}

#[test]
fn low_bit_differences_stay_in_low_levels() {
    let a = z_order_curve(0xABCD_0000, 99, 7);
    let b = z_order_curve(0xABCD_00FF, 99, 7);
    let diff = a ^ b;
    let mask: u128 = (0..8).map(|i| 1u128 << (32 + 3 * i)).sum();
    assert_eq!(diff, mask);
}

#[test]
fn failed_rebuild_keeps_capacity() {
    let mut system = CosmicSystem::new(2);
    let mut bodies = vec![
        CelestialBody::new(0, 0, 1, 2, 3),
        CelestialBody::new(1, 1, 4, 5, 6),
        CelestialBody::new(2, 1, 7, 8, 9),
    ];
    assert_eq!(system.set_all(&mut bodies), Err(BuildError::NonPositiveMass));
    assert_eq!(system.capacity(), 2);
}
