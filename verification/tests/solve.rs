use loam::body::{BodyArena, BodyId};
use loam::solve::{gather_islands, scatter_islands, SCATTERED_NOWHERE};
use loam::world::{canonical_pair, collect_constraints, ConstraintUnit, PairKey};

fn spawn_all(n: usize) -> (BodyArena<u32>, Vec<BodyId>) {
    let mut arena = BodyArena::new();
    let ids = (0..n).map(|i| arena.spawn(i as u32)).collect();
    (arena, ids)
}

fn key(a: BodyId, b: BodyId) -> PairKey {
    canonical_pair(a, b)
}

fn units_of(arena: &BodyArena<u32>, dynamic: &[bool], order: &[PairKey]) -> Vec<ConstraintUnit> {
    let mut parent = Vec::new();
    let mut labels = Vec::new();
    collect_constraints(arena, dynamic, order, &mut parent, &mut labels)
}

#[test]
fn islands_take_one_copy_of_each_dynamic_body_and_one_per_use_of_a_static_one() {
    let (arena, ids) = spawn_all(5);
    let dynamic = vec![false, true, true, true, true];
    let order = vec![
        key(ids[0], ids[1]),
        key(ids[0], ids[3]),
        key(ids[1], ids[2]),
        key(ids[3], ids[4]),
    ];
    let units = units_of(&arena, &dynamic, &order);
    let bodies: Vec<u32> = vec![100, 101, 102, 103, 104];
    let points: Vec<Vec<u8>> = units.iter().map(|u| vec![u.dense.1 as u8; 2]).collect();
    let islands = gather_islands(&units, &bodies, &dynamic, &points);
    assert_eq!(islands.len(), 2);

    let first = &islands[0];
    assert_eq!(first.bodies, vec![100, 101, 102]);
    assert_eq!(first.dense, vec![SCATTERED_NOWHERE, 1, 2]);
    assert_eq!(first.units.len(), 2);
    assert_eq!((first.units[0].a, first.units[0].b), (0, 1));
    assert_eq!((first.units[1].a, first.units[1].b), (1, 2));
    assert_eq!(first.points, vec![1, 1, 2, 2]);
    assert_eq!((first.units[1].first, first.units[1].count), (2, 2));

    let second = &islands[1];
    assert_eq!(second.bodies, vec![100, 103, 104]);
    assert_eq!(second.dense, vec![SCATTERED_NOWHERE, 3, 4]);
}

#[test]
fn scattering_writes_back_the_solved_copies_and_never_a_static_body() {
    let (arena, ids) = spawn_all(3);
    let dynamic = vec![false, true, true];
    let order = vec![key(ids[0], ids[1]), key(ids[1], ids[2])];
    let units = units_of(&arena, &dynamic, &order);
    let mut bodies: Vec<u32> = vec![10, 11, 12];
    let points: Vec<Vec<u8>> = vec![Vec::new(), Vec::new()];
    let mut islands = gather_islands(&units, &bodies, &dynamic, &points);

    scatter_islands(&islands, &mut bodies);
    assert_eq!(bodies, vec![10, 11, 12], "an unsolved gather writes back what it took");

    for copy in islands[0].bodies.iter_mut() {
        *copy += 1000;
    }
    scatter_islands(&islands, &mut bodies);
    assert_eq!(bodies, vec![10, 1011, 1012]);
}
