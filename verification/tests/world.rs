use loam::world::split_two_mut;

#[test]
fn split_two_mut_returns_borrows_in_argument_order() {
    let mut slice = [0u32, 1, 2, 3];
    for (i, j) in [(1usize, 3usize), (3, 1)] {
        let (a, b) = split_two_mut(&mut slice, i, j);
        assert_eq!((*a, *b), (i as u32, j as u32), "split_two_mut({i}, {j})");
    }
}

use loam::body::{BodyArena, BodyId};
use loam::collider::ColliderKind;
use loam::dirty::DirtyBodies;
use loam::edit::EditError;
use loam::world::{
    canonical_pair, check_saved_contact, collect_constraints, touched_keys, collision_filters_admit, despawn_body, ContactBody, drop_contacts_of, fill_islands, find_root, islands, recycle_untouched,
    FieldId, FieldTable, Island, PairKey,
};

#[test]
fn canonical_pair_puts_the_lower_handle_first() {
    let a = BodyId::forge(4, 0);
    let b = BodyId::forge(1, 7);
    assert_eq!(canonical_pair(a, b), (b, a));
    assert_eq!(canonical_pair(b, a), (b, a));
    let c = BodyId::forge(4, 1);
    assert_eq!(canonical_pair(c, a), (a, c));
}

#[test]
fn find_root_serves_a_forest_whose_parents_lie_above_their_nodes() {
    let mut parent = vec![1u32, 1, 0, 2];
    assert_eq!(find_root(&mut parent, 3), 1);
    assert_eq!(parent, vec![1, 1, 0, 0]);
    for i in 0..4 {
        assert_eq!(find_root(&mut parent, i), 1);
    }
}

#[test]
fn find_root_halves_the_path_and_keeps_every_root() {
    let mut parent = vec![0u32, 0, 1, 2, 4];
    assert_eq!(find_root(&mut parent, 3), 0);
    assert_eq!(parent, vec![0, 0, 1, 1, 4]);
    assert_eq!(find_root(&mut parent, 4), 4);
    for i in 0..4 {
        assert_eq!(find_root(&mut parent, i), 0);
    }
}

fn spawn_all(n: usize) -> (BodyArena<u32>, Vec<BodyId>) {
    let mut arena = BodyArena::new();
    let ids = (0..n).map(|i| arena.spawn(i as u32)).collect();
    (arena, ids)
}

fn key(a: BodyId, b: BodyId) -> PairKey {
    canonical_pair(a, b)
}

#[test]
fn islands_match_a_flood_fill_of_the_contact_graph() {
    let (arena, ids) = spawn_all(6);
    let dynamic = vec![true; 6];
    let touched = vec![key(ids[0], ids[1]), key(ids[3], ids[4]), key(ids[1], ids[2])];
    let found = islands(&arena, &dynamic, &touched);
    assert_eq!(
        found,
        vec![
            Island {
                id: ids[0],
                bodies: vec![ids[0], ids[1], ids[2]],
                constraints: vec![key(ids[0], ids[1]), key(ids[1], ids[2])],
            },
            Island {
                id: ids[3],
                bodies: vec![ids[3], ids[4]],
                constraints: vec![key(ids[3], ids[4])],
            },
        ]
    );
}

#[test]
fn a_static_body_joins_no_island_and_merges_none() {
    let (arena, ids) = spawn_all(3);
    let dynamic = vec![true, false, true];
    let touched = vec![key(ids[0], ids[1]), key(ids[1], ids[2])];
    let found = islands(&arena, &dynamic, &touched);
    assert_eq!(found.len(), 2);
    assert_eq!(found[0].id, ids[0]);
    assert_eq!(found[0].bodies, vec![ids[0]]);
    assert_eq!(found[0].constraints, vec![key(ids[0], ids[1])]);
    assert_eq!(found[1].id, ids[2]);
    assert_eq!(found[1].bodies, vec![ids[2]]);
    assert_eq!(found[1].constraints, vec![key(ids[1], ids[2])]);
}

#[test]
fn a_contact_between_two_static_bodies_belongs_to_no_island() {
    let (arena, ids) = spawn_all(2);
    let found = islands(&arena, &[false, false], &[key(ids[0], ids[1])]);
    assert!(found.is_empty());
}

#[test]
fn island_ids_are_the_lowest_body_id_not_the_lowest_storage_position() {
    let (mut arena, ids) = spawn_all(4);
    // despawning the first body moves the last one to dense position zero
    arena.despawn(ids[0]).unwrap();
    assert_eq!(arena.id_at(0), ids[3]);
    let dynamic = vec![true; 3];
    let touched = vec![key(ids[3], ids[2]), key(ids[2], ids[1])];
    let found = islands(&arena, &dynamic, &touched);
    assert_eq!(found.len(), 1);
    assert_eq!(found[0].id, ids[1]);
    assert_eq!(found[0].bodies, vec![ids[1], ids[2], ids[3]]);
}

#[test]
fn fill_islands_labels_each_position_with_its_component_minimum() {
    let (arena, ids) = spawn_all(5);
    let dynamic = vec![true, true, true, false, true];
    let touched = vec![key(ids[4], ids[2]), key(ids[3], ids[0])];
    let mut parent = Vec::new();
    let mut labels = Vec::new();
    fill_islands(&arena, &dynamic, &touched, &mut parent, &mut labels);
    assert_eq!(labels, vec![ids[0], ids[1], ids[2], ids[3], ids[2]]);
}

#[test]
fn dropping_a_bodys_contacts_keeps_the_rest_in_order() {
    let (_, ids) = spawn_all(4);
    let mut order = vec![key(ids[0], ids[1]), key(ids[1], ids[2]), key(ids[2], ids[3])];
    let dropped = drop_contacts_of(&mut order, ids[1]);
    assert_eq!(dropped, vec![key(ids[0], ids[1]), key(ids[1], ids[2])]);
    assert_eq!(order, vec![key(ids[2], ids[3])]);
}

#[test]
fn untouched_contacts_are_recycled() {
    let (_, ids) = spawn_all(4);
    let mut order = vec![key(ids[0], ids[1]), key(ids[1], ids[2])];
    let touched = vec![key(ids[1], ids[2]), key(ids[2], ids[3])];
    let dropped = recycle_untouched(&mut order, &touched);
    assert_eq!(dropped, vec![key(ids[0], ids[1])]);
    assert_eq!(order, touched);
}

#[test]
fn field_bindings_stay_sorted_unique_and_refuse_bad_edits() {
    let (mut arena, ids) = spawn_all(3);
    let mut fields = FieldTable::new();
    assert_eq!(fields.insert_field(&arena, &mut Vec::new(), ids[0], anchor_body(false)), Err(EditError::DynamicFieldAnchor));
    let f = fields.insert_field(&arena, &mut Vec::new(), ids[0], anchor_body(true)).unwrap().0;
    assert_eq!(f, FieldId(0));
    assert_eq!(fields.bind_field(&arena, ids[0], f), Err(EditError::AnchorBindsOwnField));
    assert_eq!(fields.bind_field(&arena, ids[1], FieldId(3)), Err(EditError::StaleHandle));
    fields.bind_field(&arena, ids[2], f).unwrap();
    fields.bind_field(&arena, ids[1], f).unwrap();
    fields.bind_field(&arena, ids[2], f).unwrap();
    assert_eq!(fields.bindings(), &[(ids[1], f), (ids[2], f)]);
    assert!(fields.is_anchor(ids[0]));
    assert!(!fields.is_anchor(ids[1]));
    arena.despawn(ids[2]).unwrap();
    assert_eq!(fields.bind_field(&arena, ids[2], f), Err(EditError::StaleHandle));
    fields.unbind_body(ids[2]);
    assert_eq!(fields.bindings(), &[(ids[1], f)]);
    assert_eq!(fields.insert_field(&arena, &mut Vec::new(), ids[2], anchor_body(true)), Err(EditError::StaleHandle));
}

#[test]
fn a_snapshot_with_other_field_anchors_is_refused() {
    let (arena, ids) = spawn_all(3);
    let mut fields = FieldTable::new();
    fields.insert_field(&arena, &mut Vec::new(), ids[0], anchor_body(true)).unwrap().0;
    assert_eq!(fields.check_anchors(&[ids[0]]), Ok(()));
    assert_eq!(fields.check_anchors(&[ids[1]]), Err(EditError::FieldMismatch));
    assert_eq!(fields.check_anchors(&[]), Err(EditError::FieldMismatch));
    assert_eq!(fields.check_anchors(&[ids[0], ids[1]]), Err(EditError::FieldMismatch));
}

#[test]
fn a_snapshots_bindings_must_ascend_and_resolve() {
    let (arena, ids) = spawn_all(3);
    let mut fields = FieldTable::new();
    let f = fields.insert_field(&arena, &mut Vec::new(), ids[0], anchor_body(true)).unwrap().0;
    assert_eq!(fields.check_bindings(&arena, &[(ids[1], f), (ids[2], f)]), Ok(()));
    assert_eq!(fields.check_bindings(&arena, &[]), Ok(()));
    assert_eq!(
        fields.check_bindings(&arena, &[(ids[2], f), (ids[1], f)]),
        Err(EditError::InvalidFieldBinding)
    );
    assert_eq!(
        fields.check_bindings(&arena, &[(ids[1], f), (ids[1], f)]),
        Err(EditError::InvalidFieldBinding)
    );
    assert_eq!(
        fields.check_bindings(&arena, &[(ids[0], f)]),
        Err(EditError::InvalidFieldBinding)
    );
    assert_eq!(
        fields.check_bindings(&arena, &[(ids[1], FieldId(1))]),
        Err(EditError::InvalidFieldBinding)
    );
    let (mut other, more) = spawn_all(3);
    other.despawn(more[2]).unwrap();
    assert_eq!(
        fields.check_bindings(&other, &[(more[2], f)]),
        Err(EditError::InvalidFieldBinding)
    );
    fields.restore_bindings(&[(ids[1], f), (ids[2], f)]);
    assert_eq!(fields.bindings(), &[(ids[1], f), (ids[2], f)]);
}

#[test]
fn despawning_a_body_removes_its_bindings_contacts_and_dirty_flag() {
    let (mut arena, ids) = spawn_all(4);
    let mut fields = FieldTable::new();
    let f = fields.insert_field(&arena, &mut Vec::new(), ids[0], anchor_body(true)).unwrap().0;
    fields.bind_field(&arena, ids[1], f).unwrap();
    fields.bind_field(&arena, ids[2], f).unwrap();
    let mut dirty = DirtyBodies::new();
    dirty.mark(ids[2]);
    dirty.mark(ids[3]);
    let mut contacts = vec![key(ids[1], ids[2]), key(ids[2], ids[3]), key(ids[1], ids[3])];

    assert_eq!(
        despawn_body(&mut arena, &mut fields, &mut dirty, &mut contacts, ids[0]).map(|(b, _)| b),
        Err(EditError::FieldAnchorRemoval)
    );
    assert_eq!(arena.len(), 4);
    assert_eq!(contacts.len(), 3);

    let (body, dropped) =
        despawn_body(&mut arena, &mut fields, &mut dirty, &mut contacts, ids[2]).unwrap();
    assert_eq!(body, 2);
    assert_eq!(dropped, vec![key(ids[1], ids[2]), key(ids[2], ids[3])]);
    assert_eq!(contacts, vec![key(ids[1], ids[3])]);
    assert_eq!(fields.bindings(), &[(ids[1], f)]);
    assert!(arena.get(ids[2]).is_none());
    assert_eq!(dirty.drain(&arena), vec![ids[3]]);

    assert_eq!(
        despawn_body(&mut arena, &mut fields, &mut dirty, &mut contacts, ids[2]).map(|(b, _)| b),
        Err(EditError::StaleHandle)
    );
    assert_eq!(contacts, vec![key(ids[1], ids[3])]);
}

fn anchor_body(is_static: bool) -> ContactBody {
    body(ColliderKind::Box3, is_static, 1, u32::MAX)
}

#[test]
fn a_field_anchor_leaves_its_collision_groups_and_contacts() {
    let (arena, ids) = spawn_all(3);
    let mut fields = FieldTable::new();
    let mut contacts: Vec<PairKey> = vec![(ids[0], ids[1]), (ids[1], ids[2]), (ids[0], ids[2])];
    let refused = fields.insert_field(&arena, &mut contacts, ids[0], anchor_body(false));
    assert_eq!(refused, Err(EditError::DynamicFieldAnchor));
    assert_eq!(contacts.len(), 3);
    let (f, filter, dropped) = fields.insert_field(&arena, &mut contacts, ids[0], anchor_body(true)).unwrap();
    assert_eq!(f, FieldId(0));
    assert_eq!(filter, body(ColliderKind::Box3, true, 0, 0));
    assert_eq!(dropped, vec![(ids[0], ids[1]), (ids[0], ids[2])]);
    assert_eq!(contacts, vec![(ids[1], ids[2])]);
    assert!(fields.is_anchor(ids[0]));
}

fn body(kind: ColliderKind, is_static: bool, group: u32, mask: u32) -> ContactBody {
    ContactBody { kind, is_static, group, mask }
}

#[test]
fn filters_admit_a_pair_only_both_ways() {
    let a = body(ColliderKind::Sphere, false, 0b01, 0b10);
    let b = body(ColliderKind::Sphere, false, 0b10, 0b01);
    let c = body(ColliderKind::Sphere, false, 0b10, 0b10);
    assert!(collision_filters_admit(a, b));
    assert!(!collision_filters_admit(a, c), "c's mask leaves out a's group");
    assert!(!collision_filters_admit(c, a));
}

#[test]
fn a_saved_contact_needs_live_ordered_bodies_and_a_rule_that_lets_them_touch() {
    let (_, ids) = spawn_all(3);
    let regs = [(ColliderKind::Sphere, ColliderKind::HalfSpace)];
    let ball = body(ColliderKind::Sphere, false, 1, 1);
    let floor = body(ColliderKind::HalfSpace, true, 1, 1);
    let k = key(ids[0], ids[1]);
    let ok = |a, b| check_saved_contact(&[], &[], &regs, &[], k, k, a, b);
    assert_eq!(ok(Some(ball), Some(floor)), Ok(()));
    assert_eq!(ok(Some(floor), Some(ball)), Ok(()), "a handler serves either order");
    assert_eq!(ok(None, Some(floor)), Err(EditError::InvalidManifold));
    assert_eq!(ok(Some(floor), Some(floor)), Err(EditError::InvalidManifold), "two static bodies");
    assert_eq!(
        ok(Some(ball), Some(body(ColliderKind::HalfSpace, true, 1, 0))),
        Err(EditError::InvalidManifold),
        "filters"
    );
    assert_eq!(
        ok(Some(ball), Some(body(ColliderKind::Box3, true, 1, 1))),
        Err(EditError::InvalidManifold),
        "no handler for the kinds"
    );
    let backwards = (ids[1], ids[0]);
    assert_eq!(
        check_saved_contact(&[], &[], &regs, &[], backwards, backwards, Some(ball), Some(floor)),
        Err(EditError::InvalidManifold)
    );
    assert_eq!(
        check_saved_contact(&[], &[], &regs, &[], k, (ids[0], ids[2]), Some(ball), Some(floor)),
        Err(EditError::InvalidManifold)
    );
}

#[test]
fn a_field_binding_lets_a_body_touch_its_fields_anchor() {
    let (_, ids) = spawn_all(2);
    let anchors = [ids[1]];
    let bindings = [(ids[0], FieldId(0))];
    let ball = body(ColliderKind::Sphere, false, 0, 0);
    let anchor = body(ColliderKind::HalfSpace, true, 0, 0);
    let k = key(ids[0], ids[1]);
    assert_eq!(
        check_saved_contact(&anchors, &bindings, &[], &[ColliderKind::Sphere], k, k, Some(ball), Some(anchor)),
        Ok(())
    );
    assert_eq!(
        check_saved_contact(&anchors, &bindings, &[], &[ColliderKind::Box3], k, k, Some(ball), Some(anchor)),
        Err(EditError::InvalidManifold),
        "no field handler for the bound body's kind"
    );
    assert_eq!(
        check_saved_contact(&anchors, &[], &[], &[ColliderKind::Sphere], k, k, Some(ball), Some(anchor)),
        Err(EditError::InvalidManifold)
    );
}

#[test]
fn the_solve_order_runs_island_by_island_then_by_key() {
    let (arena, ids) = spawn_all(7);
    let mut dynamic = vec![true; 7];
    dynamic[0] = false;
    let order = vec![
        key(ids[0], ids[1]),
        key(ids[0], ids[3]),
        key(ids[0], ids[5]),
        key(ids[1], ids[2]),
        key(ids[3], ids[4]),
        key(ids[5], ids[6]),
    ];
    let mut parent = Vec::new();
    let mut labels = Vec::new();
    let units = collect_constraints(&arena, &dynamic, &order, &mut parent, &mut labels);
    let solved: Vec<_> = units.iter().map(|u| u.key).collect();
    let grouped: Vec<_> = islands(&arena, &dynamic, &order)
        .iter()
        .flat_map(|island| island.constraints.iter().copied())
        .collect();
    assert_eq!(solved, grouped, "the solved buffer is the islands in order");
    assert_ne!(solved, order, "grouping reorders the ascending keys");
    assert_eq!(
        units.iter().map(|u| u.island).collect::<Vec<_>>(),
        vec![ids[1], ids[1], ids[3], ids[3], ids[5], ids[5]]
    );
    assert_eq!(units[0].dense, (0, 1));
    assert_eq!(labels[0], ids[0], "the static floor stays alone");
    assert_eq!(labels[2], ids[1]);
}

#[test]
fn a_single_island_solves_in_ascending_key_order() {
    let (arena, ids) = spawn_all(4);
    let mut dynamic = vec![true; 4];
    dynamic[0] = false;
    let order = vec![key(ids[0], ids[1]), key(ids[1], ids[2]), key(ids[2], ids[3])];
    let mut parent = Vec::new();
    let mut labels = Vec::new();
    let units = collect_constraints(&arena, &dynamic, &order, &mut parent, &mut labels);
    assert_eq!(units.iter().map(|u| u.key).collect::<Vec<_>>(), order);
}

#[test]
fn touched_keys_ascend_once_each() {
    let (_, ids) = spawn_all(4);
    let pending = vec![
        key(ids[2], ids[3]),
        key(ids[0], ids[1]),
        key(ids[2], ids[3]),
        key(ids[0], ids[3]),
        key(ids[0], ids[1]),
    ];
    assert_eq!(
        touched_keys(&pending),
        vec![key(ids[0], ids[1]), key(ids[0], ids[3]), key(ids[2], ids[3])]
    );
    assert!(touched_keys(&[]).is_empty());
}

use loam::world::{check_anchor_bodies, check_restore, contact_wakes, restore_fields, NumericChecks, SavedContact};

struct Snapshot {
    numeric: NumericChecks,
    saved_registrations: Vec<(ColliderKind, ColliderKind)>,
    saved_field_kinds: Vec<ColliderKind>,
    saved_anchors: Vec<BodyId>,
    anchor_bodies: Vec<Option<ContactBody>>,
    bindings: Vec<(BodyId, FieldId)>,
    contacts: Vec<SavedContact>,
}

const REGISTRATIONS: [(ColliderKind, ColliderKind); 1] = [(ColliderKind::Sphere, ColliderKind::Sphere)];
const FIELD_KINDS: [ColliderKind; 1] = [ColliderKind::Sphere];
const NUMBERS_VALID: NumericChecks =
    NumericChecks { gravity_valid: true, tolerance_valid: true, time_valid: true, bodies: Ok(()) };

fn admissible_snapshot(ids: &[BodyId], f: FieldId) -> Snapshot {
    let anchor = body(ColliderKind::Box3, true, 0, 0);
    let ball = body(ColliderKind::Sphere, false, 1, u32::MAX);
    Snapshot {
        numeric: NUMBERS_VALID,
        saved_registrations: REGISTRATIONS.to_vec(),
        saved_field_kinds: FIELD_KINDS.to_vec(),
        saved_anchors: vec![ids[0]],
        anchor_bodies: vec![Some(anchor)],
        bindings: vec![(ids[1], f)],
        contacts: vec![SavedContact {
            key: canonical_pair(ids[1], ids[0]),
            bodies: canonical_pair(ids[1], ids[0]),
            a: Some(anchor),
            b: Some(ball),
            geometry_valid: true,
        }],
    }
}

fn check(fields: &FieldTable, arena: &BodyArena<u32>, s: &Snapshot) -> Result<(), EditError> {
    check_restore(
        s.numeric,
        &REGISTRATIONS,
        &FIELD_KINDS,
        &s.saved_registrations,
        &s.saved_field_kinds,
        fields,
        &s.saved_anchors,
        &s.anchor_bodies,
        arena,
        &s.bindings,
        &s.contacts,
    )
}

#[test]
fn a_restore_is_refused_at_its_first_failing_check() {
    let (arena, ids) = spawn_all(3);
    let mut fields = FieldTable::new();
    let f = fields.insert_field(&arena, &mut Vec::new(), ids[0], anchor_body(true)).unwrap().0;
    assert_eq!(check(&fields, &arena, &admissible_snapshot(&ids, f)), Ok(()));

    let mut s = admissible_snapshot(&ids, f);
    s.numeric.gravity_valid = false;
    s.numeric.tolerance_valid = false;
    assert_eq!(check(&fields, &arena, &s), Err(EditError::InvalidGravity));

    let mut s = admissible_snapshot(&ids, f);
    s.numeric.tolerance_valid = false;
    s.saved_registrations.clear();
    assert_eq!(check(&fields, &arena, &s), Err(EditError::InvalidSolverTolerance));

    let mut s = admissible_snapshot(&ids, f);
    s.saved_registrations.clear();
    s.numeric.time_valid = false;
    assert_eq!(check(&fields, &arena, &s), Err(EditError::RegistrationMismatch));

    let mut s = admissible_snapshot(&ids, f);
    s.saved_anchors = vec![ids[1]];
    s.numeric.time_valid = false;
    assert_eq!(check(&fields, &arena, &s), Err(EditError::FieldMismatch));

    let mut s = admissible_snapshot(&ids, f);
    s.numeric.time_valid = false;
    s.numeric.bodies = Err(EditError::InvalidBody);
    assert_eq!(check(&fields, &arena, &s), Err(EditError::InvalidTime));

    let mut s = admissible_snapshot(&ids, f);
    s.numeric.bodies = Err(EditError::InvalidBody);
    s.anchor_bodies = vec![Some(body(ColliderKind::Box3, false, 0, 0))];
    assert_eq!(check(&fields, &arena, &s), Err(EditError::InvalidBody));

    let mut s = admissible_snapshot(&ids, f);
    s.anchor_bodies = vec![Some(body(ColliderKind::Box3, true, 1, 0))];
    s.contacts[0].geometry_valid = false;
    assert_eq!(check(&fields, &arena, &s), Err(EditError::InvalidFieldBinding));

    let mut s = admissible_snapshot(&ids, f);
    s.bindings = vec![(ids[0], f)];
    assert_eq!(check(&fields, &arena, &s), Err(EditError::InvalidFieldBinding));

    let mut s = admissible_snapshot(&ids, f);
    s.contacts[0].geometry_valid = false;
    assert_eq!(check(&fields, &arena, &s), Err(EditError::InvalidManifold));

    let mut s = admissible_snapshot(&ids, f);
    s.bindings.clear();
    assert_eq!(check(&fields, &arena, &s), Err(EditError::InvalidManifold));
}

#[test]
fn a_contact_naming_a_body_the_snapshot_lacks_is_refused() {
    let (mut arena, ids) = spawn_all(3);
    let mut fields = FieldTable::new();
    let f = fields.insert_field(&arena, &mut Vec::new(), ids[0], anchor_body(true)).unwrap().0;
    arena.despawn(ids[2]).unwrap();
    let mut s = admissible_snapshot(&ids, f);
    s.contacts.push(SavedContact {
        key: canonical_pair(ids[1], ids[2]),
        bodies: canonical_pair(ids[1], ids[2]),
        a: Some(body(ColliderKind::Sphere, false, 1, u32::MAX)),
        b: None,
        geometry_valid: true,
    });
    assert_eq!(check(&fields, &arena, &s), Err(EditError::InvalidManifold));
}

#[test]
fn a_field_anchor_must_be_static_and_outside_every_group() {
    let anchor = body(ColliderKind::Box3, true, 0, 0);
    assert_eq!(check_anchor_bodies(&[Some(anchor), Some(anchor)]), Ok(()));
    assert_eq!(check_anchor_bodies(&[]), Ok(()));
    assert_eq!(check_anchor_bodies(&[Some(anchor), None]), Err(EditError::InvalidFieldBinding));
    assert_eq!(
        check_anchor_bodies(&[Some(body(ColliderKind::Box3, false, 0, 0))]),
        Err(EditError::InvalidFieldBinding)
    );
    assert_eq!(
        check_anchor_bodies(&[Some(body(ColliderKind::Box3, true, 0, 1))]),
        Err(EditError::InvalidFieldBinding)
    );
}

#[test]
fn a_refused_restore_leaves_the_fields_unchanged() {
    let (arena, ids) = spawn_all(3);
    let mut fields = FieldTable::new();
    let f = fields.insert_field(&arena, &mut Vec::new(), ids[0], anchor_body(true)).unwrap().0;
    fields.bind_field(&arena, ids[2], f).unwrap();
    let mut s = admissible_snapshot(&ids, f);
    s.contacts[0].geometry_valid = false;
    let refused = restore_fields(
        &mut fields, s.numeric, &REGISTRATIONS, &FIELD_KINDS, &s.saved_registrations,
        &s.saved_field_kinds, &s.saved_anchors, &s.anchor_bodies, &arena, &s.bindings, &s.contacts,
    );
    assert_eq!(refused, Err(EditError::InvalidManifold));
    assert_eq!(fields.bindings(), &[(ids[2], f)]);
    let s = admissible_snapshot(&ids, f);
    let taken = restore_fields(
        &mut fields, s.numeric, &REGISTRATIONS, &FIELD_KINDS, &s.saved_registrations,
        &s.saved_field_kinds, &s.saved_anchors, &s.anchor_bodies, &arena, &s.bindings, &s.contacts,
    );
    assert_eq!(taken, Ok(()));
    assert_eq!(fields.bindings(), &[(ids[1], f)]);
    assert_eq!(fields.anchors(), &[ids[0]]);
}

#[test]
fn a_new_contact_wakes_a_sleeping_body_touched_by_an_awake_one() {
    assert!(contact_wakes(false, true, false, false, false));
    assert!(contact_wakes(false, false, true, false, false));
    assert!(!contact_wakes(true, true, false, false, false), "a held contact wakes nothing");
    assert!(!contact_wakes(false, true, true, false, false), "two sleepers stay asleep");
    assert!(!contact_wakes(false, false, false, false, false));
    assert!(!contact_wakes(false, true, false, true, false), "a static body does not wake anything");
    assert!(!contact_wakes(false, true, false, false, true));
}
