use loam::body::{BodyArena, BodyId};

type Position = (f32, f32, f32);

const X: Position = (1.0, 0.0, 0.0);
const Y: Position = (0.0, 1.0, 0.0);
const Z: Position = (0.0, 0.0, 1.0);

#[test]
fn stale_handle_never_resolves_after_its_slot_is_recycled() {
    let mut arena: BodyArena<Position> = BodyArena::new();
    let doomed = arena.spawn(X);
    assert!(arena.despawn(doomed).is_some());

    let recycled = arena.spawn(Y);
    assert_eq!(
        recycled.slot(),
        doomed.slot(),
        "the free slot was not reused, so this test is not exercising aliasing"
    );
    assert_ne!(recycled.generation(), doomed.generation());

    assert!(arena.get(doomed).is_none());
    assert!(arena.dense_index(doomed).is_none());
    assert_eq!(*arena.get(recycled).unwrap(), Y);
    assert!(arena.despawn(doomed).is_none(), "stale despawn must be inert");
    assert!(
        arena.get(recycled).is_some(),
        "a stale despawn removed the live body sharing its slot"
    );
}

#[test]
fn despawn_keeps_storage_dense_and_survivor_handles_valid() {
    let mut arena: BodyArena<Position> = BodyArena::new();
    let first = arena.spawn(X);
    let middle = arena.spawn(Y);
    let last = arena.spawn(Z);

    assert_eq!(arena.despawn(middle), Some(Y));

    assert_eq!(arena.len(), 2);
    assert_eq!(*arena.get(first).unwrap(), X);
    assert_eq!(*arena.get(last).unwrap(), Z, "the moved body's handle broke");
    assert_eq!(arena.id_at(arena.dense_index(last).unwrap()), last);
    let positions: Vec<Position> = arena.as_slice().to_vec();
    assert_eq!(positions, vec![X, Z]);
}

#[test]
fn every_dense_position_resolves_back_through_its_own_handle() {
    let mut arena: BodyArena<Position> = BodyArena::new();
    let assert_consistent = |arena: &BodyArena<Position>| {
        for dense in 0..arena.len() {
            assert_eq!(
                arena.dense_index(arena.id_at(dense)),
                Some(dense),
                "slot table disagrees with dense position {dense}"
            );
        }
    };

    let mut live = Vec::new();
    for i in 0..5 {
        let v = i as f32;
        live.push(arena.spawn((v, v, v)));
        assert_consistent(&arena);
    }
    for victim in [live[0], live[2], live[3]] {
        assert!(arena.despawn(victim).is_some());
        assert_consistent(&arena);
    }
    arena.spawn((0.0, 0.0, 0.0));
    assert_consistent(&arena);
}

#[test]
fn handles_hand_out_fresh_slots_then_recycle_the_most_recent_free_one() {
    let mut arena: BodyArena<u32> = BodyArena::new();
    let a = arena.spawn(10);
    let b = arena.spawn(20);
    let c = arena.spawn(30);
    assert_eq!((a.slot(), b.slot(), c.slot()), (0, 1, 2));
    assert_eq!((a.generation(), b.generation(), c.generation()), (0, 0, 0));
    arena.despawn(a).unwrap();
    arena.despawn(c).unwrap();
    let d = arena.spawn(40);
    assert_eq!((d.slot(), d.generation()), (2, 1));
    let e = arena.spawn(50);
    assert_eq!((e.slot(), e.generation()), (0, 1));
    let f = arena.spawn(60);
    assert_eq!((f.slot(), f.generation()), (3, 0));
    assert_eq!(arena.as_slice(), &[20, 40, 50, 60]);
}

#[test]
fn get_mut_edits_the_handles_own_body() {
    let mut arena: BodyArena<u32> = BodyArena::new();
    let a = arena.spawn(1);
    let b = arena.spawn(2);
    *arena.get_mut(b).unwrap() = 7;
    assert_eq!(*arena.get(a).unwrap(), 1);
    assert_eq!(*arena.get(b).unwrap(), 7);
    arena.despawn(b).unwrap();
    assert!(arena.get_mut(b).is_none());
    assert_eq!(*arena.at(0), 1);
}

#[test]
fn handle_order_is_slot_then_generation() {
    let low = BodyId::forge(1, 5);
    let high = BodyId::forge(2, 0);
    let later = BodyId::forge(1, 6);
    assert!(low.less_than(high));
    assert!(low.less_than(later));
    assert!(!high.less_than(low));
    assert!(!low.less_than(low));
    assert!(low < high && low < later);
}

#[test]
fn an_arena_has_room_until_its_handle_space_runs_out() {
    let mut arena: BodyArena<u8> = BodyArena::new();
    assert!(arena.has_room());
    arena.spawn(1);
    assert!(arena.has_room());
}
