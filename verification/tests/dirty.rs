use loam::body::{BodyArena, BodyId};
use loam::dirty::DirtyBodies;

#[test]
fn marking_twice_records_once_in_marking_order() {
    let mut arena: BodyArena<u8> = BodyArena::new();
    let a = arena.spawn(0);
    let b = arena.spawn(1);
    let mut dirty = DirtyBodies::new();
    dirty.mark(b);
    dirty.mark(a);
    dirty.mark(b);
    assert_eq!(dirty.recorded(), &[b, a]);
    assert_eq!(dirty.drain(&arena), vec![b, a]);
    assert!(dirty.recorded().is_empty());
    dirty.mark(a);
    assert_eq!(dirty.recorded(), &[a], "a drained slot can be marked again");
}

#[test]
fn a_drain_skips_despawned_bodies_and_a_recycled_slot_marks_afresh() {
    let mut arena: BodyArena<u8> = BodyArena::new();
    let a = arena.spawn(0);
    let b = arena.spawn(1);
    let mut dirty = DirtyBodies::new();
    dirty.mark(a);
    dirty.mark(b);
    arena.despawn(a).unwrap();
    dirty.forget(a);
    let c = arena.spawn(2);
    assert_eq!(c.slot(), a.slot());
    dirty.mark(c);
    assert_eq!(dirty.recorded(), &[a, b, c]);
    assert_eq!(dirty.drain(&arena), vec![b, c]);
}

#[test]
fn reset_replaces_the_record() {
    let mut dirty = DirtyBodies::new();
    let a = BodyId::forge(3, 0);
    let b = BodyId::forge(1, 0);
    dirty.mark(a);
    dirty.reset(&[b, b, a]);
    assert_eq!(dirty.recorded(), &[b, a]);
}

#[test]
fn a_handle_on_a_marked_slot_is_not_recorded_twice() {
    let mut dirty = DirtyBodies::new();
    let old = BodyId::forge(2, 0);
    let new = BodyId::forge(2, 1);
    dirty.mark(old);
    dirty.mark(new);
    assert_eq!(dirty.recorded(), &[old]);
}
