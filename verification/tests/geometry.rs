use loam::collider::ColliderKind;
use loam::geometry::{same_shape, GeometryStore, Shape};

fn hull(values: &[f32]) -> Shape {
    Shape {
        kind: ColliderKind::ConvexPolytope3D,
        words: values.iter().map(|v| v.to_bits()).collect(),
    }
}

#[test]
fn bodies_that_share_a_hull_hold_one_copy_of_its_vertices() {
    let mut store = GeometryStore::new();
    let first = store.prepare(hull(&[0.0, 1.0, 2.0]));
    let second = store.prepare(hull(&[0.0, 1.0, 2.0]));
    assert_eq!(first, second);
    assert_eq!(store.prepared(), 1);
    assert_eq!(store.take_released(), Some(hull(&[0.0, 1.0, 2.0])));
    let other = store.prepare(hull(&[3.0]));
    assert_ne!(other.geometry(), first.geometry());
    assert_eq!(store.prepared(), 2);
}

#[test]
fn the_last_release_frees_the_entry_and_its_reference_goes_stale() {
    let mut store = GeometryStore::new();
    let a = store.prepare(hull(&[1.0]));
    let b = store.prepare(hull(&[1.0]));
    store.release(a);
    assert_eq!(store.get(b), Some(&hull(&[1.0])));
    store.release(b);
    assert_eq!(store.get(a), None);
    assert_eq!(store.prepared(), 0);
    let c = store.prepare(hull(&[2.0]));
    assert_eq!(c.geometry().id(), a.geometry().id(), "the freed entry is reused");
    assert_eq!(c.geometry().version(), a.geometry().version() + 1);
    assert_eq!(store.get(a), None, "the old reference must not see the new shape");
    store.release(a);
    assert_eq!(store.get(c), Some(&hull(&[2.0])), "a stale release is inert");
}

#[test]
fn the_released_pool_keeps_the_two_most_recent_shapes() {
    let mut store = GeometryStore::new();
    for v in [1.0f32, 2.0, 3.0] {
        let r = store.prepare(hull(&[v]));
        store.release(r);
    }
    assert_eq!(store.take_released(), Some(hull(&[3.0])));
    assert_eq!(store.take_released(), Some(hull(&[2.0])));
    assert_eq!(store.take_released(), None);
}

#[test]
fn same_shape_compares_numbers_not_bits() {
    assert!(same_shape(&hull(&[0.0, 1.5]), &hull(&[-0.0, 1.5])));
    assert!(!same_shape(&hull(&[f32::NAN]), &hull(&[f32::NAN])));
    assert!(!same_shape(&hull(&[1.0]), &hull(&[1.0, 2.0])));
    let sphere = Shape { kind: ColliderKind::Sphere, words: hull(&[1.0]).words };
    assert!(!same_shape(&sphere, &hull(&[1.0])));
}

#[test]
fn a_negative_zero_shares_the_entry_of_a_positive_zero() {
    let mut store = GeometryStore::new();
    let a = store.prepare(hull(&[0.0]));
    let b = store.prepare(hull(&[-0.0]));
    assert_eq!(a.geometry(), b.geometry());
    assert_eq!(store.prepared(), 1);
    assert_eq!(a.kind(), ColliderKind::ConvexPolytope3D);
}
