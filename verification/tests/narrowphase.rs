use loam::collider::ColliderKind;
use loam::narrowphase::Narrowphase;

#[test]
fn registration_order_does_not_reach_the_registrations() {
    let mut first: Narrowphase<u8> = Narrowphase::new();
    first.register(ColliderKind::Sphere, ColliderKind::HalfSpace, 1);
    first.register(ColliderKind::Box3, ColliderKind::Sphere, 2);
    first.register(ColliderKind::Sphere, ColliderKind::Sphere, 3);
    let mut second: Narrowphase<u8> = Narrowphase::new();
    second.register(ColliderKind::Sphere, ColliderKind::Sphere, 3);
    second.register(ColliderKind::Box3, ColliderKind::Sphere, 2);
    second.register(ColliderKind::Sphere, ColliderKind::HalfSpace, 1);
    assert_eq!(first.registrations(), second.registrations());
    assert_eq!(
        first.registrations(),
        &[
            (ColliderKind::Sphere, ColliderKind::Sphere),
            (ColliderKind::Sphere, ColliderKind::HalfSpace),
            (ColliderKind::Box3, ColliderKind::Sphere),
        ]
    );
}

#[test]
fn a_reversed_pair_is_served_swapped_and_an_exact_pair_wins() {
    let mut np: Narrowphase<u8> = Narrowphase::new();
    np.register(ColliderKind::Sphere, ColliderKind::Box3, 7);
    assert_eq!(np.select(ColliderKind::Sphere, ColliderKind::Box3), Some((7, false)));
    assert_eq!(np.select(ColliderKind::Box3, ColliderKind::Sphere), Some((7, true)));
    assert_eq!(np.select(ColliderKind::Box3, ColliderKind::Box3), None);
    np.register(ColliderKind::Box3, ColliderKind::Sphere, 9);
    assert_eq!(np.select(ColliderKind::Box3, ColliderKind::Sphere), Some((9, false)));
}

#[test]
fn registering_a_pair_again_replaces_its_handler_in_place() {
    let mut np: Narrowphase<u8> = Narrowphase::new();
    np.register(ColliderKind::Sphere, ColliderKind::Sphere, 1);
    np.register(ColliderKind::HalfSpace, ColliderKind::Sphere, 2);
    np.register(ColliderKind::Sphere, ColliderKind::Sphere, 5);
    assert_eq!(np.registrations().len(), 2);
    assert_eq!(np.select(ColliderKind::Sphere, ColliderKind::Sphere), Some((5, false)));
}

use loam::edit::EditError;
use loam::narrowphase::check_registrations;

#[test]
fn a_snapshot_from_other_registrations_is_refused() {
    let pairs = [(ColliderKind::Sphere, ColliderKind::Sphere), (ColliderKind::Sphere, ColliderKind::HalfSpace)];
    assert_eq!(check_registrations(&pairs, &[ColliderKind::Sphere, ColliderKind::Box3], &pairs, &[ColliderKind::Box3, ColliderKind::Sphere]), Ok(()));
    assert_eq!(
        check_registrations(&pairs, &[], &[(ColliderKind::Sphere, ColliderKind::Sphere)], &[]),
        Err(EditError::RegistrationMismatch)
    );
    assert_eq!(
        check_registrations(&pairs, &[], &[(ColliderKind::Sphere, ColliderKind::HalfSpace), (ColliderKind::Sphere, ColliderKind::Sphere)], &[]),
        Err(EditError::RegistrationMismatch)
    );
    assert_eq!(
        check_registrations(&pairs, &[ColliderKind::Sphere], &pairs, &[ColliderKind::Box3]),
        Err(EditError::RegistrationMismatch)
    );
    assert_eq!(
        check_registrations(&pairs, &[ColliderKind::Sphere], &pairs, &[ColliderKind::Sphere, ColliderKind::Sphere]),
        Err(EditError::RegistrationMismatch)
    );
}

#[test]
fn registration_order_does_not_refuse_a_snapshot_of_the_same_pairs() {
    let pairs = [
        (ColliderKind::Sphere, ColliderKind::HalfSpace),
        (ColliderKind::Sphere, ColliderKind::ConvexPolytope3D),
        (ColliderKind::ConvexPolytope3D, ColliderKind::HalfSpace),
    ];
    assert_ne!(pairs.first(), pairs.last());
    let mut forward: Narrowphase<u8> = Narrowphase::new();
    for &(a, b) in &pairs {
        forward.register(a, b, 0);
    }
    let mut reversed: Narrowphase<u8> = Narrowphase::new();
    for &(a, b) in pairs.iter().rev() {
        reversed.register(a, b, 0);
    }
    assert_eq!(
        check_registrations(reversed.registrations(), &[], forward.registrations(), &[]),
        Ok(())
    );
    assert_eq!(
        check_registrations(forward.registrations(), &[], reversed.registrations(), &[]),
        Ok(())
    );
}

use loam::narrowphase::FieldNarrowphase;

#[test]
fn a_field_query_is_found_by_the_bodys_kind_and_a_second_registration_replaces_it() {
    let mut fields: FieldNarrowphase<u8> = FieldNarrowphase::new();
    assert_eq!(fields.select(ColliderKind::Sphere), None);
    fields.register(ColliderKind::Sphere, 1);
    fields.register(ColliderKind::ConvexPolytope3D, 2);
    fields.register(ColliderKind::Sphere, 3);
    assert_eq!(
        fields.registrations(),
        &[ColliderKind::Sphere, ColliderKind::ConvexPolytope3D]
    );
    assert_eq!(fields.select(ColliderKind::Sphere), Some(3));
    assert_eq!(fields.select(ColliderKind::ConvexPolytope3D), Some(2));
    assert_eq!(fields.select(ColliderKind::Box3), None);
}
