use loam::collider::{is_halfspace, kind_rank, kind_tag, ColliderKind};

const ALL: [ColliderKind; 8] = [
    ColliderKind::Sphere,
    ColliderKind::HalfSpace,
    ColliderKind::HalfSpace4D,
    ColliderKind::Box3,
    ColliderKind::Polygon2D,
    ColliderKind::ConvexPolytope3D,
    ColliderKind::ConvexPolytope4D,
    ColliderKind::HyperSphere4D,
];

#[test]
fn only_the_two_half_spaces_are_half_spaces() {
    let flagged: Vec<ColliderKind> = ALL.iter().copied().filter(|k| is_halfspace(*k)).collect();
    assert_eq!(flagged, vec![ColliderKind::HalfSpace, ColliderKind::HalfSpace4D]);
}

#[test]
fn kinds_rank_in_declaration_order_and_tag_the_same() {
    for (i, kind) in ALL.iter().enumerate() {
        assert_eq!(kind_rank(*kind), i as u8);
        assert_eq!(kind_tag(*kind), i as u8);
    }
}
