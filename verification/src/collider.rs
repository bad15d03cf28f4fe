use vstd::prelude::*;

verus! {

/// The kind of a collider, without its geometry.
#[derive(Clone, Copy, Debug, PartialEq, Eq, Structural, Hash)]
pub enum ColliderKind {
    Sphere,
    HalfSpace,
    HalfSpace4D,
    Box3,
    Polygon2D,
    ConvexPolytope3D,
    ConvexPolytope4D,
    HyperSphere4D,
}

/// Half-spaces are unbounded and may only sit on bodies without mass.
pub fn is_halfspace(kind: ColliderKind) -> (r: bool)
    ensures
        r <==> (kind == ColliderKind::HalfSpace || kind == ColliderKind::HalfSpace4D),
{
    match kind {
        ColliderKind::HalfSpace | ColliderKind::HalfSpace4D => true,
        _ => false,
    }
}

/// The position of a kind in the fixed order of kinds.
pub open spec fn spec_kind_rank(kind: ColliderKind) -> u8 {
    match kind {
        ColliderKind::Sphere => 0,
        ColliderKind::HalfSpace => 1,
        ColliderKind::HalfSpace4D => 2,
        ColliderKind::Box3 => 3,
        ColliderKind::Polygon2D => 4,
        ColliderKind::ConvexPolytope3D => 5,
        ColliderKind::ConvexPolytope4D => 6,
        ColliderKind::HyperSphere4D => 7,
    }
}

/// Orders narrowphase registrations.
pub fn kind_rank(kind: ColliderKind) -> (r: u8)
    ensures
        r == spec_kind_rank(kind),
{
    match kind {
        ColliderKind::Sphere => 0,
        ColliderKind::HalfSpace => 1,
        ColliderKind::HalfSpace4D => 2,
        ColliderKind::Box3 => 3,
        ColliderKind::Polygon2D => 4,
        ColliderKind::ConvexPolytope3D => 5,
        ColliderKind::ConvexPolytope4D => 6,
        ColliderKind::HyperSphere4D => 7,
    }
}

/// Tags a shape's kind ahead of its geometry; the same numbering as [`kind_rank`].
pub fn kind_tag(kind: ColliderKind) -> (r: u8)
    ensures
        r == spec_kind_rank(kind),
{
    match kind {
        ColliderKind::Sphere => 0,
        ColliderKind::HalfSpace => 1,
        ColliderKind::HalfSpace4D => 2,
        ColliderKind::Box3 => 3,
        ColliderKind::Polygon2D => 4,
        ColliderKind::ConvexPolytope3D => 5,
        ColliderKind::ConvexPolytope4D => 6,
        ColliderKind::HyperSphere4D => 7,
    }
}

/// Distinct kinds have distinct ranks, each below eight.
pub proof fn lemma_kind_rank_injective(a: ColliderKind, b: ColliderKind)
    ensures
        spec_kind_rank(a) < 8,
        spec_kind_rank(a) == spec_kind_rank(b) <==> a == b,
{
}

} // verus!
