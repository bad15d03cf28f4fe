use vstd::prelude::*;

verus! {

/// Why the world refused an edit; a refused edit leaves the world unchanged.
#[derive(Clone, Copy, Debug, PartialEq, Eq, Structural)]
pub enum EditError {
    StaleHandle,
    NotFinite,
    InvalidGravity,
    InvalidTimeStep,
    InvalidTime,
    InvalidSolverTolerance,
    InvalidGrabConfig,
    InvalidStepTravel,
    InvalidMass,
    InvalidInertia,
    InvalidRestitution,
    InvalidBodyArena,
    InvalidBody,
    InvalidGeometry,
    InvalidFieldBinding,
    InvalidManifold,
    UnsupportedCollider,
    DynamicHalfSpace,
    DynamicFieldAnchor,
    FieldAnchorRemoval,
    AnchorBindsOwnField,
    FieldMismatch,
    /// The world's narrowphase registrations differ from the snapshot's.
    RegistrationMismatch,
}

/// The sentence that describes each refusal.
pub open spec fn edit_error_text(e: EditError) -> &'static str {
    match e {
        EditError::StaleHandle => "the body handle is stale",
        EditError::NotFinite => "the value is not finite",
        EditError::InvalidGravity => "gravity is not finite",
        EditError::InvalidTimeStep => "the time step is negative or not finite",
        EditError::InvalidTime => "the world time is negative or not finite",
        EditError::InvalidSolverTolerance => "the solver tolerance is negative or NaN",
        EditError::InvalidGrabConfig => "the grab configuration is invalid",
        EditError::InvalidStepTravel => "the adaptive step travel is not positive",
        EditError::InvalidMass => "the mass is negative, not finite, or too small to invert",
        EditError::InvalidInertia => "the inertia is negative, not finite, or too small to invert",
        EditError::InvalidRestitution => "the restitution is negative or not finite",
        EditError::InvalidBodyArena => "the body arena is inconsistent",
        EditError::InvalidBody => "a body has invalid state",
        EditError::InvalidGeometry => "the geometry store is inconsistent",
        EditError::InvalidFieldBinding => "a field binding is invalid",
        EditError::InvalidManifold => "a contact manifold is invalid",
        EditError::UnsupportedCollider => "the space cannot use this collider",
        EditError::DynamicHalfSpace => "a half-space collider needs zero mass",
        EditError::DynamicFieldAnchor => "a field anchor body needs zero mass",
        EditError::FieldAnchorRemoval => "a field anchor body cannot be removed",
        EditError::AnchorBindsOwnField => "a field's anchor cannot bind that field to itself",
        EditError::FieldMismatch => "the world's field anchors are not the snapshot's",
        EditError::RegistrationMismatch => "the narrowphase registrations are not the snapshot's",
    }
}

impl EditError {
    /// The sentence that describes the refusal, as its `Display` shows it.
    pub fn message(&self) -> (r: &'static str)
        ensures
            r == edit_error_text(*self),
    {
        match self {
            Self::StaleHandle => "the body handle is stale",
            Self::NotFinite => "the value is not finite",
            Self::InvalidGravity => "gravity is not finite",
            Self::InvalidTimeStep => "the time step is negative or not finite",
            Self::InvalidTime => "the world time is negative or not finite",
            Self::InvalidSolverTolerance => "the solver tolerance is negative or NaN",
            Self::InvalidGrabConfig => "the grab configuration is invalid",
            Self::InvalidStepTravel => "the adaptive step travel is not positive",
            Self::InvalidMass => "the mass is negative, not finite, or too small to invert",
            Self::InvalidInertia => "the inertia is negative, not finite, or too small to invert",
            Self::InvalidRestitution => "the restitution is negative or not finite",
            Self::InvalidBodyArena => "the body arena is inconsistent",
            Self::InvalidBody => "a body has invalid state",
            Self::InvalidGeometry => "the geometry store is inconsistent",
            Self::InvalidFieldBinding => "a field binding is invalid",
            Self::InvalidManifold => "a contact manifold is invalid",
            Self::UnsupportedCollider => "the space cannot use this collider",
            Self::DynamicHalfSpace => "a half-space collider needs zero mass",
            Self::DynamicFieldAnchor => "a field anchor body needs zero mass",
            Self::FieldAnchorRemoval => "a field anchor body cannot be removed",
            Self::AnchorBindsOwnField => "a field's anchor cannot bind that field to itself",
            Self::FieldMismatch => "the world's field anchors are not the snapshot's",
            Self::RegistrationMismatch => "the narrowphase registrations are not the snapshot's",
        }
    }
}

} // verus!
