use vstd::prelude::*;

verus! {

/// The four coordinate axes of the transform gizmo.
#[derive(Copy, Clone, Debug, PartialEq, Eq, Structural, Hash)]
pub enum Axis4 {
    X,
    Y,
    Z,
    W,
}

/// The axis's name.
pub open spec fn axis_label(axis: Axis4) -> &'static str {
    match axis {
        Axis4::X => "x",
        Axis4::Y => "y",
        Axis4::Z => "z",
        Axis4::W => "w",
    }
}

impl Axis4 {
    /// Every axis, in coordinate order.
    pub fn all() -> (r: [Axis4; 4])
        ensures
            r@ == seq![Axis4::X, Axis4::Y, Axis4::Z, Axis4::W],
    {
        [Axis4::X, Axis4::Y, Axis4::Z, Axis4::W]
    }

    /// The axis's coordinate index.
    pub fn index(self) -> (r: usize)
        ensures
            r < 4,
            seq![Axis4::X, Axis4::Y, Axis4::Z, Axis4::W][r as int] == self,
    {
        match self {
            Axis4::X => 0,
            Axis4::Y => 1,
            Axis4::Z => 2,
            Axis4::W => 3,
        }
    }

    pub fn label(self) -> (r: &'static str)
        ensures
            r == axis_label(self),
    {
        match self {
            Self::X => "x",
            Self::Y => "y",
            Self::Z => "z",
            Self::W => "w",
        }
    }
}

} // verus!
