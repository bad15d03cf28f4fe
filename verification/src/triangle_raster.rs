use vstd::prelude::*;

verus! {

/// How the triangle pass shades its fragments.
#[derive(Copy, Clone, Debug, PartialEq, Eq, Structural)]
pub enum FragmentShading {
    Flat,
    FaceNormalLambert,
}

/// The fragment entry point of each shading.
pub open spec fn shading_entry_point(s: FragmentShading) -> &'static str {
    match s {
        FragmentShading::Flat => "fs_flat",
        FragmentShading::FaceNormalLambert => "fs_lambert",
    }
}

impl FragmentShading {
    pub fn entry_point(self) -> (r: &'static str)
        ensures
            r == shading_entry_point(self),
    {
        match self {
            Self::Flat => "fs_flat",
            Self::FaceNormalLambert => "fs_lambert",
        }
    }
}

impl Default for FragmentShading {
    fn default() -> (r: Self)
        ensures
            r == FragmentShading::Flat,
    {
        FragmentShading::Flat
    }
}

} // verus!
