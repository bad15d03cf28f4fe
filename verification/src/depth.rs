use vstd::prelude::*;

verus! {

/// `ReversedZ` follows the view depth contract; `StandardZ` serves a standard perspective matrix.
#[derive(Copy, Clone, Debug, PartialEq, Eq, Structural)]
pub enum DepthConvention {
    StandardZ,
    ReversedZ,
}

/// The convention's name, as `Debug` writes it.
pub open spec fn convention_name(c: DepthConvention) -> &'static str {
    match c {
        DepthConvention::StandardZ => "StandardZ",
        DepthConvention::ReversedZ => "ReversedZ",
    }
}

impl DepthConvention {
    /// The convention's name, as `Debug` writes it.
    pub fn name(self) -> (r: &'static str)
        ensures
            r == convention_name(self),
    {
        match self {
            DepthConvention::StandardZ => "StandardZ",
            DepthConvention::ReversedZ => "ReversedZ",
        }
    }
}

#[verifier::external_type_specification]
#[verifier::external_body]
pub struct ExTextureFormat(wgpu::TextureFormat);

/// Whether and how a pass uses the depth target.
#[derive(Copy, Clone, Debug)]
pub enum DepthMode {
    Off,
    ReadWrite { format: wgpu::TextureFormat },
    ReadOnly { format: wgpu::TextureFormat },
}

impl DepthMode {
    /// The depth target's format, unless the pass uses none.
    pub fn format(&self) -> (r: Option<wgpu::TextureFormat>)
        ensures
            match *self {
                DepthMode::Off => r is None,
                DepthMode::ReadWrite { format } => r == Some(format),
                DepthMode::ReadOnly { format } => r == Some(format),
            },
    {
        match self {
            DepthMode::Off => None,
            DepthMode::ReadWrite { format } => Some(*format),
            DepthMode::ReadOnly { format } => Some(*format),
        }
    }

    pub fn is_active(&self) -> (r: bool)
        ensures
            r == !(*self is Off),
    {
        match self {
            DepthMode::Off => false,
            _ => true,
        }
    }

    pub fn writes(&self) -> (r: bool)
        ensures
            r == (*self is ReadWrite),
    {
        match self {
            DepthMode::ReadWrite { .. } => true,
            _ => false,
        }
    }
}

} // verus!
