use vstd::prelude::*;

verus! {

/// The WGSL of the two extended polytopes' distance functions when neither
/// appears in the scene: each answers a distance far beyond any scene.
pub open spec fn stub_sdfs_text() -> &'static str {
    "fn cell120_sdf_local(p: vec4<f32>) -> f32 { return 1.0e9; }\nfn cell600_sdf_local(p: vec4<f32>) -> f32 { return 1.0e9; }\n"
}

/// Include the stubs only when neither extended polytope appears in the scene.
pub fn polytope_stub_sdfs_wgsl() -> (r: &'static str)
    ensures
        r == stub_sdfs_text(),
{
    "fn cell120_sdf_local(p: vec4<f32>) -> f32 { return 1.0e9; }\nfn cell600_sdf_local(p: vec4<f32>) -> f32 { return 1.0e9; }\n"
}

/// How a field march steps: exact and conservative kinds step the full
/// distance; `FixedStep` advances a fixed step, since an implicit value
/// bounds nothing.
#[derive(Copy, Clone, Debug, PartialEq, Eq, Structural)]
pub enum MarchMode {
    ExactDistance,
    ConservativeBound,
    FixedStep,
}

impl MarchMode {
    /// The mode's number in the march uniforms.
    pub fn code(self) -> (r: u32)
        ensures
            r == match self {
                MarchMode::ExactDistance => 0u32,
                MarchMode::ConservativeBound => 1u32,
                MarchMode::FixedStep => 2u32,
            },
    {
        match self {
            MarchMode::ExactDistance => 0,
            MarchMode::ConservativeBound => 1,
            MarchMode::FixedStep => 2,
        }
    }
}

/// `c` doubled `k` times.
pub open spec fn doubled(c: nat, k: nat) -> nat
    decreases k,
{
    if k == 0 {
        c
    } else {
        2 * doubled(c, (k - 1) as nat)
    }
}

/// The capacity doubling starts from: the held one, at least one.
pub open spec fn doubling_base(capacity: usize) -> nat {
    if capacity == 0 {
        1
    } else {
        capacity as nat
    }
}

/// A buffer capacity of at least `needed`: the held capacity (at least one)
/// doubled as few times as that takes.
pub fn grown(capacity: usize, needed: usize) -> (r: usize)
    requires
        needed <= usize::MAX / 2 + 1,
    ensures
        r >= needed,
        exists|k: nat|
            r == #[trigger] doubled(doubling_base(capacity), k) && (k == 0 || doubled(
                doubling_base(capacity),
                (k - 1) as nat,
            ) < needed),
{
    let mut c: usize = if capacity == 0 { 1 } else { capacity };
    let ghost start: nat = c as nat;
    let ghost mut k: nat = 0;
    while c < needed
        invariant
            needed <= usize::MAX / 2 + 1,
            c >= 1,
            start == doubling_base(capacity),
            c == doubled(start, k),
            k == 0 || doubled(start, (k - 1) as nat) < needed,
        decreases usize::MAX - c,
    {
        proof {
            k = k + 1;
        }
        c = c * 2;
    }
    assert(c == doubled(start, k));
    c
}

} // verus!
