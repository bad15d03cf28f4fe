use vstd::prelude::*;

verus! {

#[verifier::external_type_specification]
#[verifier::external_body]
pub struct ExLimits(wgpu::Limits);

/// A set of GPU features as the two words of wgpu's feature flags.
#[derive(Clone, Copy, Debug, PartialEq, Eq, Structural)]
pub struct FeatureBits(pub u64, pub u64);

impl FeatureBits {
    pub open spec fn is_empty_spec(self) -> bool {
        self.0 == 0 && self.1 == 0
    }
}

/// The features in `a` that `b` lacks.
pub open spec fn feature_difference(a: FeatureBits, b: FeatureBits) -> FeatureBits {
    FeatureBits(a.0 & !b.0, a.1 & !b.1)
}

/// `required` and the part of `optional` that `available` holds.
pub open spec fn feature_grant(required: FeatureBits, optional: FeatureBits, available: FeatureBits) -> FeatureBits {
    FeatureBits(required.0 | (optional.0 & available.0), required.1 | (optional.1 & available.1))
}

/// A limit the adapter falls short of: its name, the required value, the
/// adapter's value.
pub type LimitShortfall = (&'static str, u64, u64);

/// Why an adapter cannot serve a request.
#[derive(Clone, Copy, Debug, PartialEq, Eq)]
pub enum MissingGpuCapability {
    Feature(FeatureBits),
    Limit { name: &'static str, required: u64, available: u64 },
}

/// What a device is requested with.
pub struct FeatureRequest {
    pub required_features: FeatureBits,
    /// Requested where the adapter has them; the rest are skipped.
    pub optional_features: FeatureBits,
    pub required_limits: wgpu::Limits,
}

/// Keeps the first shortfall reported.
fn note_shortfall(first: &mut Option<LimitShortfall>, name: &'static str, required: u64, available: u64)
    ensures
        (*old(first)) is Some ==> *final(first) == *old(first),
        (*old(first)) is None ==> *final(first) == Some((name, required, available)),
{
    if first.is_none() {
        *first = Some((name, required, available));
    }
}

/// The first limit of `required` that `available` does not meet, in wgpu's
/// order of comparison: its name, the required value and the available one.
pub uninterp spec fn limit_shortfall_of(required: wgpu::Limits, available: wgpu::Limits) -> Option<LimitShortfall>;

/// Calls `wgpu::Limits::check_limits_with_fail_fn` with `fatal` set, which
/// stops at the first limit of `required` that `available` does not meet, and
/// hands back that limit's report. Claimed: the report depends on the two
/// limit sets alone (it is named `limit_shortfall_of`); which limits exist and
/// in what order they are compared is wgpu's and is not stated.
#[verifier::external_body]
fn first_limit_shortfall(required: &wgpu::Limits, available: &wgpu::Limits) -> (r: Option<LimitShortfall>)
    ensures
        r == limit_shortfall_of(*required, *available),
{
    let mut first = None;
    required.check_limits_with_fail_fn(
        available,
        true,
        |name, need, have| note_shortfall(&mut first, name, need, have),
    );
    first
}

impl FeatureRequest {
    /// The outcome of a request once the adapter's first limit shortfall, if
    /// any, is known: a missing required feature refuses first, then the
    /// shortfall; otherwise the required features and the adapter's share of
    /// the optional ones.
    pub fn resolve_with(
        &self,
        adapter_features: FeatureBits,
        shortfall: Option<LimitShortfall>,
    ) -> (r: Result<FeatureBits, MissingGpuCapability>)
        ensures
            !feature_difference(self.required_features, adapter_features).is_empty_spec() ==> r
                == Err::<FeatureBits, MissingGpuCapability>(
                MissingGpuCapability::Feature(feature_difference(self.required_features, adapter_features)),
            ),
            feature_difference(self.required_features, adapter_features).is_empty_spec() ==> match shortfall {
                Some((name, required, available)) => r == Err::<FeatureBits, MissingGpuCapability>(
                    MissingGpuCapability::Limit { name, required, available },
                ),
                None => r == Ok::<FeatureBits, MissingGpuCapability>(
                    feature_grant(self.required_features, self.optional_features, adapter_features),
                ),
            },
    {
        let missing = FeatureBits(
            self.required_features.0 & !adapter_features.0,
            self.required_features.1 & !adapter_features.1,
        );
        if missing.0 != 0 || missing.1 != 0 {
            return Err(MissingGpuCapability::Feature(missing));
        }
        match shortfall {
            Some((name, required, available)) => Err(MissingGpuCapability::Limit { name, required, available }),
            None => Ok(
                FeatureBits(
                    self.required_features.0 | (self.optional_features.0 & adapter_features.0),
                    self.required_features.1 | (self.optional_features.1 & adapter_features.1),
                ),
            ),
        }
    }

    /// The set to request: `required_features` plus the adapter's share of
    /// `optional_features`, or why the adapter cannot serve the request. A
    /// missing feature is reported before any limit; the limit reported is the
    /// first that the adapter falls short of.
    pub fn resolve(&self, adapter_features: FeatureBits, adapter_limits: &wgpu::Limits) -> (r: Result<
        FeatureBits,
        MissingGpuCapability,
    >)
        ensures
            !feature_difference(self.required_features, adapter_features).is_empty_spec() ==> r
                == Err::<FeatureBits, MissingGpuCapability>(
                MissingGpuCapability::Feature(feature_difference(self.required_features, adapter_features)),
            ),
            feature_difference(self.required_features, adapter_features).is_empty_spec() ==> match limit_shortfall_of(
                self.required_limits,
                *adapter_limits,
            ) {
                Some((name, required, available)) => r == Err::<FeatureBits, MissingGpuCapability>(
                    MissingGpuCapability::Limit { name, required, available },
                ),
                None => r == Ok::<FeatureBits, MissingGpuCapability>(
                    feature_grant(self.required_features, self.optional_features, adapter_features),
                ),
            },
    {
        let shortfall = first_limit_shortfall(&self.required_limits, adapter_limits);
        self.resolve_with(adapter_features, shortfall)
    }
}

} // verus!
