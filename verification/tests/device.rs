use loam::device::{FeatureBits, FeatureRequest, MissingGpuCapability};
use wgpu::{Features, Limits};

fn request(required: FeatureBits, optional: FeatureBits) -> FeatureRequest {
    FeatureRequest {
        required_features: required,
        optional_features: optional,
        required_limits: Limits::default(),
    }
}

#[test]
fn a_missing_required_feature_is_named() {
    let asked = request(FeatureBits(0b1010, 1), FeatureBits(0, 0));
    assert_eq!(
        asked.resolve_with(FeatureBits(0b0010, 1), None),
        Err(MissingGpuCapability::Feature(FeatureBits(0b1000, 0)))
    );
    assert_eq!(
        asked.resolve_with(FeatureBits(0b0010, 1), Some(("max_bind_groups", 8, 4))),
        Err(MissingGpuCapability::Feature(FeatureBits(0b1000, 0))),
        "a missing feature is reported before a limit"
    );
}

#[test]
fn optional_features_are_granted_where_the_adapter_has_them() {
    let asked = request(FeatureBits(0b0001, 0), FeatureBits(0b0110, 0b1));
    assert_eq!(
        asked.resolve_with(FeatureBits(0b0101, 0), None),
        Ok(FeatureBits(0b0101, 0))
    );
    assert_eq!(
        asked.resolve_with(FeatureBits(0b0101, 0), Some(("max_bind_groups", 8, 4))),
        Err(MissingGpuCapability::Limit {
            name: "max_bind_groups",
            required: 8,
            available: 4
        })
    );
}

#[test]
fn a_limit_the_adapter_does_not_meet_is_reported() {
    let adapter = Limits::default();
    let fits = request(FeatureBits(0, 0), FeatureBits(0b11, 0));
    assert_eq!(fits.resolve(FeatureBits(0b10, 0), &adapter), Ok(FeatureBits(0b10, 0)));

    let mut limits = Limits::default();
    limits.max_texture_dimension_2d = u32::MAX;
    let too_big = FeatureRequest {
        required_features: FeatureBits(0, 0),
        optional_features: FeatureBits(0, 0),
        required_limits: limits,
    };
    assert_eq!(
        too_big.resolve(FeatureBits(0, 0), &adapter),
        Err(MissingGpuCapability::Limit {
            name: "max_texture_dimension_2d",
            required: u32::MAX as u64,
            available: adapter.max_texture_dimension_2d as u64
        })
    );
}

fn bits(features: Features) -> FeatureBits {
    let [first, second] = features.bits().0;
    FeatureBits(first, second)
}

fn features(bits: FeatureBits) -> Features {
    let mut raw = Features::empty().bits();
    raw.0 = [bits.0, bits.1];
    Features::from_bits_retain(raw)
}

#[test]
fn launch_names_the_absent_required_feature_or_limit() {
    let adapter_features = bits(Features::TIMESTAMP_QUERY | Features::SHADER_F16);
    let adapter_limits = Limits::default();
    let request = FeatureRequest {
        required_features: bits(Features::SHADER_F16 | Features::MULTIVIEW),
        optional_features: bits(Features::TIMESTAMP_QUERY | Features::POLYGON_MODE_LINE),
        required_limits: Limits::default(),
    };
    let error = request
        .resolve(adapter_features, &adapter_limits)
        .unwrap_err();
    assert_eq!(error, MissingGpuCapability::Feature(bits(Features::MULTIVIEW)));
    let MissingGpuCapability::Feature(missing) = error else {
        panic!("{error:?}");
    };
    assert!(format!("{:?}", features(missing)).contains("MULTIVIEW"));

    let request = FeatureRequest {
        required_features: bits(Features::SHADER_F16),
        required_limits: Limits {
            max_texture_dimension_2d: adapter_limits.max_texture_dimension_2d * 2,
            ..Limits::default()
        },
        ..request
    };
    let error = request
        .resolve(adapter_features, &adapter_limits)
        .unwrap_err();
    assert_eq!(
        error,
        MissingGpuCapability::Limit {
            name: "max_texture_dimension_2d",
            required: u64::from(adapter_limits.max_texture_dimension_2d) * 2,
            available: u64::from(adapter_limits.max_texture_dimension_2d),
        }
    );

    let request = FeatureRequest {
        required_limits: Limits::default(),
        ..request
    };
    assert_eq!(
        request.resolve(adapter_features, &adapter_limits),
        Ok(bits(Features::SHADER_F16 | Features::TIMESTAMP_QUERY))
    );
}
