use loam::edit::EditError;
use loam::epa::add_or_remove_edge;
use loam::gizmo::Axis4;
use loam::raymarch::polytope_stub_sdfs_wgsl;
use loam::triangle_raster::FragmentShading;
use loam::depth::DepthConvention;

#[test]
fn edit_errors_describe_themselves() {
    assert_eq!(EditError::StaleHandle.message(), "the body handle is stale");
    assert_eq!(
        EditError::RegistrationMismatch.message(),
        "the narrowphase registrations are not the snapshot's"
    );
    assert_eq!(EditError::DynamicHalfSpace.message(), "a half-space collider needs zero mass");
}

#[test]
fn axes_are_labelled_and_indexed_in_coordinate_order() {
    let labels: Vec<&str> = Axis4::all().iter().map(|a| a.label()).collect();
    assert_eq!(labels, ["x", "y", "z", "w"]);
    assert_eq!(Axis4::W.index(), 3);
}

#[test]
fn each_shading_names_its_fragment_entry() {
    assert_eq!(FragmentShading::default(), FragmentShading::Flat);
    assert_eq!(FragmentShading::Flat.entry_point(), "fs_flat");
    assert_eq!(FragmentShading::FaceNormalLambert.entry_point(), "fs_lambert");
}

#[test]
fn the_stub_polytope_distances_are_far_away() {
    let stubs = polytope_stub_sdfs_wgsl();
    assert!(stubs.contains("fn cell120_sdf_local(p: vec4<f32>) -> f32 { return 1.0e9; }\n"));
    assert!(stubs.ends_with("fn cell600_sdf_local(p: vec4<f32>) -> f32 { return 1.0e9; }\n"));
    assert!(loam::shader::validate_wgsl(stubs).is_ok());
}

#[test]
fn a_shared_horizon_edge_cancels_and_a_new_one_joins() {
    let mut horizon = vec![(0usize, 1usize), (1, 2), (2, 0)];
    add_or_remove_edge(&mut horizon, 2, 1);
    assert_eq!(horizon, vec![(0, 1), (2, 0)]);
    add_or_remove_edge(&mut horizon, 3, 4);
    assert_eq!(horizon, vec![(0, 1), (2, 0), (3, 4)]);
}

#[test]
fn depth_conventions_name_themselves() {
    assert_eq!(DepthConvention::ReversedZ.name(), "ReversedZ");
    assert_eq!(format!("{:?}", DepthConvention::StandardZ), DepthConvention::StandardZ.name());
}

use loam::raymarch::{grown, MarchMode};

#[test]
fn capacity_doubles_until_it_holds_what_is_needed() {
    assert_eq!(grown(0, 0), 1);
    assert_eq!(grown(0, 5), 8);
    assert_eq!(grown(64, 64), 64);
    assert_eq!(grown(64, 65), 128);
    assert_eq!(grown(3, 13), 24);
    assert_eq!(grown(256, 10), 256, "a large enough capacity stays");
}

#[test]
fn march_modes_have_their_uniform_codes() {
    assert_eq!(MarchMode::ExactDistance.code(), 0);
    assert_eq!(MarchMode::ConservativeBound.code(), 1);
    assert_eq!(MarchMode::FixedStep.code(), 2);
}

use loam::depth::DepthMode;

#[test]
fn a_depth_mode_names_its_format_and_whether_it_writes() {
    let format = wgpu::TextureFormat::Depth32Float;
    assert_eq!(DepthMode::Off.format(), None);
    assert!(!DepthMode::Off.is_active());
    assert!(!DepthMode::Off.writes());
    let rw = DepthMode::ReadWrite { format };
    assert_eq!(rw.format(), Some(format));
    assert!(rw.is_active() && rw.writes());
    let ro = DepthMode::ReadOnly { format };
    assert_eq!(ro.format(), Some(format));
    assert!(ro.is_active() && !ro.writes());
}
