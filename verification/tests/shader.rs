use loam::shader::{
    assemble_source_with_scene, assemble_wgsl, check_render_module, validate_hyperslice_wgsl,
    validate_raymarch_wgsl, validate_wgsl, PipelineStage, VariableSpace, WgslValidationError,
};
use loam::shader_db::{root_owner, ShaderDb};

#[test]
fn modules_are_joined_each_on_its_own_lines() {
    assert_eq!(assemble_wgsl(&["a", "b\n", ""]), "a\nb\n\n");
    assert_eq!(assemble_wgsl(&[]), "");
}

#[test]
fn a_shader_is_assembled_prelude_scene_then_user_code() {
    assert_eq!(
        assemble_source_with_scene("space", Some("scene\n"), "user"),
        "// ---- loam-math Space prelude ----\nspace\n// ---- loam-scene scene module ----\nscene\n// ---- user shader ----\nuser"
    );
    assert_eq!(
        assemble_source_with_scene("space\n", None, "user"),
        "// ---- loam-math Space prelude ----\nspace\n// ---- user shader ----\nuser"
    );
}

const FULLSCREEN: &str = r#"
struct Uniforms { color: vec4<f32> }
@group(0) @binding(0) var<uniform> u: Uniforms;
@vertex
fn vs_fullscreen(@builtin(vertex_index) i: u32) -> @builtin(position) vec4<f32> {
    return vec4<f32>(f32(i), 0.0, 0.0, 1.0);
}
@fragment
fn fs_main() -> @location(0) vec4<f32> {
    return u.color;
}
"#;

#[test]
fn valid_wgsl_passes_and_garbage_is_a_parse_error() {
    assert!(validate_wgsl(FULLSCREEN).is_ok());
    assert!(matches!(validate_wgsl("invalid WGSL"), Err(WgslValidationError::Parse(_))));
    let ill_typed = "fn f() -> i32 { return 1.5; }";
    assert!(validate_wgsl(ill_typed).is_err());
    let unshareable = "@group(0) @binding(0) var<uniform> u: bool;";
    assert!(matches!(validate_wgsl(unshareable), Err(WgslValidationError::Validate(_))));
}

#[test]
fn a_raymarch_shader_needs_its_entry_and_uniform() {
    assert!(validate_raymarch_wgsl(FULLSCREEN).is_ok());
    match validate_hyperslice_wgsl(FULLSCREEN) {
        Err(WgslValidationError::Binding { group, binding, expected, found }) => {
            assert_eq!((group, binding), (0, 1));
            assert_eq!(expected, VariableSpace::Storage { access: 1 });
            assert_eq!(found, None);
        }
        other => panic!("expected a binding refusal, got {other:?}"),
    }
}

#[test]
fn the_first_missing_entry_is_named() {
    let bindings = [(Some((0, 0)), VariableSpace::Uniform)];
    let entries = [(PipelineStage::Vertex, "vs_fullscreen".to_string())];
    match check_render_module(&bindings, &entries, &["fs_main"], &[(0, 0, VariableSpace::Uniform)]) {
        Err(WgslValidationError::EntryPoint { stage, name }) => {
            assert_eq!(stage, PipelineStage::Fragment);
            assert_eq!(name, "fs_main");
        }
        other => panic!("expected a missing entry, got {other:?}"),
    }
    match check_render_module(&bindings, &[], &[], &[]) {
        Err(WgslValidationError::EntryPoint { stage, name }) => {
            assert_eq!(stage, PipelineStage::Vertex);
            assert_eq!(name, "vs_fullscreen");
        }
        other => panic!("expected a missing vertex entry, got {other:?}"),
    }
    let wrong = [(Some((0, 0)), VariableSpace::Private), (Some((0, 0)), VariableSpace::Uniform)];
    match check_render_module(&wrong, &entries, &[], &[(0, 0, VariableSpace::Uniform)]) {
        Err(WgslValidationError::Binding { found, .. }) => {
            assert_eq!(found, Some(VariableSpace::Private), "the first global bound there counts");
        }
        other => panic!("expected a binding refusal, got {other:?}"),
    }
    assert!(check_render_module(&bindings, &entries, &[], &[(0, 0, VariableSpace::Uniform)]).is_ok());
}

#[test]
fn reload_updates_only_the_requested_owner() {
    let mut db: ShaderDb<u32> = ShaderDb::new();
    let spherical = db.new_owner();
    let hyperbolic = db.new_owner();
    let in_s3 = db.install(spherical, "/s/shared.wgsl".to_string(), 10, None, "s3".to_string());
    let in_h3 = db.install(hyperbolic, "/s/shared.wgsl".to_string(), 20, None, "h3".to_string());
    assert_ne!(in_s3, in_h3);

    let id = db.lookup(spherical, "/s/shared.wgsl").unwrap();
    db.replace_module(id, 11);
    assert_eq!(db.generation(in_s3), 2, "S3's owner asked for this reload");
    assert_eq!(db.generation(in_h3), 1, "S3 reload must leave H3 unchanged");
    assert_eq!(*db.module(in_h3), 20);

    let id = db.lookup(hyperbolic, "/s/shared.wgsl").unwrap();
    db.replace_module(id, 21);
    assert_eq!(db.generation(in_s3), 2, "H3's owner must not touch S3's module");
    assert_eq!(db.generation(in_h3), 2);
}

#[test]
fn unrelated_owners_ignore_changed_paths() {
    let mut db: ShaderDb<u32> = ShaderDb::new();
    let spherical = db.new_owner();
    let hyperbolic = db.new_owner();
    db.install(spherical, "/s/spherical.wgsl".to_string(), 1, None, String::new());
    db.install(hyperbolic, "/s/hyperbolic.wgsl".to_string(), 2, None, String::new());
    assert!(db.lookup(spherical, "/s/spherical.wgsl").is_some());
    assert!(db.lookup(hyperbolic, "/s/spherical.wgsl").is_none());
}

#[test]
fn a_second_load_by_the_same_owner_keeps_the_id_and_recompiles() {
    let mut db: ShaderDb<u32> = ShaderDb::new();
    let scene = db.new_owner();
    let first = db.install(scene, "/s/shared.wgsl".to_string(), 1, None, "r3".to_string());
    let second = db.install(scene, "/s/shared.wgsl".to_string(), 2, Some("sdf".to_string()), "r4".to_string());
    assert_eq!(first, second, "one owner's path must map to one entry");
    assert_eq!(db.generation(first), 2, "the second load must recompile");
    let (path, scene_source, prelude) = db.reload_inputs(first);
    assert_eq!((path, scene_source, prelude), ("/s/shared.wgsl", Some("sdf"), "r4"));
}

#[test]
fn the_root_owner_exists_from_the_start_and_unknown_ids_have_no_generation() {
    let mut db: ShaderDb<u32> = ShaderDb::new();
    let root = root_owner();
    assert_eq!(root.number(), 0);
    assert_eq!(db.new_owner().number(), 1);
    let id = db.install(root, "/a.wgsl".to_string(), 0, None, String::new());
    assert_eq!(id.index(), 0);
    assert_eq!(db.generation(id), 1);
}

#[test]
fn the_table_counts_its_entries_and_has_owners_to_hand_out() {
    let mut db: ShaderDb<u32> = ShaderDb::new();
    assert_eq!(db.len(), 0);
    assert!(db.can_add_owner());
    let owner = db.new_owner();
    db.install(owner, "/a.wgsl".to_string(), 0, None, String::new());
    db.install(owner, "/b.wgsl".to_string(), 0, None, String::new());
    db.install(owner, "/a.wgsl".to_string(), 1, None, String::new());
    assert_eq!(db.len(), 2);
}

#[test]
fn the_geodesic_kernel_follows_the_scene_under_its_banner() {
    assert_eq!(
        loam::shader::join_geodesic_kernel("fn scene() {}\n", "fn march() {}\n"),
        "fn scene() {}\n// ---- loam geodesic march kernel ----\nfn march() {}\n"
    );
    assert_eq!(
        loam::shader::join_geodesic_kernel("", ""),
        "// ---- loam geodesic march kernel ----\n"
    );
}
