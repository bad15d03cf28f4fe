use loam::edit::EditError;
use loam::persist::{check_header, PersistError, PERSIST_CODEC, PERSIST_SCHEMA, PERSIST_VERSION};

fn header(schema: &str, version: u32, codec: &str) -> Result<(), PersistError> {
    check_header(schema.to_string(), version, codec.to_string())
}

#[test]
fn the_current_header_is_accepted() {
    assert_eq!(header("loam.physics.world", 3, "ron"), Ok(()));
    assert_eq!(header(PERSIST_SCHEMA, PERSIST_VERSION, PERSIST_CODEC), Ok(()));
}

#[test]
fn a_bumped_version_is_refused_with_the_version_found() {
    assert_eq!(
        header(PERSIST_SCHEMA, PERSIST_VERSION + 1, PERSIST_CODEC),
        Err(PersistError::Version { found: 4 })
    );
}

#[test]
fn the_schema_is_checked_before_the_version_and_the_codec() {
    assert_eq!(
        header("other.schema", 9, "json"),
        Err(PersistError::Schema { found: "other.schema".to_string() })
    );
    assert_eq!(
        header(PERSIST_SCHEMA, 9, "json"),
        Err(PersistError::Version { found: 9 })
    );
    assert_eq!(
        header(PERSIST_SCHEMA, PERSIST_VERSION, "json"),
        Err(PersistError::Codec { found: "json".to_string() })
    );
}

#[test]
fn persist_errors_read_as_their_display_text() {
    assert_eq!(
        PersistError::Version { found: 41 }.message(),
        "the schema version is 41, not 3"
    );
    assert_eq!(
        PersistError::Version { found: 0 }.message(),
        "the schema version is 0, not 3"
    );
    assert_eq!(
        PersistError::Version { found: u32::MAX }.message(),
        "the schema version is 4294967295, not 3"
    );
    assert_eq!(
        PersistError::Schema { found: "x".to_string() }.message(),
        "the schema is x, not loam.physics.world"
    );
    assert_eq!(
        PersistError::Codec { found: "json".to_string() }.message(),
        "the codec is json, not ron"
    );
    assert_eq!(
        PersistError::State(EditError::InvalidManifold).message(),
        format!("the saved world state is invalid: {}", EditError::InvalidManifold.message())
    );
    assert_eq!(
        PersistError::Decode("bad".to_string()).message(),
        "the text is not a loam physics document: bad"
    );
    assert_eq!(
        PersistError::Encode("bad".to_string()).message(),
        "the world could not be encoded: bad"
    );
}

use loam::collider::ColliderKind;
use loam::persist::check_saved_registrations;

#[test]
fn a_save_from_other_registrations_is_refused_as_such() {
    let pairs = [(ColliderKind::Sphere, ColliderKind::Sphere)];
    let fields = [ColliderKind::Sphere, ColliderKind::Box3];
    assert_eq!(check_saved_registrations(&pairs, &fields, &pairs, &[ColliderKind::Box3, ColliderKind::Sphere]), Ok(()));
    let more = [(ColliderKind::Sphere, ColliderKind::Sphere), (ColliderKind::Box3, ColliderKind::Box3)];
    assert_eq!(check_saved_registrations(&more, &fields, &pairs, &fields), Err(PersistError::Registrations));
    assert_eq!(check_saved_registrations(&pairs, &fields, &pairs, &[ColliderKind::Sphere]), Err(PersistError::Registrations));
    assert_eq!(
        PersistError::Registrations.message(),
        "the saved world was made under other narrowphase registrations"
    );
}
