use rqm_core::metadata::{hash_string, hex_string, kebab_from_lowered, MetadataSource, Timestamp};
use rqm_core::{kebab_case, MetadataStore, ProjectConfig, Requirement};
use std::hash::{Hash, Hasher};
use uuid::Uuid;

fn at(seconds: i64) -> Timestamp {
    Timestamp { seconds, nanos: 0 }
}

#[test]
fn test_kebab_case() {
    assert_eq!(kebab_case("Hello World"), "hello-world");
    assert_eq!(kebab_case("Automatic ID Generation"), "automatic-id-generation");
    assert_eq!(kebab_case("Test-Case"), "test-case");
    assert_eq!(kebab_case("Multiple   Spaces"), "multiple-spaces");
}

#[test]
fn kebab_case_strips_and_collapses() {
    assert_eq!(kebab_case("  --Leading and trailing!! "), "leading-and-trailing");
    assert_eq!(kebab_case(""), "");
    assert_eq!(kebab_case("!!!"), "");
    assert_eq!(kebab_case("Äpfel & Birnen 2"), "äpfel-birnen-2");
    assert_eq!(kebab_from_lowered("a__b"), "a-b");
    assert_eq!(kebab_from_lowered("AB"), "AB");
}

#[test]
fn test_project_config_next_id() {
    let mut config = ProjectConfig::new("TEST".to_string());
    assert_eq!(config.next_id(), "TEST-001");
    assert_eq!(config.next_id(), "TEST-002");
    assert_eq!(config.next_id(), "TEST-003");
}

#[test]
fn generated_ids_pad_to_three_digits_only() {
    let mut config = ProjectConfig {
        project_prefix: "R".to_string(),
        next_id: 99,
    };
    assert_eq!(config.next_id(), "R-099");
    assert_eq!(config.next_id(), "R-100");
    config.next_id = 12345;
    assert_eq!(config.next_id(), "R-12345");
    assert_eq!(config.next_id, 12346);
}

#[test]
fn hex_is_lowercase_without_leading_zeros() {
    assert_eq!(hex_string(0), "0");
    assert_eq!(hex_string(255), "ff");
    assert_eq!(hex_string(4096), "1000");
    assert_eq!(hex_string(u64::MAX), "ffffffffffffffff");
}

#[test]
fn summary_hash_is_hex_of_the_default_hasher() {
    let mut hasher = std::collections::hash_map::DefaultHasher::new();
    "Some summary".hash(&mut hasher);
    assert_eq!(hash_string("Some summary"), format!("{:x}", hasher.finish()));
    assert_ne!(hash_string("Some summary"), "Some summary");
    assert_eq!(hash_string("x"), hash_string("x"));
}

#[test]
fn test_metadata_store_init() {
    let store = MetadataStore::new(ProjectConfig::new("PROJ".to_string()));
    assert_eq!(store.project_config().project_prefix, "PROJ");
    assert_eq!(store.project_config().next_id, 1);
}

#[test]
fn test_metadata_creation() {
    let mut store = MetadataStore::new(ProjectConfig::new("TEST".to_string()));

    let req = Requirement::new("Test Requirement");

    let (meta, source) = store.get_or_create_metadata(&req, None).unwrap();
    assert_eq!(meta.generated_id, "TEST-001");
    assert_eq!(meta.summary, "Test Requirement");
    assert_eq!(source, MetadataSource::Created);
    assert!(store.cached("test-requirement").is_some());
}

#[test]
fn test_metadata_persistence() {
    let req = Requirement::new("Persistent Requirement");

    let (record, config) = {
        let mut store = MetadataStore::new(ProjectConfig::new("PERS".to_string()));
        let (meta, _) = store.get_or_create_metadata(&req, None).unwrap();
        (meta, store.project_config().clone())
    };
    let uuid = record.uuid;

    {
        let mut store = MetadataStore::new(config);
        let (meta, source) = store.get_or_create_metadata(&req, Some(record)).unwrap();
        assert_eq!(meta.uuid, uuid);
        assert_eq!(meta.generated_id, "PERS-001");
        assert_eq!(source, MetadataSource::Loaded);
    }
}

#[test]
fn ids_are_sequential_and_survive_reopening() {
    let first = Requirement::new("First");
    let second = Requirement::new("Second");
    let mut store = MetadataStore::new(ProjectConfig::new("REQ".to_string()));
    let (m1, _) = store.get_or_create_metadata(&first, None).unwrap();
    let (m2, _) = store.get_or_create_metadata(&second, None).unwrap();
    assert!(m1.generated_id.ends_with("-001"));
    assert!(m2.generated_id.ends_with("-002"));
    assert_ne!(m1.uuid, m2.uuid);

    let (again, source) = store.get_or_create_metadata(&first, None).unwrap();
    assert_eq!(source, MetadataSource::Cached);
    assert_eq!(again.uuid, m1.uuid);

    let saved = store.project_config().clone();
    let mut reopened = MetadataStore::new(saved);
    let persisted = m1.snapshot();
    let (m3, _) = reopened.get_or_create_metadata(&first, Some(persisted)).unwrap();
    assert_eq!(m3.uuid, m1.uuid);
    assert_eq!(m3.generated_id, m1.generated_id);
    assert_eq!(reopened.project_config().next_id, 3);
}

#[test]
fn summary_edit_with_same_key_refreshes_hash_only() {
    let first_text = Requirement::new("Login works");
    let mut store = MetadataStore::new(ProjectConfig::new("REQ".to_string()));
    let uuid = Uuid::new_v4();
    let (created, _) = store
        .resolve_metadata(&first_text, None, uuid, at(100))
        .unwrap();
    assert_eq!(created.created_at, at(100));

    let edited = Requirement::new("Login  works!");
    assert_eq!(kebab_case(&edited.summary), kebab_case(&first_text.summary));
    let mut reopened = MetadataStore::new(store.project_config().clone());
    let (loaded, source) = reopened
        .resolve_metadata(&edited, Some(created.snapshot()), Uuid::new_v4(), at(200))
        .unwrap();
    assert_eq!(source, MetadataSource::Loaded);
    assert_eq!(loaded.uuid, uuid);
    assert_eq!(loaded.generated_id, created.generated_id);
    assert_eq!(loaded.summary, "Login  works!");
    assert_eq!(loaded.summary_hash, hash_string("Login  works!"));
    assert_ne!(loaded.summary_hash, created.summary_hash);
    assert_eq!(loaded.created_at, at(100));
    assert_eq!(loaded.updated_at, at(200));
}

#[test]
fn unchanged_summary_keeps_the_loaded_record() {
    let req = Requirement::new("Stable");
    let mut store = MetadataStore::new(ProjectConfig::new("S".to_string()));
    let (created, _) = store
        .resolve_metadata(&req, None, Uuid::new_v4(), at(5))
        .unwrap();
    let mut reopened = MetadataStore::new(store.project_config().clone());
    let (loaded, _) = reopened
        .resolve_metadata(&req, Some(created.snapshot()), Uuid::new_v4(), at(9))
        .unwrap();
    assert_eq!(loaded, created);
}

#[test]
fn exhausted_sequence_is_an_error() {
    let config = ProjectConfig {
        project_prefix: "X".to_string(),
        next_id: u32::MAX,
    };
    let mut store = MetadataStore::new(config);
    let req = Requirement::new("Late");
    assert!(store.get_or_create_metadata(&req, None).is_err());
    assert!(store.get_generated_id(&req, None).is_err());
}

#[test]
fn generated_id_through_the_store() {
    let mut store = MetadataStore::new(ProjectConfig::new("G".to_string()));
    let req = Requirement::new("Alpha");
    assert_eq!(store.get_generated_id(&req, None).unwrap(), "G-001");
    assert_eq!(store.get_generated_id(&req, None).unwrap(), "G-001");
}

#[test]
fn opening_without_saved_configuration_uses_the_default() {
    let store = MetadataStore::open(None);
    assert_eq!(store.project_config().project_prefix, "REQ");
    assert_eq!(store.project_config().next_id, 1);
    assert!(store.cached("anything").is_none());
    let saved = ProjectConfig {
        project_prefix: "SAVED".to_string(),
        next_id: 7,
    };
    let reopened = MetadataStore::open(Some(saved.clone()));
    assert_eq!(reopened.project_config(), &saved);
}
