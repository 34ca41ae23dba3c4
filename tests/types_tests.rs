use rqm_core::types::RequirementReference;
use rqm_core::{OwnerReference, PersonAlias, Requirement, RequirementConfig, VERSION};

#[test]
fn test_version() {
    assert_eq!(VERSION, "0.1.0");
}

#[test]
fn test_requirement_new() {
    let req = Requirement::new("Test Requirement");
    assert_eq!(req.summary, "Test Requirement");
    assert!(req.description.is_none());
}

#[test]
fn test_owner_reference_email() {
    let owner = OwnerReference::String("test@example.com".to_string());
    assert!(owner.is_email());
    assert!(!owner.is_github());
}

#[test]
fn test_owner_reference_github() {
    let owner = OwnerReference::String("@username".to_string());
    assert!(!owner.is_email());
    assert!(owner.is_github());
}

#[test]
fn test_requirement_flatten() {
    let child = Requirement::new("Child");
    let mut parent = Requirement::new("Parent");
    parent
        .requirements
        .push(RequirementReference::Full(Box::new(child)));

    let flattened = parent.flatten();
    assert_eq!(flattened.len(), 2);
    assert_eq!(flattened[0].summary, "Parent");
    assert_eq!(flattened[1].summary, "Child");
}

#[test]
fn test_config_alias_map() {
    let config = RequirementConfig {
        version: "1.0".to_string(),
        aliases: vec![PersonAlias {
            alias: "john".to_string(),
            name: Some("John Doe".to_string()),
            email: Some("john@example.com".to_string()),
            github: None,
        }],
        requirements: vec![],
    };

    let map = config.alias_map();
    assert!(map.contains_key("john"));
    assert_eq!(
        map.get("john").unwrap().email,
        Some("john@example.com".to_string())
    );
}

#[test]
fn alias_map_last_record_wins() {
    let config = RequirementConfig {
        version: "1.0".to_string(),
        aliases: vec![
            PersonAlias {
                alias: "sam".to_string(),
                name: Some("First".to_string()),
                email: None,
                github: None,
            },
            PersonAlias {
                alias: "sam".to_string(),
                name: Some("Second".to_string()),
                email: None,
                github: None,
            },
        ],
        requirements: vec![],
    };
    let map = config.alias_map();
    assert_eq!(map.get("sam").unwrap().name, Some("Second".to_string()));
    assert!(!map.contains_key("other"));
}

#[test]
fn flatten_walks_depth_first_and_skips_references() {
    let mut a = Requirement::new("A");
    let mut b = Requirement::new("B");
    b.requirements
        .push(RequirementReference::Full(Box::new(Requirement::new("B1"))));
    a.requirements.push(RequirementReference::Full(Box::new(b)));
    a.requirements
        .push(RequirementReference::Reference("Elsewhere".to_string()));
    a.requirements
        .push(RequirementReference::Full(Box::new(Requirement::new("C"))));
    let config = RequirementConfig {
        version: "1.0".to_string(),
        aliases: vec![],
        requirements: vec![a, Requirement::new("D")],
    };
    let all: Vec<&str> = config
        .all_requirements()
        .iter()
        .map(|r| r.summary.as_str())
        .collect();
    assert_eq!(all, vec!["A", "B", "B1", "C", "D"]);
}

#[test]
fn owner_shapes() {
    let plain = OwnerReference::String("alice".to_string());
    assert!(!plain.is_email());
    assert!(!plain.is_github());
    assert_eq!(plain.as_str(), "alice");
    let mixed = OwnerReference::String("@a@b".to_string());
    assert!(!mixed.is_email());
    assert!(mixed.is_github());
    let empty = OwnerReference::String(String::new());
    assert!(!empty.is_email());
    assert!(!empty.is_github());
}

#[test]
fn requirement_id_prefers_name() {
    let mut req = Requirement::new("Summary");
    assert_eq!(req.id(), "Summary");
    req.name = Some("REQ-7".to_string());
    assert_eq!(req.id(), "REQ-7");
}
