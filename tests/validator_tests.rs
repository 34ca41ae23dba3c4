use rqm_core::validator::validate_document;
use rqm_core::{Error, OwnerReference, PersonAlias, Requirement, RequirementConfig, Validator};

const SCHEMA: &str = r#"{
  "type": "object",
  "required": ["version", "requirements"],
  "properties": {
    "version": { "type": "string" },
    "requirements": {
      "type": "array",
      "items": { "type": "object", "required": ["summary"] }
    }
  }
}"#;

fn validator() -> Validator {
    let schema: serde_json::Value = serde_json::from_str(SCHEMA).unwrap();
    Validator::new(&schema).unwrap()
}

fn document(text: &str) -> serde_json::Value {
    serde_json::from_str(text).unwrap()
}

fn owned(summary: &str, owner: &str) -> Requirement {
    let mut req = Requirement::new(summary);
    req.owner = Some(OwnerReference::String(owner.to_string()));
    req
}

fn config_with(aliases: Vec<PersonAlias>, requirements: Vec<Requirement>) -> RequirementConfig {
    RequirementConfig {
        version: "1.0".to_string(),
        aliases,
        requirements,
    }
}

fn alias(name: &str) -> PersonAlias {
    PersonAlias {
        alias: name.to_string(),
        name: None,
        email: None,
        github: None,
    }
}

#[test]
fn test_validate_simple_config() {
    let validator = validator();
    let config = RequirementConfig {
        version: "1.0".to_string(),
        aliases: vec![],
        requirements: vec![Requirement::new("Test")],
    };
    let doc = document(r#"{"version": "1.0", "requirements": [{"summary": "Test"}]}"#);

    assert!(validator.validate(&config, &doc).is_ok());
}

#[test]
fn test_duplicate_summary() {
    let config = RequirementConfig {
        version: "1.0".to_string(),
        aliases: vec![],
        requirements: vec![Requirement::new("Test"), Requirement::new("Test")],
    };
    let doc = document(r#"{"version": "1.0", "requirements": [{"summary": "Test"}, {"summary": "Test"}]}"#);

    let result = validator().validate(&config, &doc);
    assert!(result.is_err());
    assert!(matches!(result.unwrap_err(), Error::DuplicateSummary(_)));
}

#[test]
fn test_valid_alias_owner() {
    let config = RequirementConfig {
        version: "1.0".to_string(),
        aliases: vec![PersonAlias {
            alias: "john".to_string(),
            name: None,
            email: None,
            github: None,
        }],
        requirements: vec![{
            let mut req = Requirement::new("Test");
            req.owner = Some(OwnerReference::String("john".to_string()));
            req
        }],
    };
    let doc = document(
        r#"{"version": "1.0", "aliases": [{"alias": "john"}], "requirements": [{"summary": "Test", "owner": "john"}]}"#,
    );

    assert!(validator().validate(&config, &doc).is_ok());
}

#[test]
fn test_invalid_alias_owner() {
    let config = RequirementConfig {
        version: "1.0".to_string(),
        aliases: vec![],
        requirements: vec![{
            let mut req = Requirement::new("Test");
            req.owner = Some(OwnerReference::String("nonexistent".to_string()));
            req
        }],
    };
    let doc = document(r#"{"version": "1.0", "requirements": [{"summary": "Test", "owner": "nonexistent"}]}"#);

    let result = validator().validate(&config, &doc);
    assert!(result.is_err());
}

#[test]
fn test_email_owner() {
    let config = RequirementConfig {
        version: "1.0".to_string(),
        aliases: vec![],
        requirements: vec![{
            let mut req = Requirement::new("Test");
            req.owner = Some(OwnerReference::String("test@example.com".to_string()));
            req
        }],
    };
    let doc = document(
        r#"{"version": "1.0", "requirements": [{"summary": "Test", "owner": "test@example.com"}]}"#,
    );

    assert!(validator().validate(&config, &doc).is_ok());
}

#[test]
fn schema_violation_comes_first() {
    let validator = validator();
    let config = config_with(vec![], vec![Requirement::new("T"), Requirement::new("T")]);
    let doc = document(r#"{"version": 1, "requirements": [{"summary": "T"}, {"summary": "T"}]}"#);
    assert!(matches!(
        validator.validate(&config, &doc),
        Err(Error::SchemaValidation(_))
    ));
}

#[test]
fn violations_are_joined_in_order() {
    let config = config_with(vec![], vec![Requirement::new("T")]);
    let violations = vec!["first".to_string(), "second".to_string()];
    match validate_document(&config, &violations) {
        Err(Error::SchemaValidation(msg)) => assert_eq!(msg, "first; second"),
        _ => panic!("expected a schema error"),
    }
}

#[test]
fn bad_schema_is_refused() {
    let schema: serde_json::Value = serde_json::from_str(r#"{"type": 12}"#).unwrap();
    match Validator::new(&schema) {
        Err(Error::Custom(m)) => assert!(m.starts_with("Failed to compile schema: ")),
        _ => panic!("expected a compile error"),
    }
}

#[test]
fn distinct_summaries_make_the_document_valid() {
    let dup = config_with(vec![], vec![Requirement::new("Same"), owned("Same", "@x")]);
    match validate_document(&dup, &vec![]) {
        Err(Error::DuplicateSummary(s)) => assert_eq!(s, "Same"),
        _ => panic!("expected a duplicate"),
    }
    let distinct = config_with(vec![], vec![Requirement::new("Same"), owned("Other", "@x")]);
    assert!(validate_document(&distinct, &vec![]).is_ok());
}

#[test]
fn nested_duplicate_is_found_first_seen() {
    let mut parent = Requirement::new("P");
    parent.requirements.push(rqm_core::types::RequirementReference::Full(Box::new(
        Requirement::new("Q"),
    )));
    let config = config_with(
        vec![],
        vec![parent, Requirement::new("Q"), Requirement::new("P")],
    );
    match validate_document(&config, &vec![]) {
        Err(Error::DuplicateSummary(s)) => assert_eq!(s, "Q"),
        _ => panic!("expected a duplicate"),
    }
}

#[test]
fn owner_rules() {
    let with_alias = config_with(vec![alias("alice")], vec![owned("T", "alice")]);
    assert!(validate_document(&with_alias, &vec![]).is_ok());
    let without_alias = config_with(vec![], vec![owned("T", "alice")]);
    assert!(validate_document(&without_alias, &vec![]).is_err());
    let email = config_with(vec![], vec![owned("T", "a@b.com")]);
    assert!(validate_document(&email, &vec![]).is_ok());
    let handle = config_with(vec![], vec![owned("T", "@alice")]);
    assert!(validate_document(&handle, &vec![]).is_ok());
    let unknown = config_with(vec![alias("alice")], vec![owned("T", "unknown")]);
    match validate_document(&unknown, &vec![]) {
        Err(Error::InvalidOwner(msg)) => assert_eq!(
            msg,
            "'unknown' is not a valid email, GitHub username, or defined alias"
        ),
        _ => panic!("expected an invalid owner"),
    }
}

#[test]
fn duplicates_are_reported_before_owners() {
    let config = config_with(vec![], vec![owned("T", "nobody"), Requirement::new("T")]);
    assert!(matches!(
        validate_document(&config, &vec![]),
        Err(Error::DuplicateSummary(_))
    ));
}
