use rqm_core::Error;

#[test]
fn test_custom_error() {
    let err = Error::custom("test error");
    assert_eq!(err.to_string(), "test error");
}

#[test]
fn test_schema_validation_error() {
    let err = Error::SchemaValidation("invalid schema".to_string());
    assert!(err.to_string().contains("schema validation"));
}

#[test]
fn test_requirement_not_found() {
    let err = Error::RequirementNotFound("REQ-001".to_string());
    assert!(err.to_string().contains("REQ-001"));
    assert!(err.to_string().contains("not found"));
}

#[test]
fn test_circular_reference_error() {
    let err = Error::CircularReference("A -> B -> A".to_string());
    assert!(err.to_string().contains("Circular reference"));
    assert!(err.to_string().contains("A -> B -> A"));
}

#[test]
fn test_invalid_reference_error() {
    let err = Error::InvalidReference("unknown ref".to_string());
    assert!(err.to_string().contains("Invalid reference"));
}

#[test]
fn test_duplicate_summary_error() {
    let err = Error::DuplicateSummary("Test Summary".to_string());
    assert!(err.to_string().contains("Duplicate"));
    assert!(err.to_string().contains("Test Summary"));
}

#[test]
fn test_invalid_owner_error() {
    let err = Error::InvalidOwner("@unknown".to_string());
    assert!(err.to_string().contains("Invalid owner"));
}

#[test]
fn test_graph_error() {
    let err = Error::GraphError("cycle detected".to_string());
    assert!(err.to_string().contains("Graph error"));
}

#[test]
fn error_texts_are_exact() {
    assert_eq!(
        Error::YamlError("bad".to_string()).to_string(),
        "YAML parsing error: bad"
    );
    assert_eq!(Error::IoError("gone".to_string()).to_string(), "IO error: gone");
    assert_eq!(
        Error::InvalidOwner("x".to_string()).to_string(),
        "Invalid owner reference: x"
    );
    assert_eq!(
        Error::CircularReference("c".to_string()).to_string(),
        "Circular reference detected: c"
    );
}

#[test]
fn parse_errors_get_hints_that_fit() {
    match Error::enhance_yaml_error("requirements[0]: missing field `summary` at line 3") {
        Error::Custom(m) => {
            assert!(m.starts_with(
                "YAML parsing error: requirements[0]: missing field `summary` at line 3\n\n"
            ));
            assert!(m.contains("Required field 'summary' is missing."));
            assert!(m.contains("\nMinimal example:\nrequirements:\n- summary: \"My requirement\"\n"));
        }
        _ => panic!("expected a custom error"),
    }
    match Error::enhance_yaml_error("missing field without a name") {
        Error::Custom(m) => assert!(m.contains("Required field 'unknown' is missing.")),
        _ => panic!("expected a custom error"),
    }
    match Error::enhance_yaml_error("data did not match any variant of untagged enum RequirementReference") {
        Error::Custom(m) => {
            assert!(m.contains("Hint: A requirement in the 'requirements' array has an invalid format."));
            assert!(m.ends_with("Incorrect indentation in nested requirements"));
        }
        _ => panic!("expected a custom error"),
    }
    match Error::enhance_yaml_error("invalid type: expected a sequence") {
        Error::Custom(m) => assert!(m.contains("Hint: Check the YAML syntax and structure.")),
        _ => panic!("expected a custom error"),
    }
    assert_eq!(
        Error::enhance_yaml_error("something else").to_string(),
        "YAML parsing error: something else"
    );
}
