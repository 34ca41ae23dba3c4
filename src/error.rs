//! Errors of the requirements library.
use vstd::prelude::*;
use vstd::string::*;
use crate::text::{find_char, first_index, has_infix, text_contains};

verus! {

/// Error types for requirement operations.
#[derive(Debug, PartialEq)]
pub enum Error {
    /// The document text could not be read as a requirements document.
    YamlError(String),
    /// The document breaks the schema; the violation messages, joined.
    SchemaValidation(String),
    /// Reading or writing persisted data failed.
    IoError(String),
    /// No requirement has the given summary.
    RequirementNotFound(String),
    /// A cycle stands where none is allowed.
    CircularReference(String),
    /// A reference names a summary that no requirement has.
    InvalidReference(String),
    /// Two requirements share a summary.
    DuplicateSummary(String),
    /// An owner is neither an email, a handle nor a known alias.
    InvalidOwner(String),
    /// Traversal depth exceeded, or another graph failure.
    GraphError(String),
    /// Any other failure, with its message.
    Custom(String),
}

/// `prefix` followed by `detail`.
pub open spec fn labelled(prefix: &str, detail: Seq<char>) -> Seq<char> {
    prefix@ + detail
}

/// A new string holding `prefix` followed by `detail`.
fn with_prefix(prefix: &str, detail: &String) -> (r: String)
    ensures
        r@ == labelled(prefix, detail@),
{
    let mut r = String::from_str(prefix);
    r.append(detail.as_str());
    r
}

/// Hint added to a parse error about a malformed requirement entry.
pub const REFERENCE_HINT: &'static str = "\n\n\u{1f4a1} Hint: A requirement in the 'requirements' array has an invalid format.\n\
                \nValid formats:\n\
                  1. String reference (just the summary):\n\
                     - \"Parent Requirement Summary\"\n\
                  \n\
                  2. Full requirement object:\n\
                     - summary: \"Requirement summary\"\n\
                       description: \"Description text\"\n\
                       requirements: [...]  # optional nested requirements\n\
                \n\u{1f50d} Common issues:\n\
                  \u{2022} Missing 'summary' field in a requirement object\n\
                  \u{2022} Using a mapping (key: value) instead of a string for reference\n\
                  \u{2022} Incorrect indentation in nested requirements";

/// Start of the hint added to a parse error about a missing field, before
/// the field's name.
pub const MISSING_FIELD_HEAD: &'static str = "\n\n\u{1f4a1} Required field '";

/// Rest of the hint added to a parse error about a missing field.
pub const MISSING_FIELD_TAIL: &'static str = "' is missing.\n\
                \nEach requirement must have a 'summary' field.\n\
                \nMinimal example:\n\
                  requirements:\n\
                    - summary: \"My requirement\"\n\
                \nFull example:\n\
                  requirements:\n\
                    - summary: \"User Authentication\"\n\
                      name: \"AUTH-001\"\n\
                      description: \"System must authenticate users\"\n\
                      owner: \"user@example.com\"";

/// Hint added to any other parse error that states what was expected.
pub const SYNTAX_HINT: &'static str = "\n\n\u{1f4a1} Hint: Check the YAML syntax and structure.\n\
                \nCommon issues:\n\
                  \u{2022} Incorrect indentation (YAML uses 2 spaces)\n\
                  \u{2022} Missing colon after field names\n\
                  \u{2022} Using tabs instead of spaces\n\
                  \u{2022} Unclosed quotes\n\
                \nExample of correct structure:\n\
                  version: \"1.0\"\n\
                  requirements:\n\
                    - summary: \"Requirement 1\"\n\
                      description: \"Description here\"";

/// The text between the first and the second `c` of `s` (to the end where
/// there is no second), or none where `s` holds no `c`.
pub open spec fn second_piece(s: Seq<char>, c: char) -> Option<Seq<char>> {
    let i = first_index(s, c);
    if i < 0 {
        None
    } else {
        let rest = s.subrange(i + 1, s.len() as int);
        let j = first_index(rest, c);
        Some(if j < 0 { rest } else { rest.subrange(0, j) })
    }
}

/// A parse error message with the hint that fits it: about requirement
/// entries, about a missing field (named between backquotes), or about
/// syntax; other messages stay as they are.
pub open spec fn enhanced_message(msg: Seq<char>) -> Seq<char> {
    if has_infix(msg, "RequirementReference"@) {
        msg + REFERENCE_HINT@
    } else if has_infix(msg, "missing field"@) {
        msg + MISSING_FIELD_HEAD@ + match second_piece(msg, '`') {
            Some(p) => p,
            None => "unknown"@,
        } + MISSING_FIELD_TAIL@
    } else if has_infix(msg, "expected"@) {
        msg + SYNTAX_HINT@
    } else {
        msg
    }
}

impl Error {
    /// A parse error built from the parser's message, with a hint on how to
    /// fix the document where one fits.
    pub fn enhance_yaml_error(msg: &str) -> (r: Error)
        ensures
            r is Custom,
            r.detail() == "YAML parsing error: "@ + enhanced_message(msg@),
    {
        let mut text = String::from_str("YAML parsing error: ");
        text.append(msg);
        if text_contains(msg, "RequirementReference") {
            text.append(REFERENCE_HINT);
        } else if text_contains(msg, "missing field") {
            text.append(MISSING_FIELD_HEAD);
            let n = msg.unicode_len();
            match find_char(msg, '`') {
                Some(i) => {
                    let rest = msg.substring_char(i + 1, n);
                    match find_char(rest, '`') {
                        Some(j) => text.append(rest.substring_char(0, j)),
                        None => text.append(rest),
                    }
                },
                None => text.append("unknown"),
            }
            text.append(MISSING_FIELD_TAIL);
        } else if text_contains(msg, "expected") {
            text.append(SYNTAX_HINT);
        }
        Error::Custom(text)
    }

    /// The message carried by the error, without its label.
    pub open spec fn detail(&self) -> Seq<char> {
        match self {
            Error::YamlError(m) => m@,
            Error::SchemaValidation(m) => m@,
            Error::IoError(m) => m@,
            Error::RequirementNotFound(m) => m@,
            Error::CircularReference(m) => m@,
            Error::InvalidReference(m) => m@,
            Error::DuplicateSummary(m) => m@,
            Error::InvalidOwner(m) => m@,
            Error::GraphError(m) => m@,
            Error::Custom(m) => m@,
        }
    }

    /// Create a custom error.
    pub fn custom(msg: &str) -> (r: Error)
        ensures
            r is Custom,
            r.detail() == msg@,
    {
        Error::Custom(String::from_str(msg))
    }

    /// Human-readable text of the error: a label for its kind, then its
    /// message.
    pub fn to_string(&self) -> (r: String)
        ensures
            r@ == match self {
                Error::YamlError(m) => labelled("YAML parsing error: ", m@),
                Error::SchemaValidation(m) => labelled("JSON schema validation error: ", m@),
                Error::IoError(m) => labelled("IO error: ", m@),
                Error::RequirementNotFound(m) => labelled("Requirement not found: ", m@),
                Error::CircularReference(m) => labelled("Circular reference detected: ", m@),
                Error::InvalidReference(m) => labelled("Invalid reference: ", m@),
                Error::DuplicateSummary(m) => labelled("Duplicate summary: ", m@),
                Error::InvalidOwner(m) => labelled("Invalid owner reference: ", m@),
                Error::GraphError(m) => labelled("Graph error: ", m@),
                Error::Custom(m) => m@,
            },
    {
        match self {
            Error::YamlError(m) => with_prefix("YAML parsing error: ", m),
            Error::SchemaValidation(m) => with_prefix("JSON schema validation error: ", m),
            Error::IoError(m) => with_prefix("IO error: ", m),
            Error::RequirementNotFound(m) => with_prefix("Requirement not found: ", m),
            Error::CircularReference(m) => with_prefix("Circular reference detected: ", m),
            Error::InvalidReference(m) => with_prefix("Invalid reference: ", m),
            Error::DuplicateSummary(m) => with_prefix("Duplicate summary: ", m),
            Error::InvalidOwner(m) => with_prefix("Invalid owner reference: ", m),
            Error::GraphError(m) => with_prefix("Graph error: ", m),
            Error::Custom(m) => m.clone(),
        }
    }
}

} // verus!
