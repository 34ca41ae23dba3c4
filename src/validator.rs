//! Validation of a requirements document: schema conformance first, then
//! unique summaries, then resolvable owners. The first failing stage
//! decides the error.
use vstd::prelude::*;
use vstd::string::*;
use jsonschema::JSONSchema;
use serde_json::Value;
use crate::error::Error;
use crate::text::text_eq;
use crate::types::{
    alias_table, derefs, email_like, handle_like, AliasMap, OwnerReference, PersonAlias,
    Requirement, RequirementConfig,
};

verus! {

#[verifier::external_type_specification]
#[verifier::external_body]
pub struct ExJSONSchema(jsonschema::JSONSchema);

#[verifier::external_type_specification]
#[verifier::external_body]
pub struct ExValue(serde_json::Value);

/// Whether `JSONSchema::compile` accepts a schema document.
pub uninterp spec fn schema_compiles(schema: Value) -> bool;

/// The message of the error with which `JSONSchema::compile` refuses a
/// schema document.
pub uninterp spec fn compile_error_of(schema: Value) -> Seq<char>;

/// Relies on `JSONSchema::compile`: the compiled schema, or the message of
/// the error that stopped compilation. Without remote schema resolution
/// whether it succeeds depends on the schema document alone.
#[verifier::external_body]
fn compile_schema(schema: &Value) -> (r: Result<JSONSchema, String>)
    ensures
        r is Ok == schema_compiles(*schema),
        r is Err ==> r->Err_0@ == compile_error_of(*schema),
{
    JSONSchema::compile(schema).map_err(|e| e.to_string())
}

/// The messages of the violations that a compiled schema finds in a
/// document, in the order the schema reports them.
pub uninterp spec fn violations_of(schema: JSONSchema, document: Value) -> Seq<Seq<char>>;

/// Relies on `JSONSchema::validate`: the message of each violation found in
/// `document`, none when it conforms. Without remote schema resolution the
/// outcome depends on the schema and the document alone.
#[verifier::external_body]
fn schema_violations(schema: &JSONSchema, document: &Value) -> (r: Vec<String>)
    ensures
        r@.map_values(|s: String| s@) == violations_of(*schema, *document),
{
    match schema.validate(document) {
        Ok(()) => Vec::new(),
        Err(errors) => errors.map(|e| e.to_string()).collect(),
    }
}

/// The texts of `parts` joined by `sep`.
pub open spec fn joined(parts: Seq<Seq<char>>, sep: Seq<char>) -> Seq<char>
    decreases parts.len(),
{
    if parts.len() == 0 {
        seq![]
    } else if parts.len() == 1 {
        parts[0]
    } else {
        joined(parts.drop_last(), sep) + sep + parts.last()
    }
}

/// Requirement `i` repeats the summary of an earlier one.
pub open spec fn repeats_summary(flat: Seq<Requirement>, i: int) -> bool {
    0 <= i < flat.len() && exists|j: int| 0 <= j < i && flat[j].summary@ == flat[i].summary@
}

/// Requirement `i` is the first, in document order, to repeat a summary.
pub open spec fn first_repeat(flat: Seq<Requirement>, i: int) -> bool {
    repeats_summary(flat, i) && forall|k: int| 0 <= k < i ==> !#[trigger] repeats_summary(flat, k)
}

/// An owner resolves when it looks like an email or a handle, or names an
/// alias.
pub open spec fn owner_resolves(o: OwnerReference, table: Map<Seq<char>, PersonAlias>) -> bool {
    email_like(o.text()) || handle_like(o.text()) || table.contains_key(o.text())
}

/// Requirement `i` has an owner that does not resolve.
pub open spec fn bad_owner(flat: Seq<Requirement>, table: Map<Seq<char>, PersonAlias>, i: int) -> bool {
    0 <= i < flat.len() && flat[i].owner is Some && !owner_resolves(flat[i].owner->Some_0, table)
}

/// Requirement `i` is the first, in document order, with an unresolvable
/// owner.
pub open spec fn first_bad_owner(flat: Seq<Requirement>, table: Map<Seq<char>, PersonAlias>, i: int) -> bool {
    bad_owner(flat, table, i) && forall|k: int| 0 <= k < i ==> !#[trigger] bad_owner(flat, table, k)
}

/// Message for an owner `v` that does not resolve.
pub open spec fn owner_message(v: Seq<char>) -> Seq<char> {
    "'"@ + v + "' is not a valid email, GitHub username, or defined alias"@
}

/// What the semantic rules make of a document: the first repeated summary,
/// else the first unresolvable owner, else success.
pub open spec fn semantic_outcome(config: RequirementConfig, r: Result<(), Error>) -> bool {
    let flat = config.flat();
    let table = alias_table(config.aliases@);
    if exists|i: int| repeats_summary(flat, i) {
        exists|i: int|
            first_repeat(flat, i) && r == Err::<(), Error>(Error::DuplicateSummary(r->Err_0->DuplicateSummary_0))
                && r->Err_0->DuplicateSummary_0@ == flat[i].summary@
    } else if exists|i: int| bad_owner(flat, table, i) {
        exists|i: int|
            first_bad_owner(flat, table, i) && r == Err::<(), Error>(Error::InvalidOwner(r->Err_0->InvalidOwner_0))
                && r->Err_0->InvalidOwner_0@ == owner_message(flat[i].owner->Some_0.text())
    } else {
        r is Ok
    }
}

/// Ensure all summaries are unique.
fn validate_unique_summaries(config: &RequirementConfig) -> (r: Result<(), Error>)
    ensures
        r is Ok <==> !exists|i: int| repeats_summary(config.flat(), i),
        r is Err ==> exists|i: int|
            first_repeat(config.flat(), i) && r == Err::<(), Error>(Error::DuplicateSummary(r->Err_0->DuplicateSummary_0))
                && r->Err_0->DuplicateSummary_0@ == config.flat()[i].summary@,
{
    let all = config.all_requirements();
    let ghost flat = derefs(all@);
    let mut i: usize = 0;
    while i < all.len()
        invariant
            flat == derefs(all@),
            flat == config.flat(),
            i <= flat.len(),
            forall|k: int| 0 <= k < i ==> !#[trigger] repeats_summary(flat, k),
        decreases flat.len() - i,
    {
        let mut j: usize = 0;
        while j < i
            invariant
                flat == derefs(all@),
                flat == config.flat(),
                i < flat.len(),
                j <= i,
                forall|k: int| 0 <= k < i ==> !#[trigger] repeats_summary(flat, k),
                forall|k: int| 0 <= k < j ==> flat[k].summary@ != flat[i as int].summary@,
            decreases i - j,
        {
            if text_eq(all[j].summary.as_str(), all[i].summary.as_str()) {
                assert(flat[j as int] == *all@[j as int] && flat[i as int] == *all@[i as int]);
                assert(flat[j as int].summary@ == flat[i as int].summary@);
                assert(repeats_summary(flat, i as int));
                assert(first_repeat(flat, i as int));
                return Err(Error::DuplicateSummary(all[i].summary.clone()));
            }
            j = j + 1;
        }
        i = i + 1;
    }
    Ok(())
}

/// `'v' is not a valid email, GitHub username, or defined alias`.
fn owner_text(v: &str) -> (r: String)
    ensures
        r@ == owner_message(v@),
{
    let mut r = String::from_str("'");
    r.append(v);
    r.append("' is not a valid email, GitHub username, or defined alias");
    r
}

/// Validate owner references point to valid aliases or are valid formats.
fn validate_owner_references(config: &RequirementConfig) -> (r: Result<(), Error>)
    ensures
        r is Ok <==> !exists|i: int| bad_owner(config.flat(), alias_table(config.aliases@), i),
        r is Err ==> exists|i: int|
            first_bad_owner(config.flat(), alias_table(config.aliases@), i) && r == Err::<(), Error>(Error::InvalidOwner(r->Err_0->InvalidOwner_0))
                && r->Err_0->InvalidOwner_0@ == owner_message(config.flat()[i].owner->Some_0.text()),
{
    let alias_map: AliasMap = config.alias_map();
    let all = config.all_requirements();
    let ghost flat = derefs(all@);
    let ghost table = alias_table(config.aliases@);
    let mut i: usize = 0;
    while i < all.len()
        invariant
            flat == derefs(all@),
            flat == config.flat(),
            table == alias_table(config.aliases@),
            alias_map.view() == table,
            i <= flat.len(),
            forall|k: int| 0 <= k < i ==> !#[trigger] bad_owner(flat, table, k),
        decreases flat.len() - i,
    {
        if let Some(owner) = &all[i].owner {
            let owner_str = owner.as_str();
            if !owner.is_email() && !owner.is_github() && !alias_map.contains_key(owner_str) {
                assert(flat[i as int] == *all@[i as int]);
                assert(bad_owner(flat, table, i as int));
                assert(first_bad_owner(flat, table, i as int));
                return Err(Error::InvalidOwner(owner_text(owner_str)));
            }
        }
        i = i + 1;
    }
    Ok(())
}

/// Join `parts` with `sep` between neighbours.
fn join_texts(parts: &Vec<String>, sep: &str) -> (r: String)
    ensures
        r@ == joined(parts@.map_values(|s: String| s@), sep@),
{
    let ghost texts = parts@.map_values(|s: String| s@);
    let mut r = String::new();
    let mut i: usize = 0;
    while i < parts.len()
        invariant
            texts == parts@.map_values(|s: String| s@),
            i <= parts@.len(),
            r@ == joined(texts.subrange(0, i as int), sep@),
        decreases parts@.len() - i,
    {
        if i > 0 {
            r.append(sep);
        }
        r.append(parts[i].as_str());
        proof {
            let t = texts.subrange(0, i + 1);
            assert(t.drop_last() == texts.subrange(0, i as int));
            if i == 0 {
                assert(t.len() == 1);
            }
        }
        i = i + 1;
    }
    assert(texts.subrange(0, i as int) == texts);
    r
}

/// The outcome of validation, given the schema violations found in the
/// document: a schema error carrying them all, joined by `"; "`, else the
/// semantic rules.
pub fn validate_document(config: &RequirementConfig, violations: &Vec<String>) -> (r: Result<(), Error>)
    ensures
        violations@.len() > 0 ==> r is Err && r->Err_0 is SchemaValidation && r->Err_0->SchemaValidation_0@
            == joined(violations@.map_values(|s: String| s@), "; "@),
        violations@.len() == 0 ==> semantic_outcome(*config, r),
{
    if violations.len() > 0 {
        return Err(Error::SchemaValidation(join_texts(violations, "; ")));
    }
    match validate_unique_summaries(config) {
        Ok(()) => {},
        Err(e) => return Err(e),
    }
    validate_owner_references(config)
}

/// Validator for requirement documents against a compiled schema.
pub struct Validator {
    schema: JSONSchema,
}

impl Validator {
    /// The compiled schema.
    pub closed spec fn compiled(&self) -> JSONSchema {
        self.schema
    }

    /// Create a validator from a schema document.
    pub fn new(schema: &Value) -> (r: Result<Validator, Error>)
        ensures
            r is Ok <==> schema_compiles(*schema),
            r is Err ==> r->Err_0 is Custom && r->Err_0.detail() == "Failed to compile schema: "@
                + compile_error_of(*schema),
    {
        match compile_schema(schema) {
            Ok(compiled) => Ok(Validator { schema: compiled }),
            Err(msg) => {
                let mut text = String::from_str("Failed to compile schema: ");
                text.append(msg.as_str());
                Err(Error::Custom(text))
            },
        }
    }

    /// Validate a RequirementConfig, with `document` its generic structured
    /// form, against the schema and then the semantic rules.
    pub fn validate(&self, config: &RequirementConfig, document: &Value) -> (r: Result<(), Error>)
        ensures
            violations_of(self.compiled(), *document).len() > 0 ==> r is Err && r->Err_0 is SchemaValidation
                && r->Err_0->SchemaValidation_0@ == joined(violations_of(self.compiled(), *document), "; "@),
            violations_of(self.compiled(), *document).len() == 0 ==> semantic_outcome(*config, r),
    {
        let violations = schema_violations(&self.schema, document);
        validate_document(config, &violations)
    }
}

} // verus!
