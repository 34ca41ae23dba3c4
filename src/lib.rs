//! Requirements management: a document model of nested requirements, a
//! dependency graph built from it, semantic validation rules and the
//! bookkeeping behind stable requirement identifiers.
use vstd::prelude::*;

pub mod types;
pub mod text;
pub mod error;
pub mod digraph;
pub mod graph;
pub mod metadata;
pub mod validator;

pub use error::Error;
pub use graph::RequirementGraph;
pub use metadata::{kebab_case, MetadataStore, ProjectConfig, RequirementMetadata};
pub use types::{OwnerReference, PersonAlias, Requirement, RequirementConfig};
pub use validator::Validator;

verus! {

/// Version of the library.
pub const VERSION: &'static str = "0.1.0";

} // verus!
