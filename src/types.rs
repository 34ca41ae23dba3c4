//! The requirements document: requirements, references between them,
//! person aliases and owner references.
use vstd::prelude::*;
use crate::text::text_eq;

verus! {

/// Root of a requirements document.
#[derive(Debug, PartialEq)]
pub struct RequirementConfig {
    /// Schema version
    pub version: String,
    /// Person aliases for ownership
    pub aliases: Vec<PersonAlias>,
    /// Top-level requirements
    pub requirements: Vec<Requirement>,
}

/// Person alias for requirement ownership.
#[derive(Debug, Clone, PartialEq)]
pub struct PersonAlias {
    /// Short alias identifier
    pub alias: String,
    /// Full name of the person
    pub name: Option<String>,
    /// Email address
    pub email: Option<String>,
    /// GitHub username
    pub github: Option<String>,
}

/// Owner reference (email, GitHub username, or alias).
#[derive(Debug, Clone, PartialEq)]
pub enum OwnerReference {
    String(String),
}

/// Priority level for requirements.
#[derive(Debug, Clone, Copy, PartialEq, Eq)]
pub enum Priority {
    Critical,
    High,
    Medium,
    Low,
}

/// Status of a requirement.
#[derive(Debug, Clone, Copy, PartialEq, Eq)]
pub enum Status {
    Draft,
    Proposed,
    Approved,
    Implemented,
    Verified,
    Deprecated,
}

/// A child of a requirement: defined inline, or named by its summary.
#[derive(Debug, PartialEq)]
pub enum RequirementReference {
    /// Full requirement definition
    Full(Box<Requirement>),
    /// Reference by summary
    Reference(String),
}

/// A single requirement.
#[derive(Debug, PartialEq)]
pub struct Requirement {
    /// Short, unique identifier (required)
    pub summary: String,
    /// Optional human-friendly name or ID
    pub name: Option<String>,
    /// Detailed description
    pub description: Option<String>,
    /// Rationale for the requirement
    pub justification: Option<String>,
    /// Acceptance criteria text
    pub acceptance_test: Option<String>,
    /// URL to acceptance test documentation
    pub acceptance_test_link: Option<String>,
    /// Owner reference
    pub owner: Option<OwnerReference>,
    /// Child requirements
    pub requirements: Vec<RequirementReference>,
    /// Additional information
    pub further_information: Vec<String>,
    /// Tags for categorization
    pub tags: Vec<String>,
    /// Priority level
    pub priority: Option<Priority>,
    /// Current status
    pub status: Option<Status>,
    /// Creation timestamp
    pub created_at: Option<String>,
    /// Last update timestamp
    pub updated_at: Option<String>,
}

/// The values behind a sequence of references.
pub open spec fn derefs(s: Seq<&Requirement>) -> Seq<Requirement> {
    s.map_values(|r: &Requirement| *r)
}

/// Depth-first flattening of a requirement: itself, then the flattening of
/// each inline child in order. References are not expanded.
pub open spec fn flat_of(r: Requirement) -> Seq<Requirement>
    decreases r,
{
    seq![r] + flat_of_children(r.requirements@)
}

/// Flattening of the inline children among `refs`, in order.
pub open spec fn flat_of_children(refs: Seq<RequirementReference>) -> Seq<Requirement>
    decreases refs,
{
    if refs.len() == 0 {
        seq![]
    } else {
        flat_of_children(refs.drop_last()) + match refs.last() {
            RequirementReference::Full(b) => flat_of(*b),
            RequirementReference::Reference(_) => seq![],
        }
    }
}

/// Flattening of a list of top-level requirements, in order.
pub open spec fn flat_of_list(reqs: Seq<Requirement>) -> Seq<Requirement>
    decreases reqs.len(),
{
    if reqs.len() == 0 {
        seq![]
    } else {
        flat_of_list(reqs.drop_last()) + flat_of(reqs.last())
    }
}

/// Alias table: each alias string maps to the last record that declares it.
pub open spec fn alias_table(aliases: Seq<PersonAlias>) -> Map<Seq<char>, PersonAlias>
    decreases aliases.len(),
{
    if aliases.len() == 0 {
        Map::empty()
    } else {
        alias_table(aliases.drop_last()).insert(aliases.last().alias@, aliases.last())
    }
}

/// Whether an owner string has the shape of an email address.
pub open spec fn email_like(s: Seq<char>) -> bool {
    s.contains('@') && !(s.len() > 0 && s[0] == '@')
}

/// Whether an owner string has the shape of a GitHub handle.
pub open spec fn handle_like(s: Seq<char>) -> bool {
    s.len() > 0 && s[0] == '@'
}

/// Aliases of a document, looked up by alias string.
pub struct AliasMap<'a> {
    entries: Vec<&'a PersonAlias>,
}

impl<'a> AliasMap<'a> {
    /// Alias string to the last record that declares it.
    pub closed spec fn view(&self) -> Map<Seq<char>, PersonAlias> {
        alias_table(derefs_alias(self.entries@))
    }

    /// Whether some record declares `alias`.
    pub fn contains_key(&self, alias: &str) -> (r: bool)
        ensures
            r == self.view().contains_key(alias@),
    {
        self.get(alias).is_some()
    }

    /// The last record that declares `alias`, if any.
    pub fn get(&self, alias: &str) -> (r: Option<&'a PersonAlias>)
        ensures
            r is Some == self.view().contains_key(alias@),
            r is Some ==> *r->Some_0 == self.view()[alias@],
    {
        let ghost s = derefs_alias(self.entries@);
        let mut i = self.entries.len();
        while i > 0
            invariant
                i <= self.entries@.len(),
                s == derefs_alias(self.entries@),
                forall|k: int| i <= k < s.len() ==> s[k].alias@ != alias@,
            decreases i,
        {
            let e = self.entries[i - 1];
            if text_eq(e.alias.as_str(), alias) {
                proof {
                    lemma_alias_table(s, alias@);
                    assert(s[i - 1] == *e);
                    assert(alias_table(s)[alias@] == s[i - 1]);
                }
                return Some(e);
            }
            i = i - 1;
        }
        proof {
            lemma_alias_table(s, alias@);
        }
        None
    }
}

/// What the alias table holds for `a`: present exactly when some record
/// declares it, and then the last such record.
pub proof fn lemma_alias_table(s: Seq<PersonAlias>, a: Seq<char>)
    ensures
        alias_table(s).contains_key(a) <==> exists|j: int| 0 <= j < s.len() && s[j].alias@ == a,
        forall|j: int|
            0 <= j < s.len() && s[j].alias@ == a && (forall|k: int| j < k < s.len() ==> s[k].alias@ != a)
                ==> alias_table(s)[a] == s[j],
    decreases s.len(),
{
    if s.len() > 0 {
        let p = s.drop_last();
        lemma_alias_table(p, a);
        assert forall|j: int| 0 <= j < p.len() implies p[j] == s[j] by {}
        if s.last().alias@ != a {
            if exists|j: int| 0 <= j < s.len() && s[j].alias@ == a {
                let j = choose|j: int| 0 <= j < s.len() && s[j].alias@ == a;
                assert(p[j].alias@ == a);
            }
        } else {
            assert(s[s.len() - 1].alias@ == a);
        }
    }
}

/// The values behind a sequence of alias references.
pub open spec fn derefs_alias(s: Seq<&PersonAlias>) -> Seq<PersonAlias> {
    s.map_values(|r: &PersonAlias| *r)
}

impl RequirementConfig {
    /// All requirements of the document, flattened depth-first.
    pub open spec fn flat(&self) -> Seq<Requirement> {
        flat_of_list(self.requirements@)
    }

    /// Get a map of aliases for quick lookup.
    pub fn alias_map(&self) -> (r: AliasMap<'_>)
        ensures
            r.view() == alias_table(self.aliases@),
    {
        let mut entries: Vec<&PersonAlias> = Vec::new();
        let mut i: usize = 0;
        while i < self.aliases.len()
            invariant
                i <= self.aliases@.len(),
                derefs_alias(entries@) == self.aliases@.subrange(0, i as int),
            decreases self.aliases@.len() - i,
        {
            entries.push(&self.aliases[i]);
            assert(self.aliases@.subrange(0, i + 1) == self.aliases@.subrange(0, i as int).push(self.aliases@[i as int]));
            assert(derefs_alias(entries@) == self.aliases@.subrange(0, i + 1));
            i = i + 1;
        }
        assert(self.aliases@.subrange(0, i as int) == self.aliases@);
        AliasMap { entries }
    }

    /// Flatten all requirements into a single list.
    pub fn all_requirements(&self) -> (r: Vec<&Requirement>)
        ensures
            derefs(r@) == self.flat(),
    {
        let mut all: Vec<&Requirement> = Vec::new();
        let mut i: usize = 0;
        while i < self.requirements.len()
            invariant
                i <= self.requirements@.len(),
                derefs(all@) == flat_of_list(self.requirements@.subrange(0, i as int)),
            decreases self.requirements@.len() - i,
        {
            let sub = self.requirements[i].flatten();
            append_refs(&mut all, sub);
            assert(self.requirements@.subrange(0, i + 1).drop_last() == self.requirements@.subrange(0, i as int));
            i = i + 1;
        }
        assert(self.requirements@.subrange(0, i as int) == self.requirements@);
        all
    }
}

/// Moves the references of `extra` to the end of `dst`.
fn append_refs<'a>(dst: &mut Vec<&'a Requirement>, extra: Vec<&'a Requirement>)
    ensures
        derefs(final(dst)@) == derefs(old(dst)@) + derefs(extra@),
{
    let mut j: usize = 0;
    while j < extra.len()
        invariant
            j <= extra@.len(),
            derefs(dst@) == derefs(old(dst)@) + derefs(extra@.subrange(0, j as int)),
        decreases extra@.len() - j,
    {
        let ghost prev = dst@;
        dst.push(extra[j]);
        assert(derefs(dst@) =~= derefs(prev).push(*extra@[j as int]));
        assert(derefs(extra@.subrange(0, j + 1)) =~= derefs(extra@.subrange(0, j as int)).push(*extra@[j as int]));
        assert(derefs(dst@) =~= derefs(old(dst)@) + derefs(extra@.subrange(0, j + 1)));
        j = j + 1;
    }
    assert(extra@.subrange(0, j as int) == extra@);
}

impl OwnerReference {
    /// The owner string.
    pub open spec fn text(&self) -> Seq<char> {
        match self {
            OwnerReference::String(s) => s@,
        }
    }

    /// Check if this is an email reference.
    pub fn is_email(&self) -> (r: bool)
        ensures
            r == email_like(self.text()),
    {
        match self {
            OwnerReference::String(s) => {
                let t = s.as_str();
                let n = t.unicode_len();
                let mut i: usize = 0;
                let mut found = false;
                while i < n
                    invariant
                        n == t@.len(),
                        t@ == s@,
                        i <= n,
                        found == exists|k: int| 0 <= k < i && t@[k] == '@',
                    decreases n - i,
                {
                    if t.get_char(i) == '@' {
                        found = true;
                    }
                    i = i + 1;
                }
                found && !(n > 0 && t.get_char(0) == '@')
            },
        }
    }

    /// Check if this is a GitHub username reference.
    pub fn is_github(&self) -> (r: bool)
        ensures
            r == handle_like(self.text()),
    {
        match self {
            OwnerReference::String(s) => {
                let t = s.as_str();
                t.unicode_len() > 0 && t.get_char(0) == '@'
            },
        }
    }

    /// Get the string value.
    pub fn as_str(&self) -> (r: &str)
        ensures
            r@ == self.text(),
    {
        match self {
            OwnerReference::String(s) => s.as_str(),
        }
    }
}

impl Requirement {
    /// Create a new requirement with just a summary.
    pub fn new(summary: &str) -> (r: Requirement)
        ensures
            r.summary@ == summary@,
            r.name is None,
            r.description is None,
            r.justification is None,
            r.acceptance_test is None,
            r.acceptance_test_link is None,
            r.owner is None,
            r.requirements@.len() == 0,
            r.further_information@.len() == 0,
            r.tags@.len() == 0,
            r.priority is None,
            r.status is None,
            r.created_at is None,
            r.updated_at is None,
    {
        Requirement {
            summary: String::from_str(summary),
            name: None,
            description: None,
            justification: None,
            acceptance_test: None,
            acceptance_test_link: None,
            owner: None,
            requirements: Vec::new(),
            further_information: Vec::new(),
            tags: Vec::new(),
            priority: None,
            status: None,
            created_at: None,
            updated_at: None,
        }
    }

    /// Flatten this requirement and all children into a list.
    pub fn flatten(&self) -> (r: Vec<&Requirement>)
        ensures
            derefs(r@) == flat_of(*self),
        decreases self,
    {
        let mut result: Vec<&Requirement> = vec![self];
        let mut i: usize = 0;
        while i < self.requirements.len()
            invariant
                i <= self.requirements@.len(),
                derefs(result@) == seq![*self] + flat_of_children(self.requirements@.subrange(0, i as int)),
            decreases self.requirements@.len() - i,
        {
            assert(self.requirements@.subrange(0, i + 1).drop_last() == self.requirements@.subrange(0, i as int));
            match &self.requirements[i] {
                RequirementReference::Full(req) => {
                    assert(decreases_to!(*self => self.requirements));
                    assert(decreases_to!(self.requirements => self.requirements@[i as int]));
                    let sub = req.flatten();
                    append_refs(&mut result, sub);
                },
                RequirementReference::Reference(_) => {},
            }
            i = i + 1;
        }
        assert(self.requirements@.subrange(0, i as int) == self.requirements@);
        result
    }

    /// Get the ID (name or summary).
    pub fn id(&self) -> (r: &str)
        ensures
            r@ == match self.name {
                Some(n) => n@,
                None => self.summary@,
            },
    {
        match &self.name {
            Some(n) => n.as_str(),
            None => self.summary.as_str(),
        }
    }
}

} // verus!
