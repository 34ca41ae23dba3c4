//! Bookkeeping behind stable requirement identifiers: kebab-case keys,
//! summary hashes, sequential generated IDs and the decisions of the
//! metadata store.
use vstd::prelude::*;
use vstd::string::*;
use std::hash::{Hash, Hasher};
use uuid::Uuid;
use crate::error::Error;
use crate::text::{push_char, text_eq};
use crate::types::Requirement;

verus! {

/// What `str::to_lowercase` makes of a string.
pub uninterp spec fn lower_of(s: Seq<char>) -> Seq<char>;

/// Whether `char::is_alphanumeric` holds of a character.
pub uninterp spec fn alnum_of(c: char) -> bool;

/// What the standard library's default hasher makes of a string.
pub uninterp spec fn default_hash_of(s: Seq<char>) -> u64;

/// Relies on `str::to_lowercase`: the result depends on the characters
/// alone, and the empty string stays empty.
#[verifier::external_body]
fn to_lower(s: &str) -> (r: String)
    ensures
        r@ == lower_of(s@),
        s@.len() == 0 ==> r@.len() == 0,
{
    s.to_lowercase()
}

/// Relies on `char::is_alphanumeric`: alphabetic or numeric in Unicode.
#[verifier::external_body]
fn is_alnum(c: char) -> (r: bool)
    ensures
        r == alnum_of(c),
{
    c.is_alphanumeric()
}

/// Relies on `Hash for str` fed to a fresh `DefaultHasher`: every hasher
/// made by `DefaultHasher::new` starts alike, so the value depends on the
/// characters alone.
#[verifier::external_body]
fn default_hash(s: &str) -> (r: u64)
    ensures
        r == default_hash_of(s@),
{
    let mut hasher = std::collections::hash_map::DefaultHasher::new();
    s.hash(&mut hasher);
    hasher.finish()
}

/// Kebab-case of an already lowercased text: each maximal run of
/// alphanumeric characters is kept, runs are joined by one `-`, and nothing
/// else remains.
pub open spec fn kebab_of(t: Seq<char>) -> Seq<char>
    decreases t.len(),
{
    if t.len() == 0 {
        seq![]
    } else {
        let k = kebab_of(t.drop_last());
        let c = t.last();
        if !alnum_of(c) {
            k
        } else if t.len() >= 2 && !alnum_of(t[t.len() - 2]) && k.len() > 0 {
            k.push('-').push(c)
        } else {
            k.push(c)
        }
    }
}

/// The kebab-case form of a lowercased text.
pub fn kebab_from_lowered(t: &str) -> (r: String)
    ensures
        r@ == kebab_of(t@),
{
    let n = t.unicode_len();
    let mut r = String::new();
    let mut prev_alnum = false;
    let mut i: usize = 0;
    while i < n
        invariant
            n == t@.len(),
            i <= n,
            r@ == kebab_of(t@.subrange(0, i as int)),
            i > 0 ==> prev_alnum == alnum_of(t@[i - 1]),
        decreases n - i,
    {
        let c = t.get_char(i);
        let a = is_alnum(c);
        let ghost pre = t@.subrange(0, i as int);
        assert(t@.subrange(0, i + 1).drop_last() == pre);
        assert(t@.subrange(0, i + 1).last() == c);
        if a {
            if i > 0 && !prev_alnum && r.unicode_len() > 0 {
                assert(t@.subrange(0, i + 1)[i - 1] == t@[i - 1]);
                push_char(&mut r, '-');
            }
            push_char(&mut r, c);
        }
        prev_alnum = a;
        i = i + 1;
    }
    assert(t@.subrange(0, n as int) == t@);
    r
}

/// Convert a string to kebab-case: lowercase, each run of characters that
/// are not alphanumeric becomes one `-`, with none at either end.
pub fn kebab_case(s: &str) -> (r: String)
    ensures
        r@ == kebab_of(lower_of(s@)),
{
    let lowered = to_lower(s);
    kebab_from_lowered(lowered.as_str())
}

/// The character of a digit below sixteen, in lowercase.
pub open spec fn digit_char(d: nat) -> char {
    if d < 10 {
        ((48 + d) as u8) as char
    } else {
        ((87 + d) as u8) as char
    }
}

/// Digits of `v` in base `b`, most significant first, without leading
/// zeros; zero is written `0`.
pub open spec fn digits(v: nat, b: nat) -> Seq<char>
    decreases v
    via digits_decreases
{
    if b < 2 || v < b {
        seq![digit_char(v % 16)]
    } else {
        digits(v / b, b).push(digit_char(v % b))
    }
}

#[via_fn]
proof fn digits_decreases(v: nat, b: nat) {
    if !(b < 2 || v < b) {
        assert(v / b < v) by (nonlinear_arith)
            requires
                b >= 2,
                v >= b,
        ;
    }
}

/// `v` in lowercase hexadecimal.
pub open spec fn hex_of(v: nat) -> Seq<char> {
    digits(v, 16)
}

/// `v` in decimal, padded with leading zeros to at least three digits.
pub open spec fn padded3(v: nat) -> Seq<char> {
    let d = digits(v, 10);
    if d.len() >= 3 {
        d
    } else {
        Seq::new((3 - d.len()) as nat, |i: int| '0') + d
    }
}

/// The ID generated for sequence number `n` under `prefix`.
pub open spec fn generated_id_of(prefix: Seq<char>, n: nat) -> Seq<char> {
    prefix + seq!['-'] + padded3(n)
}

/// The character of digit `d`.
fn digit(d: u64) -> (c: char)
    requires
        d < 16,
    ensures
        c == digit_char(d as nat),
{
    if d < 10 {
        ((48 + d) as u8) as char
    } else {
        ((87 + d) as u8) as char
    }
}

/// Digits of `v` in base `b`, appended to `out`.
fn push_digits(out: &mut String, v: u64, b: u64)
    requires
        b == 10 || b == 16,
    ensures
        final(out)@ == old(out)@ + digits(v as nat, b as nat),
    decreases v,
{
    if v < b {
        push_char(out, digit(v));
    } else {
        push_digits(out, v / b, b);
        push_char(out, digit(v % b));
    }
}

/// `v` in lowercase hexadecimal.
pub fn hex_string(v: u64) -> (r: String)
    ensures
        r@ == hex_of(v as nat),
{
    let mut r = String::new();
    push_digits(&mut r, v, 16);
    r
}

/// The summary hash used for change detection.
pub fn hash_string(s: &str) -> (r: String)
    ensures
        r@ == hex_of(default_hash_of(s@) as nat),
{
    hex_string(default_hash(s))
}

/// Configuration for a project's ID generation.
#[derive(Debug, Clone, PartialEq)]
pub struct ProjectConfig {
    /// Prefix for generated IDs (e.g., "RQM")
    pub project_prefix: String,
    /// Next sequential ID number
    pub next_id: u32,
}

impl ProjectConfig {
    /// Create a new project configuration, counting from one.
    pub fn new(prefix: String) -> (r: ProjectConfig)
        ensures
            r.project_prefix@ == prefix@,
            r.next_id == 1,
    {
        ProjectConfig { project_prefix: prefix, next_id: 1 }
    }

    /// Generate the next ID and increment the counter.
    pub fn next_id(&mut self) -> (r: String)
        requires
            old(self).next_id < u32::MAX,
        ensures
            r@ == generated_id_of(old(self).project_prefix@, old(self).next_id as nat),
            final(self).next_id == old(self).next_id + 1,
            final(self).project_prefix@ == old(self).project_prefix@,
    {
        let mut id = self.project_prefix.clone();
        push_char(&mut id, '-');
        let n = self.next_id as u64;
        if n < 10 {
            push_char(&mut id, '0');
            push_char(&mut id, '0');
        } else if n < 100 {
            push_char(&mut id, '0');
        }
        proof {
            lemma_digits_len(n as nat);
        }
        push_digits(&mut id, n, 10);
        assert(id@ =~= generated_id_of(old(self).project_prefix@, old(self).next_id as nat));
        self.next_id = self.next_id + 1;
        id
    }
}

/// How many decimal digits small numbers have.
proof fn lemma_digits_len(v: nat)
    ensures
        v < 10 ==> digits(v, 10).len() == 1,
        10 <= v < 100 ==> digits(v, 10).len() == 2,
        v >= 100 ==> digits(v, 10).len() >= 3,
    decreases v,
{
    if v >= 10 {
        lemma_digits_len(v / 10);
        if v >= 100 {
            assert(v / 10 >= 10);
        } else {
            assert(v / 10 < 10);
        }
    }
}

#[verifier::external_type_specification]
#[verifier::external_body]
pub struct ExUuid(uuid::Uuid);

/// A point in time: whole seconds since the Unix epoch and the nanoseconds
/// past them.
#[derive(Debug, Clone, Copy, PartialEq, Eq)]
pub struct Timestamp {
    pub seconds: i64,
    pub nanos: u32,
}

/// Relies on `uuid::Uuid::new_v4`: a random identifier, so nothing is known
/// of it.
#[verifier::external_body]
fn new_uuid() -> (r: Uuid) {
    Uuid::new_v4()
}

/// Relies on `From<SystemTime> for chrono::DateTime<Utc>`: the current
/// time, as seconds and nanoseconds; a clock set before 1970 gives negative
/// seconds. The conversion fails only outside chrono's range of about
/// 262,000 years, which a system clock does not reach.
#[verifier::external_body]
fn now() -> (r: Timestamp) {
    let t = chrono::DateTime::<chrono::Utc>::from(std::time::SystemTime::now());
    Timestamp { seconds: t.timestamp(), nanos: t.timestamp_subsec_nanos() }
}

/// Metadata for a single requirement.
#[derive(Debug, PartialEq)]
pub struct RequirementMetadata {
    /// Stable identifier for tracking across refactors
    pub uuid: Uuid,
    /// Generated sequential ID (e.g., "RQM-001")
    pub generated_id: String,
    /// Hash of the summary for change detection
    pub summary_hash: String,
    /// When this requirement was first seen
    pub created_at: Timestamp,
    /// When this requirement was last updated
    pub updated_at: Timestamp,
    /// Summary text last seen
    pub summary: String,
}

/// A metadata record as values: identifier, generated ID, summary hash,
/// creation time, update time and summary.
pub type MetadataView = (Uuid, Seq<char>, Seq<char>, Timestamp, Timestamp, Seq<char>);

impl RequirementMetadata {
    /// The record as values.
    pub open spec fn view(&self) -> MetadataView {
        (self.uuid, self.generated_id@, self.summary_hash@, self.created_at, self.updated_at, self.summary@)
    }

    /// A copy of the record.
    pub fn snapshot(&self) -> (r: RequirementMetadata)
        ensures
            r.view() == self.view(),
    {
        RequirementMetadata {
            uuid: self.uuid,
            generated_id: self.generated_id.clone(),
            summary_hash: self.summary_hash.clone(),
            created_at: self.created_at,
            updated_at: self.updated_at,
            summary: self.summary.clone(),
        }
    }
}

/// The summary hash of `summary`.
pub open spec fn summary_hash_of(summary: Seq<char>) -> Seq<char> {
    hex_of(default_hash_of(summary) as nat)
}

/// The key of a requirement's metadata record.
pub open spec fn metadata_key(summary: Seq<char>) -> Seq<char> {
    kebab_of(lower_of(summary))
}

/// A loaded record seen again with `summary`: unchanged when the hash
/// matches, else with the new summary, its hash and `now` as update time.
pub open spec fn refreshed(m: MetadataView, summary: Seq<char>, now: Timestamp) -> MetadataView {
    if m.2 == summary_hash_of(summary) {
        m
    } else {
        (m.0, m.1, summary_hash_of(summary), m.3, now, summary)
    }
}

/// A new record for `summary` with ID `id`.
pub open spec fn created(uuid: Uuid, id: Seq<char>, summary: Seq<char>, now: Timestamp) -> MetadataView {
    (uuid, id, summary_hash_of(summary), now, now, summary)
}

/// Where the metadata handed out came from.
#[derive(Debug, Clone, Copy, PartialEq, Eq)]
pub enum MetadataSource {
    /// Already in the store's cache.
    Cached,
    /// Loaded from a persisted record, and refreshed; the record is to be
    /// written back.
    Loaded,
    /// Newly created; the record and the project configuration are to be
    /// written.
    Created,
}

/// One request for the metadata of `summary`: the new cache, the new next
/// sequence number, the record handed out and where it came from.
pub open spec fn metadata_step(
    cache: Map<Seq<char>, MetadataView>,
    prefix: Seq<char>,
    next: nat,
    summary: Seq<char>,
    stored: Option<MetadataView>,
    uuid: Uuid,
    now: Timestamp,
) -> (Map<Seq<char>, MetadataView>, nat, MetadataView, MetadataSource) {
    let key = metadata_key(summary);
    if cache.contains_key(key) {
        (cache, next, cache[key], MetadataSource::Cached)
    } else {
        match stored {
            Some(m) => {
                let r = refreshed(m, summary, now);
                (cache.insert(key, r), next, r, MetadataSource::Loaded)
            },
            None => {
                let r = created(uuid, generated_id_of(prefix, next), summary, now);
                (cache.insert(key, r), next + 1, r, MetadataSource::Created)
            },
        }
    }
}

/// A list of key-value pairs as a map, the last pair of a key winning.
pub open spec fn table_of<V>(pairs: Seq<(Seq<char>, V)>) -> Map<Seq<char>, V>
    decreases pairs.len(),
{
    if pairs.len() == 0 {
        Map::empty()
    } else {
        table_of(pairs.drop_last()).insert(pairs.last().0, pairs.last().1)
    }
}

/// IDs are handed out in sequence and survive reopening: a fresh store
/// counting from one gives `first` the ID numbered `001` and then `second`
/// the ID numbered `002`; a store reopened with the saved counter and handed
/// the record persisted for `first` gives back the same identifier and
/// generated ID.
pub proof fn lemma_ids_sequential_and_stable(
    prefix: Seq<char>,
    first: Seq<char>,
    second: Seq<char>,
    u1: Uuid,
    u2: Uuid,
    u3: Uuid,
    t1: Timestamp,
    t2: Timestamp,
    t3: Timestamp,
)
    requires
        metadata_key(first) != metadata_key(second),
    ensures
        ({
            let s1 = metadata_step(Map::empty(), prefix, 1, first, None, u1, t1);
            let s2 = metadata_step(s1.0, prefix, s1.1, second, None, u2, t2);
            let s3 = metadata_step(Map::empty(), prefix, s2.1, first, Some(s1.2), u3, t3);
            &&& s1.3 == MetadataSource::Created
            &&& s2.3 == MetadataSource::Created
            &&& s1.2.1 == prefix + "-001"@
            &&& s2.2.1 == prefix + "-002"@
            &&& s2.1 == 3
            &&& s3.2.0 == s1.2.0
            &&& s3.2.1 == s1.2.1
        }),
{
    reveal_strlit("-001");
    reveal_strlit("-002");
    let s1 = metadata_step(Map::empty(), prefix, 1, first, None, u1, t1);
    assert(!s1.0.contains_key(metadata_key(second)));
    assert(digits(1, 10) == seq!['1']);
    assert(digits(2, 10) == seq!['2']);
    assert(padded3(1) =~= seq!['0', '0', '1']);
    assert(padded3(2) =~= seq!['0', '0', '2']);
    assert(generated_id_of(prefix, 1) =~= prefix + "-001"@);
    assert(generated_id_of(prefix, 2) =~= prefix + "-002"@);
}

/// Editing a summary so that its hash changes, while its key stays the
/// same, refreshes the persisted record when it is loaded: new summary, new
/// hash and new update time, with the identifier, the generated ID and the
/// creation time kept, and no new ID drawn.
pub proof fn lemma_summary_edit_keeps_ids(
    cache: Map<Seq<char>, MetadataView>,
    prefix: Seq<char>,
    next: nat,
    record: MetadataView,
    edited: Seq<char>,
    uuid: Uuid,
    now: Timestamp,
)
    requires
        metadata_key(record.5) == metadata_key(edited),
        !cache.contains_key(metadata_key(edited)),
        record.2 != summary_hash_of(edited),
    ensures
        ({
            let s = metadata_step(cache, prefix, next, edited, Some(record), uuid, now);
            &&& s.2 == (record.0, record.1, summary_hash_of(edited), record.3, now, edited)
            &&& s.1 == next
            &&& s.3 == MetadataSource::Loaded
        }),
{
}

/// The records of a cache as values, by key.
pub open spec fn cache_pairs(entries: Seq<(String, RequirementMetadata)>) -> Seq<(Seq<char>, MetadataView)> {
    entries.map_values(|e: (String, RequirementMetadata)| (e.0@, e.1.view()))
}

/// What the table holds for `k`: present exactly when some pair has that
/// key, and then the value of the last such pair.
#[verifier::rlimit(60)]
proof fn lemma_table_of<V>(s: Seq<(Seq<char>, V)>, k: Seq<char>)
    ensures
        table_of(s).contains_key(k) <==> exists|j: int| 0 <= j < s.len() && s[j].0 == k,
        forall|j: int|
            0 <= j < s.len() && s[j].0 == k && (forall|i: int| j < i < s.len() ==> s[i].0 != k)
                ==> table_of(s)[k] == s[j].1,
    decreases s.len(),
{
    if s.len() > 0 {
        let p = s.drop_last();
        lemma_table_of(p, k);
        assert forall|j: int| 0 <= j < p.len() implies p[j] == s[j] by {}
        if s.last().0 != k {
            if exists|j: int| 0 <= j < s.len() && s[j].0 == k {
                let j = choose|j: int| 0 <= j < s.len() && s[j].0 == k;
                assert(p[j].0 == k);
            }
        } else {
            assert(s[s.len() - 1].0 == k);
        }
    }
}

/// The metadata store's state: cached records by key and the project
/// configuration. Reading and writing the persisted records is left to
/// the caller, which hands in what it read.
pub struct MetadataStore {
    metadata_cache: Vec<(String, RequirementMetadata)>,
    project_config: ProjectConfig,
}

impl MetadataStore {
    /// Cached records by key.
    pub closed spec fn cache(&self) -> Map<Seq<char>, MetadataView> {
        table_of(cache_pairs(self.metadata_cache@))
    }

    /// The project configuration held.
    pub closed spec fn config(&self) -> ProjectConfig {
        self.project_config
    }

    /// A store with an empty cache over `project_config`.
    pub fn new(project_config: ProjectConfig) -> (r: MetadataStore)
        ensures
            r.cache() == Map::<Seq<char>, MetadataView>::empty(),
            r.config() == project_config,
    {
        MetadataStore { metadata_cache: Vec::new(), project_config }
    }

    /// Open a store with an empty cache over the saved project configuration,
    /// or over prefix `REQ` counting from one where none was saved.
    pub fn open(saved: Option<ProjectConfig>) -> (r: MetadataStore)
        ensures
            r.cache() == Map::<Seq<char>, MetadataView>::empty(),
            saved is Some ==> r.config() == saved->Some_0,
            saved is None ==> r.config().project_prefix@ == "REQ"@ && r.config().next_id == 1,
    {
        let project_config = match saved {
            Some(c) => c,
            None => ProjectConfig::new(String::from_str("REQ")),
        };
        MetadataStore::new(project_config)
    }

    /// The project configuration, for saving.
    pub fn project_config(&self) -> (r: &ProjectConfig)
        ensures
            *r == self.config(),
    {
        &self.project_config
    }

    /// The cached record under `key`, if any.
    pub fn cached(&self, key: &str) -> (r: Option<&RequirementMetadata>)
        ensures
            r is Some <==> self.cache().contains_key(key@),
            r is Some ==> r->Some_0.view() == self.cache()[key@],
    {
        let ghost s = cache_pairs(self.metadata_cache@);
        let mut i = self.metadata_cache.len();
        while i > 0
            invariant
                i <= s.len(),
                s == cache_pairs(self.metadata_cache@),
                forall|k: int| i <= k < s.len() ==> s[k].0 != key@,
            decreases i,
        {
            if text_eq(self.metadata_cache[i - 1].0.as_str(), key) {
                proof {
                    lemma_table_of(s, key@);
                    assert(s[i - 1].0 == key@);
                    assert(table_of(s)[key@] == s[i - 1].1);
                }
                return Some(&self.metadata_cache[i - 1].1);
            }
            i = i - 1;
        }
        proof {
            lemma_table_of(s, key@);
        }
        None
    }

    /// Metadata for `req`, given the persisted record under its key (if the
    /// caller found one), a fresh identifier and the current time: from the
    /// cache first, else from the record, refreshed, else newly created.
    /// Fails only when a new ID is needed and the sequence is exhausted.
    pub fn resolve_metadata(
        &mut self,
        req: &Requirement,
        stored: Option<RequirementMetadata>,
        fresh_uuid: Uuid,
        now: Timestamp,
    ) -> (r: Result<(RequirementMetadata, MetadataSource), Error>)
        ensures
            r is Err <==> !old(self).cache().contains_key(metadata_key(req.summary@)) && stored is None
                && old(self).config().next_id == u32::MAX,
            r is Err ==> final(self).cache() == old(self).cache() && final(self).config() == old(self).config(),
            r is Ok ==> {
                let step = metadata_step(
                    old(self).cache(),
                    old(self).config().project_prefix@,
                    old(self).config().next_id as nat,
                    req.summary@,
                    match stored {
                        Some(m) => Some(m.view()),
                        None => None,
                    },
                    fresh_uuid,
                    now,
                );
                &&& final(self).cache() == step.0
                &&& final(self).config().next_id == step.1
                &&& final(self).config().project_prefix@ == old(self).config().project_prefix@
                &&& (step.3 != MetadataSource::Created ==> final(self).config() == old(self).config())
                &&& r->Ok_0.0.view() == step.2
                &&& r->Ok_0.1 == step.3
            },
    {
        let key = kebab_case(req.summary.as_str());
        if let Some(m) = self.cached(key.as_str()) {
            return Ok((m.snapshot(), MetadataSource::Cached));
        }
        match stored {
            Some(m) => {
                let current_hash = hash_string(req.summary.as_str());
                Ok((self.load_into_cache(key, req, m, current_hash, now), MetadataSource::Loaded))
            },
            None => {
                if self.project_config.next_id == u32::MAX {
                    return Err(Error::custom("Generated ID sequence exhausted"));
                }
                Ok((self.create_into_cache(key, req, fresh_uuid, now), MetadataSource::Created))
            },
        }
    }

    /// Caches the persisted record `stored` under `key`, refreshed against
    /// the summary of `req`, and hands it back.
    fn load_into_cache(
        &mut self,
        key: String,
        req: &Requirement,
        stored: RequirementMetadata,
        current_hash: String,
        now: Timestamp,
    ) -> (r: RequirementMetadata)
        requires
            current_hash@ == summary_hash_of(req.summary@),
        ensures
            r.view() == refreshed(stored.view(), req.summary@, now),
            final(self).cache() == old(self).cache().insert(key@, r.view()),
            final(self).config() == old(self).config(),
    {
        let mut m = stored;
        if m.summary_hash != current_hash {
            m.summary = req.summary.clone();
            m.summary_hash = current_hash;
            m.updated_at = now;
        }
        let kept = m.snapshot();
        self.metadata_cache.push((key, kept));
        proof {
            let s = cache_pairs(self.metadata_cache@);
            assert(s.drop_last() =~= cache_pairs(old(self).metadata_cache@));
        }
        m
    }

    /// Creates the record of `req` under `key` with the next generated ID,
    /// caches it and hands it back.
    fn create_into_cache(&mut self, key: String, req: &Requirement, fresh_uuid: Uuid, now: Timestamp) -> (r:
        RequirementMetadata)
        requires
            old(self).config().next_id < u32::MAX,
        ensures
            r.view() == created(
                fresh_uuid,
                generated_id_of(old(self).config().project_prefix@, old(self).config().next_id as nat),
                req.summary@,
                now,
            ),
            final(self).cache() == old(self).cache().insert(key@, r.view()),
            final(self).config().next_id == old(self).config().next_id + 1,
            final(self).config().project_prefix@ == old(self).config().project_prefix@,
    {
        let generated_id = self.project_config.next_id();
        let summary_hash = hash_string(req.summary.as_str());
        let m = RequirementMetadata {
            uuid: fresh_uuid,
            generated_id,
            summary_hash,
            created_at: now,
            updated_at: now,
            summary: req.summary.clone(),
        };
        let kept = m.snapshot();
        self.metadata_cache.push((key, kept));
        proof {
            let s = cache_pairs(self.metadata_cache@);
            assert(s.drop_last() =~= cache_pairs(old(self).metadata_cache@));
        }
        m
    }

    /// Get or create metadata for a requirement, given the persisted record
    /// under its key if the caller found one. A new record gets a random
    /// identifier and the current time.
    pub fn get_or_create_metadata(&mut self, req: &Requirement, stored: Option<RequirementMetadata>) -> (r: Result<
        (RequirementMetadata, MetadataSource),
        Error,
    >)
        ensures
            r is Err <==> !old(self).cache().contains_key(metadata_key(req.summary@)) && stored is None
                && old(self).config().next_id == u32::MAX,
            r is Ok && old(self).cache().contains_key(metadata_key(req.summary@)) ==> r->Ok_0.0.view()
                == old(self).cache()[metadata_key(req.summary@)] && r->Ok_0.1 == MetadataSource::Cached,
            r is Ok && !old(self).cache().contains_key(metadata_key(req.summary@)) && stored is Some ==> {
                &&& r->Ok_0.1 == MetadataSource::Loaded
                &&& exists|t: Timestamp| r->Ok_0.0.view() == refreshed(stored->Some_0.view(), req.summary@, t)
                &&& final(self).config() == old(self).config()
            },
            r is Ok && !old(self).cache().contains_key(metadata_key(req.summary@)) && stored is None ==> {
                &&& r->Ok_0.1 == MetadataSource::Created
                &&& exists|u: Uuid, t: Timestamp| r->Ok_0.0.view() == created(
                    u,
                    generated_id_of(old(self).config().project_prefix@, old(self).config().next_id as nat),
                    req.summary@,
                    t,
                )
                &&& final(self).config().next_id == old(self).config().next_id + 1
                &&& final(self).config().project_prefix@ == old(self).config().project_prefix@
            },
            old(self).cache().contains_key(metadata_key(req.summary@)) ==> final(self).config() == old(
                self,
            ).config() && final(self).cache() == old(self).cache(),
            r is Err ==> final(self).cache() == old(self).cache() && final(self).config() == old(self).config(),
            r is Ok ==> final(self).cache() == old(self).cache().insert(
                metadata_key(req.summary@),
                r->Ok_0.0.view(),
            ),
    {
        let key = kebab_case(req.summary.as_str());
        if let Some(m) = self.cached(key.as_str()) {
            let copy = m.snapshot();
            proof {
                assert(old(self).cache().insert(key@, copy.view()) == old(self).cache());
            }
            return Ok((copy, MetadataSource::Cached));
        }
        match stored {
            Some(m) => {
                let current_hash = hash_string(req.summary.as_str());
                let t = if m.summary_hash == current_hash {
                    m.updated_at
                } else {
                    now()
                };
                let ghost sv = m.view();
                let r = self.load_into_cache(key, req, m, current_hash, t);
                assert(r.view() == refreshed(sv, req.summary@, t));
                Ok((r, MetadataSource::Loaded))
            },
            None => {
                if self.project_config.next_id == u32::MAX {
                    return Err(Error::custom("Generated ID sequence exhausted"));
                }
                let fresh_uuid = new_uuid();
                let t = now();
                let r = self.create_into_cache(key, req, fresh_uuid, t);
                Ok((r, MetadataSource::Created))
            },
        }
    }

    /// Get the generated ID for a requirement.
    pub fn get_generated_id(&mut self, req: &Requirement, stored: Option<RequirementMetadata>) -> (r: Result<String, Error>)
        ensures
            r is Err <==> !old(self).cache().contains_key(metadata_key(req.summary@)) && stored is None
                && old(self).config().next_id == u32::MAX,
            r is Ok && old(self).cache().contains_key(metadata_key(req.summary@)) ==> r->Ok_0@
                == old(self).cache()[metadata_key(req.summary@)].1,
            r is Ok && !old(self).cache().contains_key(metadata_key(req.summary@)) && stored is Some
                ==> r->Ok_0@ == stored->Some_0.generated_id@,
            r is Ok && !old(self).cache().contains_key(metadata_key(req.summary@)) && stored is None
                ==> r->Ok_0@ == generated_id_of(old(self).config().project_prefix@, old(self).config().next_id as nat),
    {
        match self.get_or_create_metadata(req, stored) {
            Ok((meta, _)) => Ok(meta.generated_id),
            Err(e) => Err(e),
        }
    }
}

} // verus!
