//! The editorial repository authority: repositories, relations, the
//! organization migration ledger, showcases and the reduced public GitHub
//! metadata cache, with the rules each of them must satisfy.

use vstd::prelude::*;

use crate::devices::{DeviceCatalog, catalog_findings, catalog_valid};
use crate::page_text::{byte_boundary, byte_boundary_at, char_index_at_byte, has_byte_boundary, lemma_utf8_len_grows, utf8_len};
use crate::text::{text_between, joined, lemma_extend, flag, blank, cat2, cat3, cat4, cat6, contains_char, contains_str, ends_with, has_infix, has_parent_segment, has_prefix, has_suffix, holds_string, is_ascii_alnum, is_ascii_alnum_char, is_ascii_digit, is_ascii_digit_char, is_ascii_hex, is_ascii_hex_char, is_ascii_lower, is_ascii_lower_char, is_blank, is_white, is_white_char, lower, noted, note, parent_segment, remember, remember_u32, join, stable_by_key, stable_positions, lemma_views_push, has_segment, segment_present, lemma_filter_take_step, sort_strings, text_less, text_lt, sorted_text, starts_with, str_eq, to_lower, views, chars_of, distinct_upto};

verus! {

#[derive(Debug)]
pub struct RepositoryManifest {
    pub repository: Vec<RepositoryRecord>,
}

#[derive(Debug)]
pub struct RepositoryRecord {
    pub id: String,
    pub github_slug: String,
    pub name: String,
    pub summary: String,
    pub class: RepositoryClass,
    pub status: RepositoryStatus,
    pub license: String,
    pub homepage: String,
    pub public: bool,
}

#[derive(Debug)]
pub struct ShowcaseManifest {
    pub showcase: Vec<ShowcaseRecord>,
}

#[derive(Debug)]
pub struct ShowcaseRecord {
    pub repository: String,
    pub order: u32,
    pub headline: String,
    pub copy: String,
    pub image: String,
    pub alt: String,
    pub caption: String,
    pub source_url: String,
    pub source_license: String,
}

#[derive(Debug)]
pub struct PublicMetadataCache {
    pub schema: String,
    pub organization: String,
    pub generated_at_utc: String,
    pub repository: Vec<PublicRepositoryMetadata>,
    pub event: Vec<PublicOrganizationEvent>,
}

#[derive(Debug)]
pub struct PublicRepositoryMetadata {
    pub id: String,
    pub github_slug: String,
    pub name: String,
    pub description: String,
    pub homepage: Option<String>,
    pub license: Option<String>,
    pub updated_at: String,
    pub pushed_at: String,
    pub primary_language: Option<String>,
    pub stargazer_count: u64,
    pub archived: bool,
    pub fork: bool,
    pub topics: Vec<String>,
}

#[derive(Debug)]
pub struct PublicOrganizationEvent {
    pub id: String,
    pub kind: String,
    pub repository: String,
    pub created_at: String,
}

#[derive(Clone, Copy, Debug, PartialEq, Eq, Structural)]
pub enum RepositoryClass {
    Foundation,
    Platform,
    Product,
    Tool,
    MaintainedFork,
}

#[derive(Clone, Copy, Debug, PartialEq, Eq, Structural)]
pub enum RepositoryStatus {
    Active,
    Prototype,
    Reference,
    Research,
    Archived,
}

#[derive(Debug)]
pub struct RelationManifest {
    pub relation: Vec<RelationRecord>,
}

#[derive(Debug)]
pub struct RelationRecord {
    pub id: String,
    pub source: String,
    pub target: String,
    pub kind: RelationKind,
    pub provenance: RelationProvenance,
    pub evidence: String,
    pub verified_on: String,
}

#[derive(Clone, Copy, Debug, PartialEq, Eq, Structural)]
pub enum RelationKind {
    DependsOn,
    Contains,
    ReferenceAppFor,
    HostFor,
    UsesUiFrom,
    RendersWith,
    ForkOf,
}

#[derive(Clone, Copy, Debug, PartialEq, Eq, Structural)]
pub enum RelationProvenance {
    Derived,
    Curated,
}

#[derive(Debug)]
pub struct MigrationManifest {
    pub inventory_receipt: String,
    pub publication_gate_receipt: Option<String>,
    pub fork_review_receipt: Option<String>,
    pub migration: Vec<MigrationRecord>,
    pub unresolved_product: Vec<UnresolvedProduct>,
}

#[derive(Debug)]
pub struct MigrationRecord {
    pub id: String,
    pub current_slug: String,
    pub target_slug: Option<String>,
    pub classification: MigrationClass,
    pub batch: MigrationBatch,
    pub disposition: MigrationDisposition,
    pub visibility: Visibility,
    pub default_branch: String,
    pub head: String,
    pub license_status: String,
    pub provenance_status: String,
    pub sensitive_information_status: String,
    pub public_scope: Option<String>,
    pub publication_gate_status: Option<PublicationGateStatus>,
    pub history_remediation: Option<String>,
    pub pages_status: String,
    pub packages_status: String,
    pub actions_workflows: u32,
    pub old_owner_files: Option<u32>,
    pub old_owner_manifests: Option<u32>,
    pub local_locator: Option<String>,
    pub source_aliases: Vec<String>,
}

#[derive(Clone, Copy, Debug, PartialEq, Eq, Structural)]
pub enum MigrationClass {
    Foundation,
    Platform,
    Product,
    Tool,
    MaintainedFork,
}

#[derive(Clone, Copy, Debug, PartialEq, Eq, Structural)]
pub enum MigrationBatch {
    Infrastructure,
    Foundation,
    Platform,
    Product,
    ForkReview,
}

#[derive(Clone, Copy, Debug, PartialEq, Eq, Structural)]
pub enum MigrationDisposition {
    AlreadyInOrg,
    Candidate,
    Hold,
    KeepPersonal,
}

#[derive(Clone, Copy, Debug, PartialEq, Eq, Structural)]
pub enum PublicationGateStatus {
    Ready,
    Blocked,
    NotApplicable,
}

#[derive(Clone, Copy, Debug, PartialEq, Eq, Structural)]
pub enum Visibility {
    Public,
}

#[derive(Debug)]
pub struct UnresolvedProduct {
    pub name: String,
    pub state: String,
    pub evidence: String,
}

#[derive(Debug)]
pub struct Authority {
    pub repositories: RepositoryManifest,
    pub relations: RelationManifest,
    pub migration: MigrationManifest,
}

#[derive(Debug)]
pub struct InventoryTarget {
    pub id: String,
    pub current_slug: String,
    pub target_slug: Option<String>,
    pub classification: MigrationClass,
    pub batch: MigrationBatch,
    pub disposition: MigrationDisposition,
    pub expected_default_branch: String,
    pub expected_head: String,
    pub expected_pages_status: String,
    pub expected_packages_status: String,
    pub expected_actions_workflows: u32,
    pub expected_old_owner_files: Option<u32>,
    pub expected_old_owner_manifests: Option<u32>,
    pub license_status: String,
    pub provenance_status: String,
    pub sensitive_information_status: String,
    pub public_scope: Option<String>,
    pub publication_gate_status: Option<PublicationGateStatus>,
    pub history_remediation: Option<String>,
    pub local_locator: Option<String>,
    pub source_aliases: Vec<String>,
}

#[derive(Debug)]
pub struct InventoryBasis {
    pub inventory_receipt: String,
    pub targets: Vec<InventoryTarget>,
    pub unresolved_products: Vec<UnresolvedProduct>,
}

impl Clone for RepositoryRecord {
    fn clone(&self) -> (r: Self)
        ensures
            r == *self,
    {
        RepositoryRecord {
            id: self.id.clone(),
            github_slug: self.github_slug.clone(),
            name: self.name.clone(),
            summary: self.summary.clone(),
            class: self.class,
            status: self.status,
            license: self.license.clone(),
            homepage: self.homepage.clone(),
            public: self.public,
        }
    }
}

impl Clone for RelationRecord {
    fn clone(&self) -> (r: Self)
        ensures
            r == *self,
    {
        RelationRecord {
            id: self.id.clone(),
            source: self.source.clone(),
            target: self.target.clone(),
            kind: self.kind,
            provenance: self.provenance,
            evidence: self.evidence.clone(),
            verified_on: self.verified_on.clone(),
        }
    }
}

impl Clone for ShowcaseRecord {
    fn clone(&self) -> (r: Self)
        ensures
            r == *self,
    {
        ShowcaseRecord {
            repository: self.repository.clone(),
            order: self.order,
            headline: self.headline.clone(),
            copy: self.copy.clone(),
            image: self.image.clone(),
            alt: self.alt.clone(),
            caption: self.caption.clone(),
            source_url: self.source_url.clone(),
            source_license: self.source_license.clone(),
        }
    }
}

impl Clone for UnresolvedProduct {
    fn clone(&self) -> (r: Self)
        ensures
            r == *self,
    {
        UnresolvedProduct { name: self.name.clone(), state: self.state.clone(), evidence: self.evidence.clone() }
    }
}

/// A copy of a list of strings.
pub fn clone_strings(v: &Vec<String>) -> (r: Vec<String>)
    ensures
        r@ == v@,
{
    let r = v.clone();
    assert(r@ =~= v@);
    r
}

/// A copy of an optional string.
pub fn clone_opt(o: &Option<String>) -> (r: Option<String>)
    ensures
        r == *o,
{
    match o {
        Some(s) => Some(s.clone()),
        None => None,
    }
}

impl Clone for RepositoryManifest {
    fn clone(&self) -> (r: Self)
        ensures
            r.repository@ == self.repository@,
    {
        let repository = self.repository.clone();
        assert(repository@ =~= self.repository@);
        RepositoryManifest { repository }
    }
}

impl Clone for RelationManifest {
    fn clone(&self) -> (r: Self)
        ensures
            r.relation@ == self.relation@,
    {
        let relation = self.relation.clone();
        assert(relation@ =~= self.relation@);
        RelationManifest { relation }
    }
}

/// An authority input that could not be read, parsed or validated, with its
/// explanation.
#[derive(Debug)]
pub struct AuthorityError {
    context: String,
}

impl AuthorityError {
    pub closed spec fn message(&self) -> Seq<char> {
        self.context@
    }

    pub fn from_message(context: String) -> (e: Self)
        ensures
            e.message() == context@,
    {
        AuthorityError { context }
    }

    /// The explanation, as `Display` renders it.
    pub fn to_string(&self) -> (s: String)
        ensures
            s@ == self.message(),
    {
        self.context.clone()
    }
}

impl RepositoryClass {
    pub fn slug(self) -> (s: &'static str)
        ensures
            s@ == match self {
                RepositoryClass::Foundation => "foundation"@,
                RepositoryClass::Platform => "platform"@,
                RepositoryClass::Product => "product"@,
                RepositoryClass::Tool => "tool"@,
                RepositoryClass::MaintainedFork => "maintained-fork"@,
            },
    {
        match self {
            RepositoryClass::Foundation => "foundation",
            RepositoryClass::Platform => "platform",
            RepositoryClass::Product => "product",
            RepositoryClass::Tool => "tool",
            RepositoryClass::MaintainedFork => "maintained-fork",
        }
    }

    pub fn label(self) -> (s: &'static str)
        ensures
            s@ == match self {
                RepositoryClass::Foundation => "foundation"@,
                RepositoryClass::Platform => "platform"@,
                RepositoryClass::Product => "product"@,
                RepositoryClass::Tool => "tool"@,
                RepositoryClass::MaintainedFork => "maintained fork"@,
            },
    {
        match self {
            RepositoryClass::Foundation => "foundation",
            RepositoryClass::Platform => "platform",
            RepositoryClass::Product => "product",
            RepositoryClass::Tool => "tool",
            RepositoryClass::MaintainedFork => "maintained fork",
        }
    }
}

impl RepositoryStatus {
    pub fn slug(self) -> (s: &'static str)
        ensures
            s@ == match self {
                RepositoryStatus::Active => "active"@,
                RepositoryStatus::Prototype => "prototype"@,
                RepositoryStatus::Reference => "reference"@,
                RepositoryStatus::Research => "research"@,
                RepositoryStatus::Archived => "archived"@,
            },
    {
        match self {
            RepositoryStatus::Active => "active",
            RepositoryStatus::Prototype => "prototype",
            RepositoryStatus::Reference => "reference",
            RepositoryStatus::Research => "research",
            RepositoryStatus::Archived => "archived",
        }
    }

    /// The label is the slug.
    pub fn label(self) -> (s: &'static str)
        ensures
            s@ == match self {
                RepositoryStatus::Active => "active"@,
                RepositoryStatus::Prototype => "prototype"@,
                RepositoryStatus::Reference => "reference"@,
                RepositoryStatus::Research => "research"@,
                RepositoryStatus::Archived => "archived"@,
            },
    {
        self.slug()
    }
}

impl RelationKind {
    pub fn slug(self) -> (s: &'static str)
        ensures
            s@ == match self {
                RelationKind::DependsOn => "depends-on"@,
                RelationKind::Contains => "contains"@,
                RelationKind::ReferenceAppFor => "reference-app-for"@,
                RelationKind::HostFor => "host-for"@,
                RelationKind::UsesUiFrom => "uses-ui-from"@,
                RelationKind::RendersWith => "renders-with"@,
                RelationKind::ForkOf => "fork-of"@,
            },
    {
        match self {
            RelationKind::DependsOn => "depends-on",
            RelationKind::Contains => "contains",
            RelationKind::ReferenceAppFor => "reference-app-for",
            RelationKind::HostFor => "host-for",
            RelationKind::UsesUiFrom => "uses-ui-from",
            RelationKind::RendersWith => "renders-with",
            RelationKind::ForkOf => "fork-of",
        }
    }

    pub fn label(self) -> (s: &'static str)
        ensures
            s@ == match self {
                RelationKind::DependsOn => "depends on"@,
                RelationKind::Contains => "contains"@,
                RelationKind::ReferenceAppFor => "is a reference app for"@,
                RelationKind::HostFor => "hosts"@,
                RelationKind::UsesUiFrom => "uses UI from"@,
                RelationKind::RendersWith => "renders with"@,
                RelationKind::ForkOf => "is a fork of"@,
            },
    {
        match self {
            RelationKind::DependsOn => "depends on",
            RelationKind::Contains => "contains",
            RelationKind::ReferenceAppFor => "is a reference app for",
            RelationKind::HostFor => "hosts",
            RelationKind::UsesUiFrom => "uses UI from",
            RelationKind::RendersWith => "renders with",
            RelationKind::ForkOf => "is a fork of",
        }
    }

    pub fn incoming_label(self) -> (s: &'static str)
        ensures
            s@ == match self {
                RelationKind::DependsOn => "depends on this repository"@,
                RelationKind::Contains => "contains this repository"@,
                RelationKind::ReferenceAppFor => "is a reference app for this repository"@,
                RelationKind::HostFor => "hosts this repository"@,
                RelationKind::UsesUiFrom => "uses UI from this repository"@,
                RelationKind::RendersWith => "renders with this repository"@,
                RelationKind::ForkOf => "is a fork of this repository"@,
            },
    {
        match self {
            RelationKind::DependsOn => "depends on this repository",
            RelationKind::Contains => "contains this repository",
            RelationKind::ReferenceAppFor => "is a reference app for this repository",
            RelationKind::HostFor => "hosts this repository",
            RelationKind::UsesUiFrom => "uses UI from this repository",
            RelationKind::RendersWith => "renders with this repository",
            RelationKind::ForkOf => "is a fork of this repository",
        }
    }
}

impl RelationProvenance {
    pub fn label(self) -> (s: &'static str)
        ensures
            s@ == match self {
                RelationProvenance::Derived => "derived"@,
                RelationProvenance::Curated => "curated"@,
            },
    {
        match self {
            RelationProvenance::Derived => "derived",
            RelationProvenance::Curated => "curated",
        }
    }
}

/// `owner/repository`: exactly one `/`, with text on both sides, and only
/// ASCII letters, digits, `-`, `_`, `.` and `/`.
pub open spec fn is_repo_slug(v: Seq<char>) -> bool {
    &&& exists|i: int| 0 < i < v.len() - 1 && #[trigger] v[i] == '/' && forall|j: int| 0 <= j < v.len() && j != i ==> v[j] != '/'
    &&& forall|j: int| 0 <= j < v.len() ==> slug_char(#[trigger] v[j])
}

pub open spec fn slug_char(c: char) -> bool {
    is_ascii_alnum(c) || c == '-' || c == '_' || c == '.' || c == '/'
}

/// `YYYY-MM-DD`, digit for digit.
pub open spec fn is_date(v: Seq<char>) -> bool {
    &&& v.len() == 10
    &&& v[4] == '-'
    &&& v[7] == '-'
    &&& forall|i: int| 0 <= i < 10 && i != 4 && i != 7 ==> is_ascii_digit(#[trigger] v[i])
}

/// A UTC timestamp: at least twenty bytes, a trailing `Z`, and a date first.
pub open spec fn is_timestamp(v: Seq<char>) -> bool {
    &&& vstd::utf8::encode_utf8(v).len() >= 20
    &&& has_suffix(v, "Z"@)
    &&& v.len() >= 10
    &&& is_date(v.subrange(0, 10))
}

/// A usable default branch name.
pub open spec fn is_branch(v: Seq<char>) -> bool {
    &&& v.len() > 0
    &&& v[0] != '/'
    &&& v[v.len() - 1] != '/'
    &&& !has_infix(v, ".."@)
    &&& forall|i: int| 0 <= i < v.len() ==> !is_white(#[trigger] v[i])
}

/// A full forty-digit hexadecimal Git object id.
pub open spec fn is_head(v: Seq<char>) -> bool {
    v.len() == 40 && forall|i: int| 0 <= i < v.len() ==> is_ascii_hex(#[trigger] v[i])
}

/// A workspace-relative, slash-separated locator.
pub open spec fn is_safe_locator(v: Seq<char>) -> bool {
    &&& v.len() > 0
    &&& v[0] != '/'
    &&& v[0] != '\\'
    &&& !v.contains(':')
    &&& !v.contains('\\')
    &&& !has_parent_segment(v)
}

/// A safe path below `docs/receipts/`.
pub open spec fn is_receipt_path(v: Seq<char>) -> bool {
    &&& has_prefix(v, "docs/receipts/"@)
    &&& !v.contains('\\')
    &&& !v.contains(':')
    &&& !has_parent_segment(v)
}

/// Lowercase kebab-case: ASCII lowercase letters, digits and inner hyphens.
pub open spec fn is_kebab(v: Seq<char>) -> bool {
    &&& v.len() > 0
    &&& v[0] != '-'
    &&& v[v.len() - 1] != '-'
    &&& forall|i: int| 0 <= i < v.len() ==> kebab_char(#[trigger] v[i])
}

pub open spec fn kebab_char(c: char) -> bool {
    is_ascii_lower(c) || is_ascii_digit(c) || c == '-'
}

fn slug_ok(value: &str) -> (r: bool)
    ensures
        r == is_repo_slug(value@),
{
    let cs = chars_of(value);
    let mut slash: Option<usize> = None;
    let mut i: usize = 0;
    while i < cs.len()
        invariant
            cs@ == value@,
            i <= cs.len(),
            forall|j: int| 0 <= j < i ==> slug_char(#[trigger] cs@[j]),
            match slash {
                Some(k) => k < i && cs@[k as int] == '/' && forall|j: int| 0 <= j < i && j != k ==> cs@[j] != '/',
                None => forall|j: int| 0 <= j < i ==> cs@[j] != '/',
            },
        decreases cs.len() - i,
    {
        let c = cs[i];
        if !(is_ascii_alnum_char(c) || c == '-' || c == '_' || c == '.' || c == '/') {
            return false;
        }
        if c == '/' {
            match slash {
                Some(k) => {
                    return false;
                },
                None => {
                    slash = Some(i);
                },
            }
        }
        i = i + 1;
    }
    match slash {
        Some(k) => {
            if k == 0 || k + 1 == cs.len() {
                false
            } else {
                true
            }
        },
        None => false,
    }
}

fn date_ok(value: &str) -> (r: bool)
    ensures
        r == is_date(value@),
{
    let cs = chars_of(value);
    if cs.len() != 10 || cs[4] != '-' || cs[7] != '-' {
        return false;
    }
    let mut i: usize = 0;
    while i < 10
        invariant
            cs@ == value@,
            cs.len() == 10,
            i <= 10,
            forall|j: int| 0 <= j < i && j != 4 && j != 7 ==> is_ascii_digit(#[trigger] cs@[j]),
        decreases 10 - i,
    {
        if i != 4 && i != 7 && !is_ascii_digit_char(cs[i]) {
            return false;
        }
        i = i + 1;
    }
    true
}

/// The length of `value` in UTF-8 bytes.
fn byte_len(value: &str) -> (n: usize)
    ensures
        n == vstd::utf8::encode_utf8(value@).len(),
{
    let bytes = value.as_bytes();
    bytes.len()
}

fn string_from(cs: &Vec<char>) -> (r: String)
    ensures
        r@ == cs@,
{
    crate::text::string_of(cs)
}

fn branch_ok(value: &str) -> (r: bool)
    ensures
        r == is_branch(value@),
{
    let cs = chars_of(value);
    if cs.len() == 0 || cs[0] == '/' || cs[cs.len() - 1] == '/' || contains_str(value, "..") {
        return false;
    }
    let mut i: usize = 0;
    while i < cs.len()
        invariant
            cs@ == value@,
            i <= cs.len(),
            forall|j: int| 0 <= j < i ==> !is_white(#[trigger] cs@[j]),
        decreases cs.len() - i,
    {
        if is_white_char(cs[i]) {
            return false;
        }
        i = i + 1;
    }
    true
}

fn head_ok(value: &str) -> (r: bool)
    ensures
        r == is_head(value@),
{
    let cs = chars_of(value);
    let mut i: usize = 0;
    while i < cs.len()
        invariant
            cs@ == value@,
            i <= cs.len(),
            forall|j: int| 0 <= j < i ==> is_ascii_hex(#[trigger] cs@[j]),
        decreases cs.len() - i,
    {
        if !is_ascii_hex_char(cs[i]) {
            return false;
        }
        i = i + 1;
    }
    cs.len() == 40
}

fn locator_ok(value: &str) -> (r: bool)
    ensures
        r == is_safe_locator(value@),
{
    proof {
        reveal_strlit("/");
        reveal_strlit("\\");
    }
    let r = !blank_len(value) && !starts_with(value, "/") && !starts_with(value, "\\") && !contains_char(
        value,
        ':',
    ) && !contains_char(value, '\\') && !parent_segment(value);
    proof {
        assert("/"@ =~= seq!['/']);
        assert("\\"@ =~= seq!['\\']);
        if value@.len() > 0 {
            assert(value@.subrange(0, 1) =~= seq![value@[0]]);
            if value@[0] == '/' {
                assert(value@.subrange(0, 1) =~= "/"@);
            }
            if value@[0] == '\\' {
                assert(value@.subrange(0, 1) =~= "\\"@);
            }
            if has_prefix(value@, "/"@) {
                assert(value@.subrange(0, 1)[0] == "/"@[0]);
            }
            if has_prefix(value@, "\\"@) {
                assert(value@.subrange(0, 1)[0] == "\\"@[0]);
            }
        }
    }
    r
}

fn receipt_ok(value: &str) -> (r: bool)
    ensures
        r == is_receipt_path(value@),
{
    starts_with(value, "docs/receipts/") && !contains_char(value, '\\') && !contains_char(value, ':')
        && !parent_segment(value)
}

pub(crate) fn kebab_ok(value: &str) -> (r: bool)
    ensures
        r == is_kebab(value@),
{
    let cs = chars_of(value);
    if cs.len() == 0 || cs[0] == '-' || cs[cs.len() - 1] == '-' {
        return false;
    }
    let mut i: usize = 0;
    while i < cs.len()
        invariant
            cs@ == value@,
            i <= cs.len(),
            forall|j: int| 0 <= j < i ==> kebab_char(#[trigger] cs@[j]),
        decreases cs.len() - i,
    {
        let c = cs[i];
        if !(is_ascii_lower_char(c) || is_ascii_digit_char(c) || c == '-') {
            return false;
        }
        i = i + 1;
    }
    true
}

/// Whether `value` is the empty string.
fn blank_len(value: &str) -> (r: bool)
    ensures
        r == (value@.len() == 0),
{
    value.is_empty()
}

/// What the check that a value is not blank records.
pub open spec fn nonempty_finding(label: Seq<char>, value: Seq<char>) -> Seq<Seq<char>> {
    flag(is_blank(value), label + " is empty"@)
}

/// What the check that a value is an owner/repository slug records.
pub open spec fn slug_finding(label: Seq<char>, value: Seq<char>) -> Seq<Seq<char>> {
    flag(!is_repo_slug(value), label + " is not an owner/repository slug: "@ + value)
}

/// What the check that a value uses https records.
pub open spec fn https_finding(label: Seq<char>, value: Seq<char>) -> Seq<Seq<char>> {
    flag(!has_prefix(value, "https://"@), label + " must use https: "@ + value)
}

/// What the check that a value is a calendar date records.
pub open spec fn date_finding(label: Seq<char>, value: Seq<char>) -> Seq<Seq<char>> {
    flag(!is_date(value), label + " is not YYYY-MM-DD: "@ + value)
}

/// What the check of a migration's default branch records.
pub open spec fn branch_finding(id: Seq<char>, branch: Seq<char>) -> Seq<Seq<char>> {
    flag(!is_branch(branch), "migration "@ + id + " has invalid default branch "@ + branch)
}

/// What the check of a migration's head records.
pub open spec fn head_finding(id: Seq<char>, head: Seq<char>) -> Seq<Seq<char>> {
    flag(!is_head(head), "migration "@ + id + " head is not a full git object id"@)
}

/// What the check of a migration's local locator records.
pub open spec fn locator_finding(id: Seq<char>, locator: Seq<char>) -> Seq<Seq<char>> {
    flag(!is_safe_locator(locator), "migration "@ + id + " local_locator must be workspace-relative and slash-separated"@)
}

/// What the check of a receipt path records.
pub open spec fn receipt_finding(path: Seq<char>) -> Seq<Seq<char>> {
    flag(!is_receipt_path(path), "inventory_receipt must be a safe path below docs/receipts: "@ + path)
}

fn check_nonempty(label: &str, value: &str, errors: &mut Vec<String>)
    ensures
        noted(old(errors)@, final(errors)@, is_blank(value@), label@ + " is empty"@),
        views(final(errors)@) == views(old(errors)@) + nonempty_finding(label@, value@),
{
    let bad = blank(value);
    note(errors, bad, cat2(label, " is empty"));
}

fn check_slug(label: &str, value: &str, errors: &mut Vec<String>)
    ensures
        noted(old(errors)@, final(errors)@, !is_repo_slug(value@), label@ + " is not an owner/repository slug: "@ + value@),
        views(final(errors)@) == views(old(errors)@) + slug_finding(label@, value@),
{
    let bad = !slug_ok(value);
    note(errors, bad, cat3(label, " is not an owner/repository slug: ", value));
}

fn check_https_or_github(label: &str, value: &str, errors: &mut Vec<String>)
    ensures
        noted(old(errors)@, final(errors)@, !has_prefix(value@, "https://"@), label@ + " must use https: "@ + value@),
        views(final(errors)@) == views(old(errors)@) + https_finding(label@, value@),
{
    let bad = !starts_with(value, "https://");
    note(errors, bad, cat3(label, " must use https: ", value));
}

fn check_date(label: &str, value: &str, errors: &mut Vec<String>)
    ensures
        noted(old(errors)@, final(errors)@, !is_date(value@), label@ + " is not YYYY-MM-DD: "@ + value@),
        views(final(errors)@) == views(old(errors)@) + date_finding(label@, value@),
{
    let bad = !date_ok(value);
    note(errors, bad, cat3(label, " is not YYYY-MM-DD: ", value));
}

/// The first ten bytes of a text, where they end on a character boundary;
/// nothing otherwise.
pub open spec fn leading_date(v: Seq<char>) -> Seq<char> {
    if has_byte_boundary(v, 10) {
        v.take(byte_boundary(v, 10))
    } else {
        Seq::empty()
    }
}

/// What the check that a value is a UTC timestamp records: a short or
/// unzoned value is not a timestamp; else its leading date is checked.
pub open spec fn timestamp_finding(label: Seq<char>, value: Seq<char>) -> Seq<Seq<char>> {
    if vstd::utf8::encode_utf8(value).len() < 20 || !has_suffix(value, "Z"@) {
        seq![label + " is not a UTC timestamp: "@ + value]
    } else {
        date_finding(label, leading_date(value))
    }
}

/// Text of digits and dashes spends one byte per character.
proof fn lemma_ascii_utf8_len(s: Seq<char>)
    requires
        forall|i: int| 0 <= i < s.len() ==> (#[trigger] s[i] as u32) < 0x80,
    ensures
        utf8_len(s) == s.len(),
    decreases s.len(),
{
    if s.len() > 0 {
        assert forall|i: int| 0 <= i < s.drop_last().len() implies (#[trigger] s.drop_last()[i] as u32) < 0x80 by {
            assert(s.drop_last()[i] == s[i]);
        }
        lemma_ascii_utf8_len(s.drop_last());
        assert((s.last() as u32) < 0x80);
    }
}

/// A value's leading date is a date exactly when its first ten characters
/// are.
proof fn lemma_leading_date(v: Seq<char>)
    ensures
        is_date(leading_date(v)) <==> (v.len() >= 10 && is_date(v.subrange(0, 10))),
{
    if v.len() >= 10 && is_date(v.subrange(0, 10)) {
        let d = v.take(10);
        assert(d =~= v.subrange(0, 10));
        assert forall|i: int| 0 <= i < d.len() implies (#[trigger] d[i] as u32) < 0x80 by {
            if i != 4 && i != 7 {
                assert(is_ascii_digit(d[i]));
            }
        }
        lemma_ascii_utf8_len(d);
        assert(byte_boundary_at(v, 10, 10));
        let k = byte_boundary(v, 10);
        if k < 10 {
            lemma_utf8_len_grows(v, k, 10);
        } else if k > 10 {
            lemma_utf8_len_grows(v, 10, k);
        }
    }
    if is_date(leading_date(v)) {
        assert(has_byte_boundary(v, 10));
        let k = byte_boundary(v, 10);
        assert(v.take(k).len() == 10);
        assert(v.take(k) =~= v.subrange(0, 10));
    }
}

fn check_timestamp(label: &str, value: &str, errors: &mut Vec<String>)
    ensures
        !is_timestamp(value@) <==> final(errors)@.len() == old(errors)@.len() + 1,
        is_timestamp(value@) <==> final(errors)@ == old(errors)@,
        views(final(errors)@) == views(old(errors)@) + timestamp_finding(label@, value@),
{
    if byte_len(value) < 20 || !ends_with(value, "Z") {
        note(errors, true, cat3(label, " is not a UTC timestamp: ", value));
        return;
    }
    let cs = chars_of(value);
    let date = match char_index_at_byte(&cs, 10) {
        Some(k) => text_between(&cs, 0, k),
        None => String::new(),
    };
    proof {
        assert(date@ == leading_date(value@)) by {
            if has_byte_boundary(value@, 10) {
                assert(cs@.subrange(0, byte_boundary(value@, 10)) =~= value@.take(byte_boundary(value@, 10)));
            } else {
                assert(date@ =~= Seq::<char>::empty());
            }
        }
        lemma_leading_date(value@);
    }
    check_date(label, date.as_str(), errors);
}

fn check_branch(id: &str, branch: &str, errors: &mut Vec<String>)
    ensures
        noted(old(errors)@, final(errors)@, !is_branch(branch@), "migration "@ + id@ + " has invalid default branch "@ + branch@),
        views(final(errors)@) == views(old(errors)@) + branch_finding(id@, branch@),
{
    let bad = !branch_ok(branch);
    note(errors, bad, cat4("migration ", id, " has invalid default branch ", branch));
}

fn check_head(id: &str, head: &str, errors: &mut Vec<String>)
    ensures
        noted(old(errors)@, final(errors)@, !is_head(head@), "migration "@ + id@ + " head is not a full git object id"@),
        views(final(errors)@) == views(old(errors)@) + head_finding(id@, head@),
{
    let bad = !head_ok(head);
    note(errors, bad, cat3("migration ", id, " head is not a full git object id"));
}

fn check_safe_locator(id: &str, locator: &str, errors: &mut Vec<String>)
    ensures
        noted(old(errors)@, final(errors)@, !is_safe_locator(locator@), "migration "@ + id@ + " local_locator must be workspace-relative and slash-separated"@),
        views(final(errors)@) == views(old(errors)@) + locator_finding(id@, locator@),
{
    let bad = !locator_ok(locator);
    note(errors, bad, cat3("migration ", id, " local_locator must be workspace-relative and slash-separated"));
}

fn check_receipt_path(path: &str, errors: &mut Vec<String>)
    ensures
        noted(old(errors)@, final(errors)@, !is_receipt_path(path@), "inventory_receipt must be a safe path below docs/receipts: "@ + path@),
        views(final(errors)@) == views(old(errors)@) + receipt_finding(path@),
{
    let bad = !receipt_ok(path);
    note(errors, bad, cat2("inventory_receipt must be a safe path below docs/receipts: ", path));
}

/// The view of an optional string.
pub open spec fn opt_view(o: Option<String>) -> Option<Seq<char>> {
    match o {
        Some(s) => Some(s@),
        None => None,
    }
}

/// One site repository record satisfies the editorial rules.
pub open spec fn repository_ok(r: RepositoryRecord) -> bool {
    &&& !is_blank(r.id@)
    &&& !is_blank(r.name@)
    &&& !is_blank(r.summary@)
    &&& !is_blank(r.license@)
    &&& has_prefix(r.homepage@, "https://"@)
    &&& is_repo_slug(r.github_slug@)
    &&& r.public
}

pub open spec fn repository_ids(rs: Seq<RepositoryRecord>) -> Seq<Seq<char>> {
    rs.map_values(|r: RepositoryRecord| r.id@)
}

pub open spec fn repository_slugs(rs: Seq<RepositoryRecord>) -> Seq<Seq<char>> {
    rs.map_values(|r: RepositoryRecord| r.github_slug@)
}

/// One relation names two different known repositories and carries dated
/// evidence.
pub open spec fn relation_ok(ids: Seq<Seq<char>>, r: RelationRecord) -> bool {
    &&& ids.contains(r.source@)
    &&& ids.contains(r.target@)
    &&& r.source@ != r.target@
    &&& !is_blank(r.evidence@)
    &&& is_date(r.verified_on@)
}

pub open spec fn relation_ids(rs: Seq<RelationRecord>) -> Seq<Seq<char>> {
    rs.map_values(|r: RelationRecord| r.id@)
}

/// One migration ledger entry is well formed on its own.
pub open spec fn migration_ok(m: MigrationRecord) -> bool {
    migration_fields_ok(m) && aliases_ok(m)
}

/// Every source alias is a slug other than the current one.
pub open spec fn aliases_ok(m: MigrationRecord) -> bool {
    forall|i: int| 0 <= i < m.source_aliases.len() ==> alias_ok(m, #[trigger] m.source_aliases@[i])
}

pub open spec fn alias_ok(m: MigrationRecord, a: String) -> bool {
    is_repo_slug(a@) && a@ != m.current_slug@
}

/// The fields of a migration entry other than its aliases.
pub open spec fn migration_fields_ok(m: MigrationRecord) -> bool {
    &&& is_repo_slug(m.current_slug@)
    &&& (m.target_slug matches Some(t) ==> is_repo_slug(t@))
    &&& is_branch(m.default_branch@)
    &&& is_head(m.head@)
    &&& !is_blank(m.license_status@)
    &&& !is_blank(m.provenance_status@)
    &&& !is_blank(m.sensitive_information_status@)
    &&& (m.public_scope matches Some(p) ==> !is_blank(p@))
    &&& (m.history_remediation matches Some(h) ==> !is_blank(h@))
    &&& !is_blank(m.pages_status@)
    &&& !is_blank(m.packages_status@)
    &&& (m.local_locator matches Some(l) ==> is_safe_locator(l@))
    &&& disposition_ok(m)
}

/// What each migration disposition demands.
pub open spec fn disposition_ok(m: MigrationRecord) -> bool {
    match m.disposition {
        MigrationDisposition::AlreadyInOrg => has_prefix(m.current_slug@, "merely-made/"@) && opt_view(
            m.target_slug,
        ) == Some(m.current_slug@),
        MigrationDisposition::Candidate => match m.target_slug {
            None => false,
            Some(t) => {
                &&& has_prefix(t@, "merely-made/"@)
                &&& (m.public_scope matches Some(p) && p@.len() > 0)
                &&& m.publication_gate_status is Some
                &&& (m.history_remediation matches Some(h) && h@.len() > 0)
            },
        },
        MigrationDisposition::Hold => m.target_slug is None,
        MigrationDisposition::KeepPersonal => {
            &&& m.classification == MigrationClass::MaintainedFork
            &&& m.target_slug is None
            &&& has_prefix(m.current_slug@, "mark-ik/"@)
        },
    }
}

pub open spec fn migration_ids(ms: Seq<MigrationRecord>) -> Seq<Seq<char>> {
    ms.map_values(|m: MigrationRecord| m.id@)
}

pub open spec fn current_slugs(ms: Seq<MigrationRecord>) -> Seq<Seq<char>> {
    ms.map_values(|m: MigrationRecord| m.current_slug@)
}

/// No two migrations claim the same target slug.
pub open spec fn targets_distinct(ms: Seq<MigrationRecord>) -> bool {
    targets_distinct_upto(ms, ms.len() as int)
}

/// No source alias occurs twice anywhere in the ledger.
pub open spec fn aliases_distinct(ms: Seq<MigrationRecord>) -> bool {
    aliases_distinct_upto(ms, ms.len() as int, 0)
}

/// Every site repository has a ledger entry that agrees on its slug.
pub open spec fn repositories_in_ledger(rs: Seq<RepositoryRecord>, ms: Seq<MigrationRecord>) -> bool {
    ledger_prefix_ok(rs, ms, rs.len() as int)
}

/// Some ledger entry has the repository's id and agrees on its slug.
pub open spec fn in_ledger(r: RepositoryRecord, ms: Seq<MigrationRecord>) -> bool {
    exists|m: int| 0 <= m < ms.len() && (#[trigger] ms[m]).id@ == r.id@ && ms[m].current_slug@ == r.github_slug@
}

pub open spec fn unresolved_ok(u: UnresolvedProduct) -> bool {
    !is_blank(u.name@) && !is_blank(u.state@) && !is_blank(u.evidence@)
}

pub open spec fn unresolved_names(us: Seq<UnresolvedProduct>) -> Seq<Seq<char>> {
    us.map_values(|u: UnresolvedProduct| lower(u.name@))
}

pub open spec fn receipts_ok(m: MigrationManifest) -> bool {
    &&& is_receipt_path(m.inventory_receipt@)
    &&& (m.publication_gate_receipt matches Some(r) ==> is_receipt_path(r@))
    &&& (m.fork_review_receipt matches Some(r) ==> is_receipt_path(r@))
}

/// The whole editorial authority satisfies every rule.
pub open spec fn authority_valid(a: Authority) -> bool {
    let rs = a.repositories.repository@;
    let rels = a.relations.relation@;
    let ms = a.migration.migration@;
    let us = a.migration.unresolved_product@;
    &&& rs.len() > 0
    &&& forall|i: int| 0 <= i < rs.len() ==> repository_ok(#[trigger] rs[i])
    &&& distinct_upto(repository_ids(rs), rs.len() as int)
    &&& distinct_upto(repository_slugs(rs), rs.len() as int)
    &&& forall|i: int| 0 <= i < rels.len() ==> relation_ok(repository_ids(rs), #[trigger] rels[i])
    &&& distinct_upto(relation_ids(rels), rels.len() as int)
    &&& forall|i: int| 0 <= i < ms.len() ==> migration_ok(#[trigger] ms[i])
    &&& distinct_upto(migration_ids(ms), ms.len() as int)
    &&& distinct_upto(current_slugs(ms), ms.len() as int)
    &&& targets_distinct(ms)
    &&& aliases_distinct(ms)
    &&& repositories_in_ledger(rs, ms)
    &&& receipts_ok(a.migration)
    &&& forall|i: int| 0 <= i < us.len() ==> unresolved_ok(#[trigger] us[i])
    &&& distinct_upto(unresolved_names(us), us.len() as int)
}

/// What the checks of a site repository's own fields record, in order.
pub open spec fn repository_field_findings(r: RepositoryRecord) -> Seq<Seq<char>> {
    let id = r.id@;
    let label = "repository "@ + id;
    nonempty_finding("repository id"@, id) + nonempty_finding(label + " name"@, r.name@) + nonempty_finding(
        label + " summary"@,
        r.summary@,
    ) + nonempty_finding(label + " license"@, r.license@) + https_finding(label + " homepage"@, r.homepage@)
        + slug_finding(label + " github_slug"@, r.github_slug@) + flag(
        !r.public,
        label + " is not public; private repositories do not belong in site authority"@,
    )
}

/// Checks a site repository's own fields.
fn check_repository_fields(r: &RepositoryRecord, errors: &mut Vec<String>)
    ensures
        views(final(errors)@) == views(old(errors)@) + repository_field_findings(*r),
        (final(errors)@.len() == old(errors)@.len()) <==> repository_ok(*r),
        old(errors)@.len() <= final(errors)@.len(),
{
    let ghost v0 = views(errors@);
    let ghost id = r.id@;
    let ghost label = "repository "@ + id;
    check_nonempty("repository id", r.id.as_str(), errors);
    let ghost mut acc = nonempty_finding("repository id"@, id);
    check_nonempty(cat3("repository ", r.id.as_str(), " name").as_str(), r.name.as_str(), errors);
    proof {
        lemma_extend(v0, acc, nonempty_finding(label + " name"@, r.name@));
        acc = acc + nonempty_finding(label + " name"@, r.name@);
    }
    check_nonempty(cat3("repository ", r.id.as_str(), " summary").as_str(), r.summary.as_str(), errors);
    proof {
        lemma_extend(v0, acc, nonempty_finding(label + " summary"@, r.summary@));
        acc = acc + nonempty_finding(label + " summary"@, r.summary@);
    }
    check_nonempty(cat3("repository ", r.id.as_str(), " license").as_str(), r.license.as_str(), errors);
    proof {
        lemma_extend(v0, acc, nonempty_finding(label + " license"@, r.license@));
        acc = acc + nonempty_finding(label + " license"@, r.license@);
    }
    check_https_or_github(cat3("repository ", r.id.as_str(), " homepage").as_str(), r.homepage.as_str(), errors);
    proof {
        lemma_extend(v0, acc, https_finding(label + " homepage"@, r.homepage@));
        acc = acc + https_finding(label + " homepage"@, r.homepage@);
    }
    check_slug(cat3("repository ", r.id.as_str(), " github_slug").as_str(), r.github_slug.as_str(), errors);
    proof {
        lemma_extend(v0, acc, slug_finding(label + " github_slug"@, r.github_slug@));
        acc = acc + slug_finding(label + " github_slug"@, r.github_slug@);
    }
    let private_msg = cat3("repository ", r.id.as_str(), " is not public; private repositories do not belong in site authority");
    note(errors, !r.public, private_msg);
    proof {
        let f = flag(!r.public, label + " is not public; private repositories do not belong in site authority"@);
        lemma_extend(v0, acc, f);
        acc = acc + f;
    }
}

/// What the checks of site repository `i` record, in order.
pub open spec fn repository_findings(rs: Seq<RepositoryRecord>, i: int) -> Seq<Seq<char>> {
    let r = rs[i];
    let id = r.id@;
    repository_field_findings(r) + flag(repository_ids(rs).take(i).contains(id), "duplicate repository id "@ + id) + flag(
        repository_slugs(rs).take(i).contains(r.github_slug@),
        "duplicate repository github_slug "@ + r.github_slug@,
    )
}

/// What the checks of the first `n` site repositories record, in order.
pub open spec fn repositories_findings(rs: Seq<RepositoryRecord>, n: int) -> Seq<Seq<char>>
    decreases n,
{
    if n <= 0 {
        Seq::empty()
    } else {
        repositories_findings(rs, n - 1) + repository_findings(rs, n - 1)
    }
}

/// Checks the site repository records, and gathers their ids.
fn check_repositories(repos: &Vec<RepositoryRecord>, errors: &mut Vec<String>) -> (ids: Vec<String>)
    ensures
        views(final(errors)@) == views(old(errors)@) + repositories_findings(repos@, repos@.len() as int),
        old(errors)@.len() <= final(errors)@.len(),
        (final(errors)@.len() == old(errors)@.len()) <==> ((forall|i: int|
            0 <= i < repos.len() ==> repository_ok(#[trigger] repos@[i])) && distinct_upto(
            repository_ids(repos@),
            repos.len() as int,
        ) && distinct_upto(repository_slugs(repos@), repos.len() as int)),
        forall|y: Seq<char>| #[trigger] views(ids@).contains(y) <==> repository_ids(repos@).contains(y),
{
    let ghost e0 = errors@.len();
    let ghost v0 = views(errors@);
    let ghost rid = repository_ids(repos@);
    let ghost rsl = repository_slugs(repos@);
    let mut ids: Vec<String> = Vec::new();
    let mut slugs: Vec<String> = Vec::new();
    let mut i: usize = 0;
    while i < repos.len()
        invariant
            i <= repos.len(),
            views(errors@) == v0 + repositories_findings(repos@, i as int),
            rid == repository_ids(repos@),
            rsl == repository_slugs(repos@),
            e0 <= errors@.len(),
            (errors@.len() == e0) <==> ((forall|j: int| 0 <= j < i ==> repository_ok(#[trigger] repos@[j]))
                && distinct_upto(rid, i as int) && distinct_upto(rsl, i as int)),
            forall|y: Seq<char>| #[trigger] views(ids@).contains(y) <==> exists|j: int| 0 <= j < i && rid[j] == y,
            forall|y: Seq<char>| #[trigger] views(slugs@).contains(y) <==> exists|j: int| 0 <= j < i && rsl[j] == y,
        decreases repos.len() - i,
    {
        let r = &repos[i];
        let ghost before = errors@.len();
        let ghost prior = views(errors@);
        assert(rid[i as int] == r.id@ && rsl[i as int] == r.github_slug@);
        check_repository_fields(r, errors);
        let dup_id = remember(&mut ids, r.id.as_str());
        note(errors, dup_id, cat2("duplicate repository id ", r.id.as_str()));
        let dup_slug = remember(&mut slugs, r.github_slug.as_str());
        note(errors, dup_slug, cat2("duplicate repository github_slug ", r.github_slug.as_str()));
        proof {
            assert(dup_id == exists|j: int| 0 <= j < i && rid[j] == rid[i as int]);
            assert(dup_slug == exists|j: int| 0 <= j < i && rsl[j] == rsl[i as int]);
            assert(dup_id == rid.take(i as int).contains(rid[i as int])) by {
                if dup_id {
                    let j = choose|j: int| 0 <= j < i && rid[j] == rid[i as int];
                    assert(rid.take(i as int)[j] == rid[i as int]);
                }
            }
            assert(dup_slug == rsl.take(i as int).contains(rsl[i as int])) by {
                if dup_slug {
                    let j = choose|j: int| 0 <= j < i && rsl[j] == rsl[i as int];
                    assert(rsl.take(i as int)[j] == rsl[i as int]);
                }
            }
            let f0 = repository_field_findings(*r);
            let f1 = flag(dup_id, "duplicate repository id "@ + r.id@);
            let f2 = flag(dup_slug, "duplicate repository github_slug "@ + r.github_slug@);
            lemma_extend(prior, f0, f1);
            lemma_extend(prior, f0 + f1, f2);
            lemma_extend(v0, repositories_findings(repos@, i as int), repository_findings(repos@, i as int));
            assert(distinct_upto(rid, i + 1) == (distinct_upto(rid, i as int) && !dup_id));
            assert(distinct_upto(rsl, i + 1) == (distinct_upto(rsl, i as int) && !dup_slug));
            assert forall|y: Seq<char>| #[trigger] views(ids@).contains(y) <==> exists|j: int| 0 <= j < i + 1 && rid[j] == y by {
                if y == rid[i as int] {
                    assert(exists|j: int| 0 <= j < i + 1 && rid[j] == y);
                }
            }
            assert forall|y: Seq<char>| #[trigger] views(slugs@).contains(y) <==> exists|j: int| 0 <= j < i + 1 && rsl[j] == y by {
                if y == rsl[i as int] {
                    assert(exists|j: int| 0 <= j < i + 1 && rsl[j] == y);
                }
            }
        }
        i = i + 1;
    }
    proof {
        assert forall|y: Seq<char>| #[trigger] views(ids@).contains(y) <==> rid.contains(y) by {
            if rid.contains(y) {
                let j = choose|j: int| 0 <= j < rid.len() && rid[j] == y;
                assert(exists|j: int| 0 <= j < repos.len() && rid[j] == y);
            }
        }
    }
    ids
}

/// What the checks of relation `i` record, in order, against the known
/// repository ids.
pub open spec fn relation_findings(ids: Seq<Seq<char>>, rels: Seq<RelationRecord>, i: int) -> Seq<Seq<char>> {
    let r = rels[i];
    let id = r.id@;
    flag(relation_ids(rels).take(i).contains(id), "duplicate relation id "@ + id) + relation_field_findings(ids, r)
}

/// What the checks of a relation's own fields record, in order.
pub open spec fn relation_field_findings(ids: Seq<Seq<char>>, r: RelationRecord) -> Seq<Seq<char>> {
    let id = r.id@;
    flag(!ids.contains(r.source@), "relation "@ + id + " has unknown source "@ + r.source@) + flag(
        !ids.contains(r.target@),
        "relation "@ + id + " has unknown target "@ + r.target@,
    ) + flag(r.source@ == r.target@, "relation "@ + id + " is a self-edge"@) + nonempty_finding(
        "relation "@ + id + " evidence"@,
        r.evidence@,
    ) + date_finding("relation "@ + id + " verified_on"@, r.verified_on@)
}

/// What the checks of the first `n` relations record, in order.
pub open spec fn relations_findings(ids: Seq<Seq<char>>, rels: Seq<RelationRecord>, n: int) -> Seq<Seq<char>>
    decreases n,
{
    if n <= 0 {
        Seq::empty()
    } else {
        relations_findings(ids, rels, n - 1) + relation_findings(ids, rels, n - 1)
    }
}

/// The relation checks read the known ids only through membership.
proof fn lemma_relations_findings_same_ids(a: Seq<Seq<char>>, b: Seq<Seq<char>>, rels: Seq<RelationRecord>, n: int)
    requires
        forall|y: Seq<char>| #[trigger] a.contains(y) <==> b.contains(y),
    ensures
        relations_findings(a, rels, n) == relations_findings(b, rels, n),
    decreases n,
{
    if n > 0 {
        lemma_relations_findings_same_ids(a, b, rels, n - 1);
        assert(a.contains(rels[n - 1].source@) == b.contains(rels[n - 1].source@));
        assert(a.contains(rels[n - 1].target@) == b.contains(rels[n - 1].target@));
    }
}

/// Checks a relation's own fields against the known repository ids.
fn check_relation_fields(ids: &Vec<String>, r: &RelationRecord, errors: &mut Vec<String>)
    ensures
        views(final(errors)@) == views(old(errors)@) + relation_field_findings(views(ids@), *r),
        (final(errors)@.len() == old(errors)@.len()) <==> relation_ok(views(ids@), *r),
        old(errors)@.len() <= final(errors)@.len(),
{
    let ghost v0 = views(errors@);
    let ghost id = r.id@;
    let known_source = holds_string(ids, r.source.as_str());
    note(errors, !known_source, cat4("relation ", r.id.as_str(), " has unknown source ", r.source.as_str()));
    let ghost mut acc = flag(!known_source, "relation "@ + id + " has unknown source "@ + r.source@);
    let known_target = holds_string(ids, r.target.as_str());
    note(errors, !known_target, cat4("relation ", r.id.as_str(), " has unknown target ", r.target.as_str()));
    proof {
        let f = flag(!known_target, "relation "@ + id + " has unknown target "@ + r.target@);
        lemma_extend(v0, acc, f);
        acc = acc + f;
    }
    let self_edge = str_eq(r.source.as_str(), r.target.as_str());
    note(errors, self_edge, cat3("relation ", r.id.as_str(), " is a self-edge"));
    proof {
        let f = flag(self_edge, "relation "@ + id + " is a self-edge"@);
        lemma_extend(v0, acc, f);
        acc = acc + f;
    }
    check_nonempty(cat3("relation ", r.id.as_str(), " evidence").as_str(), r.evidence.as_str(), errors);
    proof {
        let f = nonempty_finding("relation "@ + id + " evidence"@, r.evidence@);
        lemma_extend(v0, acc, f);
        acc = acc + f;
    }
    check_date(cat3("relation ", r.id.as_str(), " verified_on").as_str(), r.verified_on.as_str(), errors);
    proof {
        let f = date_finding("relation "@ + id + " verified_on"@, r.verified_on@);
        lemma_extend(v0, acc, f);
        acc = acc + f;
    }
}

/// Checks the relation records against the known repository ids.
fn check_relations(ids: &Vec<String>, relations: &Vec<RelationRecord>, errors: &mut Vec<String>)
    ensures
        views(final(errors)@) == views(old(errors)@) + relations_findings(views(ids@), relations@, relations@.len() as int),
        old(errors)@.len() <= final(errors)@.len(),
        (final(errors)@.len() == old(errors)@.len()) <==> ((forall|i: int|
            0 <= i < relations.len() ==> relation_ok(views(ids@), #[trigger] relations@[i])) && distinct_upto(
            relation_ids(relations@),
            relations.len() as int,
        )),
{
    let ghost e0 = errors@.len();
    let ghost v0 = views(errors@);
    let ghost rid = relation_ids(relations@);
    let mut seen: Vec<String> = Vec::new();
    let mut i: usize = 0;
    while i < relations.len()
        invariant
            i <= relations.len(),
            rid == relation_ids(relations@),
            e0 <= errors@.len(),
            views(errors@) == v0 + relations_findings(views(ids@), relations@, i as int),
            (errors@.len() == e0) <==> ((forall|j: int|
                0 <= j < i ==> relation_ok(views(ids@), #[trigger] relations@[j])) && distinct_upto(rid, i as int)),
            forall|y: Seq<char>| #[trigger] views(seen@).contains(y) <==> exists|j: int| 0 <= j < i && rid[j] == y,
        decreases relations.len() - i,
    {
        let r = &relations[i];
        let ghost prior = views(errors@);
        assert(rid[i as int] == r.id@);
        let dup = remember(&mut seen, r.id.as_str());
        note(errors, dup, cat2("duplicate relation id ", r.id.as_str()));
        check_relation_fields(ids, r, errors);
        proof {
            assert(dup == exists|j: int| 0 <= j < i && rid[j] == rid[i as int]);
            assert(dup == rid.take(i as int).contains(rid[i as int])) by {
                if dup {
                    let j = choose|j: int| 0 <= j < i && rid[j] == rid[i as int];
                    assert(rid.take(i as int)[j] == rid[i as int]);
                }
            }
            lemma_extend(
                prior,
                flag(dup, "duplicate relation id "@ + r.id@),
                relation_field_findings(views(ids@), *r),
            );
            lemma_extend(v0, relations_findings(views(ids@), relations@, i as int), relation_findings(views(ids@), relations@, i as int));
            assert(distinct_upto(rid, i + 1) == (distinct_upto(rid, i as int) && !dup));
            assert forall|y: Seq<char>| #[trigger] views(seen@).contains(y) <==> exists|j: int| 0 <= j < i + 1 && rid[j] == y by {
                if y == rid[i as int] {
                    assert(exists|j: int| 0 <= j < i + 1 && rid[j] == y);
                }
            }
        }
        i = i + 1;
    }
}

/// What the check of an optional receipt path records.
pub open spec fn optional_receipt_finding(path: Option<String>) -> Seq<Seq<char>> {
    match path {
        Some(p) => receipt_finding(p@),
        None => Seq::empty(),
    }
}

/// What the checks of the ledger's receipt paths record, in order.
pub open spec fn receipts_findings(m: MigrationManifest) -> Seq<Seq<char>> {
    receipt_finding(m.inventory_receipt@) + optional_receipt_finding(m.publication_gate_receipt)
        + optional_receipt_finding(m.fork_review_receipt)
}

/// Checks the receipt paths of the migration ledger.
fn check_receipts(m: &MigrationManifest, errors: &mut Vec<String>)
    ensures
        views(final(errors)@) == views(old(errors)@) + receipts_findings(*m),
        old(errors)@.len() <= final(errors)@.len(),
        (final(errors)@.len() == old(errors)@.len()) <==> receipts_ok(*m),
{
    let ghost v0 = views(errors@);
    check_receipt_path(m.inventory_receipt.as_str(), errors);
    match &m.publication_gate_receipt {
        Some(r) => check_receipt_path(r.as_str(), errors),
        None => {},
    }
    proof {
        lemma_extend(v0, receipt_finding(m.inventory_receipt@), optional_receipt_finding(m.publication_gate_receipt));
    }
    let ghost acc = receipt_finding(m.inventory_receipt@) + optional_receipt_finding(m.publication_gate_receipt);
    match &m.fork_review_receipt {
        Some(r) => check_receipt_path(r.as_str(), errors),
        None => {},
    }
    proof {
        lemma_extend(v0, acc, optional_receipt_finding(m.fork_review_receipt));
    }
}

/// What the checks of unresolved product `i` record, in order.
pub open spec fn unresolved_findings(us: Seq<UnresolvedProduct>, i: int) -> Seq<Seq<char>> {
    let u = us[i];
    let name = u.name@;
    nonempty_finding("unresolved product name"@, name) + nonempty_finding("unresolved product "@ + name + " state"@, u.state@)
        + nonempty_finding("unresolved product "@ + name + " evidence"@, u.evidence@) + flag(
        unresolved_names(us).take(i).contains(lower(name)),
        "duplicate unresolved product "@ + name,
    )
}

/// What the checks of the first `n` unresolved products record, in order.
pub open spec fn unresolveds_findings(us: Seq<UnresolvedProduct>, n: int) -> Seq<Seq<char>>
    decreases n,
{
    if n <= 0 {
        Seq::empty()
    } else {
        unresolveds_findings(us, n - 1) + unresolved_findings(us, n - 1)
    }
}

/// Checks the products that are still unresolved.
fn check_unresolved(us: &Vec<UnresolvedProduct>, errors: &mut Vec<String>)
    ensures
        views(final(errors)@) == views(old(errors)@) + unresolveds_findings(us@, us@.len() as int),
        old(errors)@.len() <= final(errors)@.len(),
        (final(errors)@.len() == old(errors)@.len()) <==> ((forall|i: int|
            0 <= i < us.len() ==> unresolved_ok(#[trigger] us@[i])) && distinct_upto(unresolved_names(us@), us.len() as int)),
{
    let ghost e0 = errors@.len();
    let ghost v0 = views(errors@);
    let ghost names = unresolved_names(us@);
    let mut seen: Vec<String> = Vec::new();
    let mut i: usize = 0;
    while i < us.len()
        invariant
            i <= us.len(),
            names == unresolved_names(us@),
            e0 <= errors@.len(),
            views(errors@) == v0 + unresolveds_findings(us@, i as int),
            (errors@.len() == e0) <==> ((forall|j: int| 0 <= j < i ==> unresolved_ok(#[trigger] us@[j]))
                && distinct_upto(names, i as int)),
            forall|y: Seq<char>| #[trigger] views(seen@).contains(y) <==> exists|j: int| 0 <= j < i && names[j] == y,
        decreases us.len() - i,
    {
        let u = &us[i];
        let ghost prior = views(errors@);
        let ghost name = u.name@;
        check_nonempty("unresolved product name", u.name.as_str(), errors);
        check_nonempty(cat3("unresolved product ", u.name.as_str(), " state").as_str(), u.state.as_str(), errors);
        proof {
            lemma_extend(
                prior,
                nonempty_finding("unresolved product name"@, name),
                nonempty_finding("unresolved product "@ + name + " state"@, u.state@),
            );
        }
        let ghost acc = nonempty_finding("unresolved product name"@, name) + nonempty_finding(
            "unresolved product "@ + name + " state"@,
            u.state@,
        );
        check_nonempty(cat3("unresolved product ", u.name.as_str(), " evidence").as_str(), u.evidence.as_str(), errors);
        proof {
            lemma_extend(prior, acc, nonempty_finding("unresolved product "@ + name + " evidence"@, u.evidence@));
        }
        let ghost acc2 = acc + nonempty_finding("unresolved product "@ + name + " evidence"@, u.evidence@);
        let lowered = to_lower(u.name.as_str());
        assert(names[i as int] == lowered@);
        let dup = remember(&mut seen, lowered.as_str());
        note(errors, dup, cat2("duplicate unresolved product ", u.name.as_str()));
        proof {
            assert(dup == exists|j: int| 0 <= j < i && names[j] == names[i as int]);
            assert(dup == names.take(i as int).contains(names[i as int])) by {
                if dup {
                    let j = choose|j: int| 0 <= j < i && names[j] == names[i as int];
                    assert(names.take(i as int)[j] == names[i as int]);
                }
            }
            lemma_extend(prior, acc2, flag(dup, "duplicate unresolved product "@ + name));
            lemma_extend(v0, unresolveds_findings(us@, i as int), unresolved_findings(us@, i as int));
            assert(distinct_upto(names, i + 1) == (distinct_upto(names, i as int) && !dup));
            assert forall|y: Seq<char>| #[trigger] views(seen@).contains(y) <==> exists|j: int| 0 <= j < i + 1 && names[j] == y by {
                if y == names[i as int] {
                    assert(exists|j: int| 0 <= j < i + 1 && names[j] == y);
                }
            }
        }
        i = i + 1;
    }
}

/// The last ledger entry with the given id, as a keyed map keeps it.
fn last_migration_with_id(ms: &Vec<MigrationRecord>, id: &str) -> (r: Option<usize>)
    ensures
        match r {
            Some(k) => k < ms.len() && ms@[k as int].id@ == id@ && forall|j: int| k < j < ms.len() ==> ms@[j].id@ != id@,
            None => forall|j: int| 0 <= j < ms.len() ==> ms@[j].id@ != id@,
        },
{
    let mut found: Option<usize> = None;
    let mut i: usize = 0;
    while i < ms.len()
        invariant
            i <= ms.len(),
            match found {
                Some(k) => k < i && ms@[k as int].id@ == id@ && forall|j: int| k < j < i ==> ms@[j].id@ != id@,
                None => forall|j: int| 0 <= j < i ==> ms@[j].id@ != id@,
            },
        decreases ms.len() - i,
    {
        if str_eq(ms[i].id.as_str(), id) {
            found = Some(i);
        }
        i = i + 1;
    }
    found
}

/// The first `n` site repositories have a ledger entry that agrees on the slug.
pub open spec fn ledger_prefix_ok(rs: Seq<RepositoryRecord>, ms: Seq<MigrationRecord>, n: int) -> bool {
    forall|r: int| 0 <= r < n ==> #[trigger] in_ledger(rs[r], ms)
}

/// Position `k` holds the last ledger entry with the given id.
pub open spec fn last_with_id(ms: Seq<MigrationRecord>, id: Seq<char>, k: int) -> bool {
    &&& 0 <= k < ms.len()
    &&& ms[k].id@ == id
    &&& forall|j: int| k < j < ms.len() ==> (#[trigger] ms[j]).id@ != id
}

/// What the check of site repository `i` against the ledger records: the
/// last ledger entry with its id must exist and agree on its slug.
pub open spec fn ledger_finding(rs: Seq<RepositoryRecord>, ms: Seq<MigrationRecord>, i: int) -> Seq<Seq<char>> {
    let r = rs[i];
    if exists|k: int| #[trigger] last_with_id(ms, r.id@, k) {
        let k = choose|k: int| #[trigger] last_with_id(ms, r.id@, k);
        flag(
            ms[k].current_slug@ != r.github_slug@,
            "repository "@ + r.id@ + " slug "@ + r.github_slug@ + " disagrees with migration current slug "@
                + ms[k].current_slug@,
        )
    } else {
        seq!["site repository "@ + r.id@ + " has no migration ledger entry"@]
    }
}

/// What the checks of the first `n` site repositories against the ledger
/// record, in order.
pub open spec fn ledger_findings(rs: Seq<RepositoryRecord>, ms: Seq<MigrationRecord>, n: int) -> Seq<Seq<char>>
    decreases n,
{
    if n <= 0 {
        Seq::empty()
    } else {
        ledger_findings(rs, ms, n - 1) + ledger_finding(rs, ms, n - 1)
    }
}

/// Checks that every site repository has a ledger entry that agrees on its
/// slug.
fn check_ledger_links(repos: &Vec<RepositoryRecord>, ms: &Vec<MigrationRecord>, errors: &mut Vec<String>)
    ensures
        views(final(errors)@) == views(old(errors)@) + ledger_findings(repos@, ms@, repos@.len() as int),
        old(errors)@.len() <= final(errors)@.len(),
        distinct_upto(migration_ids(ms@), ms.len() as int) ==> ((final(errors)@.len() == old(errors)@.len())
            <==> repositories_in_ledger(repos@, ms@)),
{
    let ghost e0 = errors@.len();
    let ghost v0 = views(errors@);
    let ghost dist = distinct_upto(migration_ids(ms@), ms.len() as int);
    let mut i: usize = 0;
    while i < repos.len()
        invariant
            i <= repos.len(),
            e0 <= errors@.len(),
            views(errors@) == v0 + ledger_findings(repos@, ms@, i as int),
            dist == distinct_upto(migration_ids(ms@), ms.len() as int),
            dist ==> ((errors@.len() == e0) == ledger_prefix_ok(repos@, ms@, i as int)),
        decreases repos.len() - i,
    {
        let r = &repos[i];
        let ghost prior = views(errors@);
        match last_migration_with_id(ms, r.id.as_str()) {
            None => {
                note(errors, true, cat3("site repository ", r.id.as_str(), " has no migration ledger entry"));
                proof {
                    assert(!in_ledger(repos@[i as int], ms@));
                    assert(!ledger_prefix_ok(repos@, ms@, i + 1));
                    assert(!exists|k: int| #[trigger] last_with_id(ms@, r.id@, k));
                }
            },
            Some(k) => {
                let m = &ms[k];
                let agrees = str_eq(m.current_slug.as_str(), r.github_slug.as_str());
                note(
                    errors,
                    !agrees,
                    cat6(
                        "repository ",
                        r.id.as_str(),
                        " slug ",
                        r.github_slug.as_str(),
                        " disagrees with migration current slug ",
                        m.current_slug.as_str(),
                    ),
                );
                proof {
                    assert(last_with_id(ms@, r.id@, k as int));
                    let c = choose|c: int| #[trigger] last_with_id(ms@, r.id@, c);
                    if c < k {
                        assert(ms@[k as int].id@ != r.id@);
                    } else if c > k {
                        assert(ms@[c].id@ != r.id@);
                    }
                    if dist {
                        assert forall|mm: int| 0 <= mm < ms.len() && ms@[mm].id@ == r.id@ implies mm == k as int by {
                            assert(migration_ids(ms@)[mm] == ms@[mm].id@);
                            assert(migration_ids(ms@)[k as int] == ms@[k as int].id@);
                        }
                        if agrees {
                            assert(ms@[k as int].id@ == repos@[i as int].id@);
                            assert(in_ledger(repos@[i as int], ms@));
                        } else {
                            assert(!in_ledger(repos@[i as int], ms@));
                            assert(!ledger_prefix_ok(repos@, ms@, i + 1));
                        }
                    }
                }
            },
        }
        proof {
            lemma_extend(v0, ledger_findings(repos@, ms@, i as int), ledger_finding(repos@, ms@, i as int));
        }
        i = i + 1;
    }
}

/// What the check of an optional non-blank field records.
pub open spec fn optional_nonempty_finding(label: Seq<char>, value: Option<String>) -> Seq<Seq<char>> {
    match value {
        Some(v) => nonempty_finding(label, v@),
        None => Seq::empty(),
    }
}

/// What the checks of a migration entry's fields record, in order.
pub open spec fn migration_field_findings(m: MigrationRecord) -> Seq<Seq<char>> {
    migration_identity_findings(m) + migration_status_findings(m)
}

/// What the checks of a migration entry's slugs, branch, head and
/// assessments record, in order.
pub open spec fn migration_identity_findings(m: MigrationRecord) -> Seq<Seq<char>> {
    let id = m.id@;
    let lab = "migration "@ + id;
    slug_finding(lab + " current_slug"@, m.current_slug@) + target_slug_finding(m) + branch_finding(id, m.default_branch@)
        + head_finding(id, m.head@) + nonempty_finding(lab + " license_status"@, m.license_status@) + nonempty_finding(
        lab + " provenance_status"@,
        m.provenance_status@,
    ) + nonempty_finding(lab + " sensitive_information_status"@, m.sensitive_information_status@)
}

/// What the checks of a migration entry's scope, publication statuses,
/// locator and disposition record, in order.
pub open spec fn migration_status_findings(m: MigrationRecord) -> Seq<Seq<char>> {
    let id = m.id@;
    let lab = "migration "@ + id;
    optional_nonempty_finding(lab + " public_scope"@, m.public_scope) + optional_nonempty_finding(
        lab + " history_remediation"@,
        m.history_remediation,
    ) + nonempty_finding(lab + " pages_status"@, m.pages_status@) + nonempty_finding(
        lab + " packages_status"@,
        m.packages_status@,
    ) + optional_locator_finding(m) + disposition_findings(m)
}

/// What the check of a migration's target slug, where it has one, records.
pub open spec fn target_slug_finding(m: MigrationRecord) -> Seq<Seq<char>> {
    match m.target_slug {
        Some(t) => slug_finding("migration "@ + m.id@ + " target_slug"@, t@),
        None => Seq::empty(),
    }
}

/// What the check of a migration's local locator, where it has one, records.
pub open spec fn optional_locator_finding(m: MigrationRecord) -> Seq<Seq<char>> {
    match m.local_locator {
        Some(l) => locator_finding(m.id@, l@),
        None => Seq::empty(),
    }
}

/// What the check of a migration entry's disposition records, in order.
pub open spec fn disposition_findings(m: MigrationRecord) -> Seq<Seq<char>> {
    let lab = "migration "@ + m.id@;
    match m.disposition {
        MigrationDisposition::AlreadyInOrg => flag(
            !has_prefix(m.current_slug@, "merely-made/"@),
            lab + " says already-in-org but current slug is "@ + m.current_slug@,
        ) + flag(opt_view(m.target_slug) != Some(m.current_slug@), lab + " already-in-org target must equal current slug"@),
        MigrationDisposition::Candidate => match m.target_slug {
            None => seq![lab + " candidate has no target slug"@],
            Some(t) => flag(!has_prefix(t@, "merely-made/"@), lab + " candidate target is outside merely-made"@) + flag(
                !(m.public_scope matches Some(p) && p@.len() > 0),
                lab + " candidate has no public_scope"@,
            ) + flag(m.publication_gate_status is None, lab + " candidate has no publication_gate_status"@) + flag(
                !(m.history_remediation matches Some(h) && h@.len() > 0),
                lab + " candidate has no history_remediation"@,
            ),
        },
        MigrationDisposition::Hold => flag(m.target_slug is Some, lab + " is on hold but already claims a target slug"@),
        MigrationDisposition::KeepPersonal => flag(
            m.classification != MigrationClass::MaintainedFork,
            lab + " keeps personal ownership but is not a maintained fork"@,
        ) + flag(m.target_slug is Some, lab + " keeps personal ownership but claims a target slug"@) + flag(
            !has_prefix(m.current_slug@, "mark-ik/"@),
            lab + " keeps personal ownership outside mark-ik"@,
        ),
    }
}

/// Checks an optional field that must not be blank where present.
fn check_optional_nonempty(label: &str, value: &Option<String>, errors: &mut Vec<String>)
    ensures
        views(final(errors)@) == views(old(errors)@) + optional_nonempty_finding(label@, *value),
        old(errors)@.len() <= final(errors)@.len(),
        (final(errors)@.len() == old(errors)@.len()) <==> (value matches Some(v) ==> !is_blank(v@)),
{
    match value {
        Some(v) => check_nonempty(label, v.as_str(), errors),
        None => {
            assert(views(errors@) =~= views(old(errors)@) + optional_nonempty_finding(label@, *value));
        },
    }
}

fn check_migration_fields(m: &MigrationRecord, errors: &mut Vec<String>)
    ensures
        views(final(errors)@) == views(old(errors)@) + migration_field_findings(*m),
        old(errors)@.len() <= final(errors)@.len(),
        (final(errors)@.len() == old(errors)@.len()) <==> migration_fields_ok(*m),
{
    let ghost v0 = views(errors@);
    check_migration_identity(m, errors);
    check_migration_status(m, errors);
    proof {
        lemma_extend(v0, migration_identity_findings(*m), migration_status_findings(*m));
    }
}

/// Checks a migration entry's slugs, branch, head and assessments.
fn check_migration_identity(m: &MigrationRecord, errors: &mut Vec<String>)
    ensures
        views(final(errors)@) == views(old(errors)@) + migration_identity_findings(*m),
        old(errors)@.len() <= final(errors)@.len(),
        (final(errors)@.len() == old(errors)@.len()) <==> ({
            &&& is_repo_slug(m.current_slug@)
            &&& (m.target_slug matches Some(t) ==> is_repo_slug(t@))
            &&& is_branch(m.default_branch@)
            &&& is_head(m.head@)
            &&& !is_blank(m.license_status@)
            &&& !is_blank(m.provenance_status@)
            &&& !is_blank(m.sensitive_information_status@)
        }),
{
    let ghost v0 = views(errors@);
    let id = m.id.as_str();
    let ghost lab = "migration "@ + id@;
    check_slug(cat3("migration ", id, " current_slug").as_str(), m.current_slug.as_str(), errors);
    let ghost mut acc = slug_finding(lab + " current_slug"@, m.current_slug@);
    match &m.target_slug {
        Some(t) => check_slug(cat3("migration ", id, " target_slug").as_str(), t.as_str(), errors),
        None => {},
    }
    proof {
        let f = target_slug_finding(*m);
        if m.target_slug is None {
            assert(views(errors@) =~= v0 + acc + f);
        }
        lemma_extend(v0, acc, f);
        acc = acc + f;
    }
    check_branch(id, m.default_branch.as_str(), errors);
    proof {
        let f = branch_finding(id@, m.default_branch@);
        lemma_extend(v0, acc, f);
        acc = acc + f;
    }
    check_head(id, m.head.as_str(), errors);
    proof {
        let f = head_finding(id@, m.head@);
        lemma_extend(v0, acc, f);
        acc = acc + f;
    }
    check_nonempty(cat3("migration ", id, " license_status").as_str(), m.license_status.as_str(), errors);
    proof {
        let f = nonempty_finding(lab + " license_status"@, m.license_status@);
        lemma_extend(v0, acc, f);
        acc = acc + f;
    }
    check_nonempty(cat3("migration ", id, " provenance_status").as_str(), m.provenance_status.as_str(), errors);
    proof {
        let f = nonempty_finding(lab + " provenance_status"@, m.provenance_status@);
        lemma_extend(v0, acc, f);
        acc = acc + f;
    }
    check_nonempty(
        cat3("migration ", id, " sensitive_information_status").as_str(),
        m.sensitive_information_status.as_str(),
        errors,
    );
    proof {
        let f = nonempty_finding(lab + " sensitive_information_status"@, m.sensitive_information_status@);
        lemma_extend(v0, acc, f);
        acc = acc + f;
    }
}

/// Checks a migration entry's scope, publication statuses, locator and
/// disposition.
fn check_migration_status(m: &MigrationRecord, errors: &mut Vec<String>)
    ensures
        views(final(errors)@) == views(old(errors)@) + migration_status_findings(*m),
        old(errors)@.len() <= final(errors)@.len(),
        (final(errors)@.len() == old(errors)@.len()) <==> ({
            &&& (m.public_scope matches Some(p) ==> !is_blank(p@))
            &&& (m.history_remediation matches Some(h) ==> !is_blank(h@))
            &&& !is_blank(m.pages_status@)
            &&& !is_blank(m.packages_status@)
            &&& (m.local_locator matches Some(l) ==> is_safe_locator(l@))
            &&& disposition_ok(*m)
        }),
{
    let ghost v0 = views(errors@);
    let id = m.id.as_str();
    let ghost lab = "migration "@ + id@;
    check_optional_nonempty(cat3("migration ", id, " public_scope").as_str(), &m.public_scope, errors);
    let ghost mut acc = optional_nonempty_finding(lab + " public_scope"@, m.public_scope);
    check_optional_nonempty(cat3("migration ", id, " history_remediation").as_str(), &m.history_remediation, errors);
    proof {
        let f = optional_nonempty_finding(lab + " history_remediation"@, m.history_remediation);
        lemma_extend(v0, acc, f);
        acc = acc + f;
    }
    check_nonempty(cat3("migration ", id, " pages_status").as_str(), m.pages_status.as_str(), errors);
    proof {
        let f = nonempty_finding(lab + " pages_status"@, m.pages_status@);
        lemma_extend(v0, acc, f);
        acc = acc + f;
    }
    check_nonempty(cat3("migration ", id, " packages_status").as_str(), m.packages_status.as_str(), errors);
    proof {
        let f = nonempty_finding(lab + " packages_status"@, m.packages_status@);
        lemma_extend(v0, acc, f);
        acc = acc + f;
    }
    match &m.local_locator {
        Some(l) => check_safe_locator(id, l.as_str(), errors),
        None => {},
    }
    proof {
        let f = optional_locator_finding(*m);
        if m.local_locator is None {
            assert(views(errors@) =~= v0 + acc + f);
        }
        lemma_extend(v0, acc, f);
        acc = acc + f;
    }
    check_disposition(m, errors);
    proof {
        lemma_extend(v0, acc, disposition_findings(*m));
    }
}

fn check_disposition(m: &MigrationRecord, errors: &mut Vec<String>)
    ensures
        views(final(errors)@) == views(old(errors)@) + disposition_findings(*m),
        old(errors)@.len() <= final(errors)@.len(),
        (final(errors)@.len() == old(errors)@.len()) <==> disposition_ok(*m),
{
    let ghost v0 = views(errors@);
    let id = m.id.as_str();
    let ghost lab = "migration "@ + id@;
    match m.disposition {
        MigrationDisposition::AlreadyInOrg => {
            let in_org = starts_with(m.current_slug.as_str(), "merely-made/");
            note(
                errors,
                !in_org,
                cat4("migration ", id, " says already-in-org but current slug is ", m.current_slug.as_str()),
            );
            let same = match &m.target_slug {
                Some(t) => str_eq(t.as_str(), m.current_slug.as_str()),
                None => false,
            };
            note(errors, !same, cat3("migration ", id, " already-in-org target must equal current slug"));
            proof {
                lemma_extend(
                    v0,
                    flag(!in_org, lab + " says already-in-org but current slug is "@ + m.current_slug@),
                    flag(!same, lab + " already-in-org target must equal current slug"@),
                );
            }
        },
        MigrationDisposition::Candidate => {
            match &m.target_slug {
                None => {
                    note(errors, true, cat3("migration ", id, " candidate has no target slug"));
                },
                Some(target) => {
                    let in_org = starts_with(target.as_str(), "merely-made/");
                    note(errors, !in_org, cat3("migration ", id, " candidate target is outside merely-made"));
                    let ghost mut acc = flag(!in_org, lab + " candidate target is outside merely-made"@);
                    let scope = match &m.public_scope {
                        Some(p) => !p.as_str().is_empty(),
                        None => false,
                    };
                    note(errors, !scope, cat3("migration ", id, " candidate has no public_scope"));
                    proof {
                        let f = flag(!scope, lab + " candidate has no public_scope"@);
                        lemma_extend(v0, acc, f);
                        acc = acc + f;
                    }
                    let gate = m.publication_gate_status.is_some();
                    note(errors, !gate, cat3("migration ", id, " candidate has no publication_gate_status"));
                    proof {
                        let f = flag(!gate, lab + " candidate has no publication_gate_status"@);
                        lemma_extend(v0, acc, f);
                        acc = acc + f;
                    }
                    let history = match &m.history_remediation {
                        Some(h) => !h.as_str().is_empty(),
                        None => false,
                    };
                    note(errors, !history, cat3("migration ", id, " candidate has no history_remediation"));
                    proof {
                        let f = flag(!history, lab + " candidate has no history_remediation"@);
                        lemma_extend(v0, acc, f);
                        acc = acc + f;
                    }
                },
            }
        },
        MigrationDisposition::Hold => {
            note(
                errors,
                m.target_slug.is_some(),
                cat3("migration ", id, " is on hold but already claims a target slug"),
            );
        },
        MigrationDisposition::KeepPersonal => {
            note(
                errors,
                m.classification != MigrationClass::MaintainedFork,
                cat3("migration ", id, " keeps personal ownership but is not a maintained fork"),
            );
            let ghost mut acc = flag(
                m.classification != MigrationClass::MaintainedFork,
                lab + " keeps personal ownership but is not a maintained fork"@,
            );
            note(
                errors,
                m.target_slug.is_some(),
                cat3("migration ", id, " keeps personal ownership but claims a target slug"),
            );
            proof {
                let f = flag(m.target_slug is Some, lab + " keeps personal ownership but claims a target slug"@);
                lemma_extend(v0, acc, f);
                acc = acc + f;
            }
            let personal = starts_with(m.current_slug.as_str(), "mark-ik/");
            note(errors, !personal, cat3("migration ", id, " keeps personal ownership outside mark-ik"));
            proof {
                let f = flag(!personal, lab + " keeps personal ownership outside mark-ik"@);
                lemma_extend(v0, acc, f);
                acc = acc + f;
            }
        },
    }
}

/// The first `n` entries claim no target slug twice.
pub open spec fn targets_distinct_upto(ms: Seq<MigrationRecord>, n: int) -> bool {
    forall|a: int, b: int|
        0 <= a < b < n && (#[trigger] ms[a]).target_slug is Some && (#[trigger] ms[b]).target_slug is Some
            ==> ms[a].target_slug->0@ != ms[b].target_slug->0@
}

/// Alias `i` of entry `a` has been examined once entries below `n`, and the
/// first `k` aliases of entry `n`, are done.
pub open spec fn alias_done(a: int, i: int, n: int, k: int) -> bool {
    a < n || (a == n && i < k)
}

/// `y` is alias `i` of entry `a`.
pub open spec fn alias_is(ms: Seq<MigrationRecord>, a: int, i: int, y: Seq<char>) -> bool {
    0 <= a < ms.len() && 0 <= i < ms[a].source_aliases.len() && ms[a].source_aliases@[i]@ == y
}

/// No alias examined so far repeats another.
pub open spec fn aliases_distinct_upto(ms: Seq<MigrationRecord>, n: int, k: int) -> bool {
    forall|a: int, i: int, b: int, j: int|
        alias_done(a, i, n, k) && alias_done(b, j, n, k) && (a, i) != (b, j) && #[trigger] alias_is(ms, a, i, ms[a].source_aliases@[i]@)
            && #[trigger] alias_is(ms, b, j, ms[b].source_aliases@[j]@) ==> ms[a].source_aliases@[i]@ != ms[b].source_aliases@[j]@
}

/// Some entry before `i` claims the target slug `t`.
pub open spec fn target_claimed_before(ms: Seq<MigrationRecord>, i: int, t: Seq<char>) -> bool {
    exists|j: int| 0 <= j < i && (#[trigger] ms[j]).target_slug is Some && ms[j].target_slug->0@ == t
}

/// The alias `y` was examined before alias `k` of entry `i`.
pub open spec fn alias_seen(ms: Seq<MigrationRecord>, i: int, k: int, y: Seq<char>) -> bool {
    exists|a: int, ii: int| alias_done(a, ii, i, k) && #[trigger] alias_is(ms, a, ii, y)
}

/// What the checks of alias `k` of entry `i` record, in order.
pub open spec fn alias_findings(ms: Seq<MigrationRecord>, i: int, k: int) -> Seq<Seq<char>> {
    let m = ms[i];
    let a = m.source_aliases@[k]@;
    slug_finding("migration "@ + m.id@ + " source alias"@, a) + flag(
        a == m.current_slug@,
        "migration "@ + m.id@ + " repeats its current slug as an alias"@,
    ) + flag(alias_seen(ms, i, k, a), "duplicate migration source alias "@ + a)
}

/// What the checks of the first `n` aliases of entry `i` record, in order.
pub open spec fn aliases_findings(ms: Seq<MigrationRecord>, i: int, n: int) -> Seq<Seq<char>>
    decreases n,
{
    if n <= 0 {
        Seq::empty()
    } else {
        aliases_findings(ms, i, n - 1) + alias_findings(ms, i, n - 1)
    }
}

/// What the checks of entry `i`'s id, current slug and target slug against
/// the earlier entries record, in order.
pub open spec fn migration_claim_findings(ms: Seq<MigrationRecord>, i: int) -> Seq<Seq<char>> {
    let m = ms[i];
    flag(migration_ids(ms).take(i).contains(m.id@), "duplicate migration id "@ + m.id@) + flag(
        current_slugs(ms).take(i).contains(m.current_slug@),
        "duplicate migration current_slug "@ + m.current_slug@,
    ) + target_claim_finding(ms, i)
}

/// What the check of entry `i`'s target slug against the earlier entries
/// records.
pub open spec fn target_claim_finding(ms: Seq<MigrationRecord>, i: int) -> Seq<Seq<char>> {
    match ms[i].target_slug {
        Some(t) => flag(target_claimed_before(ms, i, t@), "duplicate migration target_slug "@ + t@),
        None => Seq::empty(),
    }
}

/// What the checks of ledger entry `i` record, in order.
pub open spec fn migration_findings(ms: Seq<MigrationRecord>, i: int) -> Seq<Seq<char>> {
    migration_claim_findings(ms, i) + aliases_findings(ms, i, ms[i].source_aliases@.len() as int) + migration_field_findings(
        ms[i],
    )
}

/// What the checks of the first `n` ledger entries record, in order.
pub open spec fn migrations_findings(ms: Seq<MigrationRecord>, n: int) -> Seq<Seq<char>>
    decreases n,
{
    if n <= 0 {
        Seq::empty()
    } else {
        migrations_findings(ms, n - 1) + migration_findings(ms, n - 1)
    }
}

/// Checks the migration ledger entries.
#[verifier::spinoff_prover]
#[verifier::rlimit(50)]
fn check_migrations(ms: &Vec<MigrationRecord>, errors: &mut Vec<String>)
    ensures
        views(final(errors)@) == views(old(errors)@) + migrations_findings(ms@, ms@.len() as int),
        old(errors)@.len() <= final(errors)@.len(),
        (final(errors)@.len() == old(errors)@.len()) <==> ((forall|i: int|
            0 <= i < ms.len() ==> migration_ok(#[trigger] ms@[i])) && distinct_upto(migration_ids(ms@), ms.len() as int)
            && distinct_upto(current_slugs(ms@), ms.len() as int) && targets_distinct(ms@) && aliases_distinct(ms@)),
{
    let ghost e0 = errors@.len();
    let ghost v0 = views(errors@);
    let ghost mid = migration_ids(ms@);
    let ghost cur = current_slugs(ms@);
    let mut ids: Vec<String> = Vec::new();
    let mut currents: Vec<String> = Vec::new();
    let mut targets: Vec<String> = Vec::new();
    let mut aliases: Vec<String> = Vec::new();
    let mut i: usize = 0;
    while i < ms.len()
        invariant
            i <= ms.len(),
            views(errors@) == v0 + migrations_findings(ms@, i as int),
            mid == migration_ids(ms@),
            cur == current_slugs(ms@),
            e0 <= errors@.len(),
            (errors@.len() == e0) <==> ((forall|j: int| 0 <= j < i ==> migration_ok(#[trigger] ms@[j]))
                && distinct_upto(mid, i as int) && distinct_upto(cur, i as int) && targets_distinct_upto(ms@, i as int)
                && aliases_distinct_upto(ms@, i as int, 0)),
            forall|y: Seq<char>| #[trigger] views(ids@).contains(y) <==> exists|j: int| 0 <= j < i && mid[j] == y,
            forall|y: Seq<char>| #[trigger] views(currents@).contains(y) <==> exists|j: int| 0 <= j < i && cur[j] == y,
            forall|y: Seq<char>|
                #[trigger] views(targets@).contains(y) <==> exists|j: int|
                    0 <= j < i && (#[trigger] ms@[j]).target_slug is Some && ms@[j].target_slug->0@ == y,
            forall|y: Seq<char>|
                #[trigger] views(aliases@).contains(y) <==> exists|a: int, ii: int|
                    alias_done(a, ii, i as int, 0) && #[trigger] alias_is(ms@, a, ii, y),
        decreases ms.len() - i,
    {
        let m = &ms[i];
        let id = m.id.as_str();
        assert(mid[i as int] == m.id@ && cur[i as int] == m.current_slug@);
        let ghost start = errors@.len();
        let ghost vi = views(errors@);
        let dup_id = remember(&mut ids, id);
        note(errors, dup_id, cat2("duplicate migration id ", id));
        let dup_current = remember(&mut currents, m.current_slug.as_str());
        note(errors, dup_current, cat2("duplicate migration current_slug ", m.current_slug.as_str()));
        proof {
            lemma_extend(
                vi,
                flag(dup_id, "duplicate migration id "@ + m.id@),
                flag(dup_current, "duplicate migration current_slug "@ + m.current_slug@),
            );
        }
        let ghost claims2 = flag(dup_id, "duplicate migration id "@ + m.id@) + flag(
            dup_current,
            "duplicate migration current_slug "@ + m.current_slug@,
        );
        let ghost t_before = views(targets@);
        let ghost before_target = views(errors@);
        let mut dup_target = false;
        match &m.target_slug {
            Some(t) => {
                dup_target = remember(&mut targets, t.as_str());
                note(errors, dup_target, cat2("duplicate migration target_slug ", t.as_str()));
            },
            None => {},
        }
        proof {
            assert(dup_id == mid.take(i as int).contains(mid[i as int])) by {
                if dup_id {
                    let j = choose|j: int| 0 <= j < i && mid[j] == mid[i as int];
                    assert(mid.take(i as int)[j] == mid[i as int]);
                }
            }
            assert(dup_current == cur.take(i as int).contains(cur[i as int])) by {
                if dup_current {
                    let j = choose|j: int| 0 <= j < i && cur[j] == cur[i as int];
                    assert(cur.take(i as int)[j] == cur[i as int]);
                }
            }
            let tf = target_claim_finding(ms@, i as int);
            if m.target_slug is None {
                assert(views(errors@) =~= before_target + tf);
            } else {
                assert(dup_target == target_claimed_before(ms@, i as int, m.target_slug->0@));
            }
            lemma_extend(vi, claims2, tf);
            assert(claims2 + tf == migration_claim_findings(ms@, i as int));
        }
        proof {
            assert(dup_id == exists|j: int| 0 <= j < i && mid[j] == mid[i as int]);
            assert(dup_current == exists|j: int| 0 <= j < i && cur[j] == cur[i as int]);
            assert(distinct_upto(mid, i + 1) == (distinct_upto(mid, i as int) && !dup_id));
            assert(distinct_upto(cur, i + 1) == (distinct_upto(cur, i as int) && !dup_current));
            assert(targets_distinct_upto(ms@, i + 1) == (targets_distinct_upto(ms@, i as int) && !dup_target)) by {
                if dup_target {
                    let t = m.target_slug->0@;
                    let j = choose|j: int| 0 <= j < i && (#[trigger] ms@[j]).target_slug is Some && ms@[j].target_slug->0@ == t;
                    assert(!targets_distinct_upto(ms@, i + 1));
                }
            }
            assert forall|y: Seq<char>| #[trigger] views(ids@).contains(y) <==> exists|j: int| 0 <= j < i + 1 && mid[j] == y by {
                if y == mid[i as int] {
                    assert(exists|j: int| 0 <= j < i + 1 && mid[j] == y);
                }
            }
            assert forall|y: Seq<char>| #[trigger] views(currents@).contains(y) <==> exists|j: int| 0 <= j < i + 1 && cur[j] == y by {
                if y == cur[i as int] {
                    assert(exists|j: int| 0 <= j < i + 1 && cur[j] == y);
                }
            }
            assert forall|y: Seq<char>|
                #[trigger] views(targets@).contains(y) <==> exists|j: int|
                    0 <= j < i + 1 && (#[trigger] ms@[j]).target_slug is Some && ms@[j].target_slug->0@ == y by {
                if m.target_slug is Some && y == m.target_slug->0@ {
                    assert(ms@[i as int].target_slug is Some && ms@[i as int].target_slug->0@ == y);
                }
                if exists|j: int| 0 <= j < i + 1 && (#[trigger] ms@[j]).target_slug is Some && ms@[j].target_slug->0@ == y {
                    let j = choose|j: int| 0 <= j < i + 1 && (#[trigger] ms@[j]).target_slug is Some && ms@[j].target_slug->0@ == y;
                    if j < i {
                        assert(t_before.contains(y));
                    }
                }
            }
        }
        let ghost prev_ok = (forall|j: int| 0 <= j < i ==> migration_ok(#[trigger] ms@[j])) && distinct_upto(mid, i + 1)
            && distinct_upto(cur, i + 1) && targets_distinct_upto(ms@, i + 1);
        let ghost va = vi + migration_claim_findings(ms@, i as int);
        let mut k: usize = 0;
        while k < m.source_aliases.len()
            invariant
                i < ms.len(),
                m == ms@[i as int],
                views(errors@) == va + aliases_findings(ms@, i as int, k as int),
                k <= m.source_aliases.len(),
                e0 <= errors@.len(),
                (errors@.len() == e0) <==> (prev_ok && (forall|q: int|
                    0 <= q < k ==> alias_ok(*m, #[trigger] m.source_aliases@[q])) && aliases_distinct_upto(ms@, i as int, k as int)),
                forall|y: Seq<char>|
                    #[trigger] views(aliases@).contains(y) <==> exists|a: int, ii: int|
                        alias_done(a, ii, i as int, k as int) && #[trigger] alias_is(ms@, a, ii, y),
            decreases m.source_aliases.len() - k,
        {
            let alias = m.source_aliases[k].as_str();
            let ghost vk = views(errors@);
            check_slug(cat3("migration ", m.id.as_str(), " source alias").as_str(), alias, errors);
            let repeats_current = str_eq(alias, m.current_slug.as_str());
            note(errors, repeats_current, cat3("migration ", m.id.as_str(), " repeats its current slug as an alias"));
            let dup = remember(&mut aliases, alias);
            note(errors, dup, cat2("duplicate migration source alias ", alias));
            proof {
                let sf = slug_finding("migration "@ + m.id@ + " source alias"@, alias@);
                let rf = flag(repeats_current, "migration "@ + m.id@ + " repeats its current slug as an alias"@);
                let df = flag(dup, "duplicate migration source alias "@ + alias@);
                lemma_extend(vk, sf, rf);
                lemma_extend(vk, sf + rf, df);
                assert(dup == alias_seen(ms@, i as int, k as int, alias@));
                assert(sf + rf + df == alias_findings(ms@, i as int, k as int));
                lemma_extend(va, aliases_findings(ms@, i as int, k as int), alias_findings(ms@, i as int, k as int));
                assert(alias_is(ms@, i as int, k as int, alias@));
                assert(dup == exists|a: int, ii: int| alias_done(a, ii, i as int, k as int) && #[trigger] alias_is(ms@, a, ii, alias@));
                assert(aliases_distinct_upto(ms@, i as int, k + 1) == (aliases_distinct_upto(ms@, i as int, k as int) && !dup)) by {
                    if dup {
                        let (a, ii) = choose|a: int, ii: int| alias_done(a, ii, i as int, k as int) && #[trigger] alias_is(ms@, a, ii, alias@);
                        assert(alias_is(ms@, a, ii, ms@[a].source_aliases@[ii]@));
                        assert(!aliases_distinct_upto(ms@, i as int, k + 1));
                    } else if aliases_distinct_upto(ms@, i as int, k as int) {
                        assert forall|a: int, ii: int, b: int, j: int|
                            alias_done(a, ii, i as int, k + 1) && alias_done(b, j, i as int, k + 1) && (a, ii) != (b, j)
                                && #[trigger] alias_is(ms@, a, ii, ms@[a].source_aliases@[ii]@) && #[trigger] alias_is(
                                ms@,
                                b,
                                j,
                                ms@[b].source_aliases@[j]@,
                            ) implies ms@[a].source_aliases@[ii]@ != ms@[b].source_aliases@[j]@ by {
                            if a == i as int && ii == k as int {
                                assert(alias_is(ms@, b, j, ms@[b].source_aliases@[j]@));
                                assert(alias_done(b, j, i as int, k as int));
                            } else if b == i as int && j == k as int {
                                assert(alias_done(a, ii, i as int, k as int));
                            } else {
                                assert(alias_done(a, ii, i as int, k as int) && alias_done(b, j, i as int, k as int));
                            }
                        }
                    }
                }
                assert forall|y: Seq<char>|
                    #[trigger] views(aliases@).contains(y) <==> exists|a: int, ii: int|
                        alias_done(a, ii, i as int, k + 1) && #[trigger] alias_is(ms@, a, ii, y) by {
                    if y == alias@ {
                        assert(alias_done(i as int, k as int, i as int, k + 1));
                    }
                    if exists|a: int, ii: int| alias_done(a, ii, i as int, k + 1) && #[trigger] alias_is(ms@, a, ii, y) {
                        let (a, ii) = choose|a: int, ii: int| alias_done(a, ii, i as int, k + 1) && #[trigger] alias_is(ms@, a, ii, y);
                        if !(a == i as int && ii == k as int) {
                            assert(alias_done(a, ii, i as int, k as int));
                        }
                    }
                }
            }
            k = k + 1;
        }
        let ghost vf = views(errors@);
        check_migration_fields(m, errors);
        proof {
            let af = aliases_findings(ms@, i as int, m.source_aliases@.len() as int);
            lemma_extend(vi, migration_claim_findings(ms@, i as int), af);
            lemma_extend(vi, migration_claim_findings(ms@, i as int) + af, migration_field_findings(*m));
            lemma_extend(v0, migrations_findings(ms@, i as int), migration_findings(ms@, i as int));
            assert(aliases_ok(*m) == forall|q: int| 0 <= q < m.source_aliases.len() ==> alias_ok(*m, #[trigger] m.source_aliases@[q]));
            assert(aliases_distinct_upto(ms@, i as int, m.source_aliases.len() as int) == aliases_distinct_upto(ms@, i + 1, 0)) by {
                assert forall|a: int, ii: int| #![auto] alias_done(a, ii, i as int, m.source_aliases.len() as int) && 0 <= a < ms.len() && 0 <= ii < ms@[a].source_aliases.len()
                    <==> alias_done(a, ii, i + 1, 0) && 0 <= a < ms.len() && 0 <= ii < ms@[a].source_aliases.len() by {}
            }
            assert forall|y: Seq<char>|
                #[trigger] views(aliases@).contains(y) <==> exists|a: int, ii: int|
                    alias_done(a, ii, i + 1, 0) && #[trigger] alias_is(ms@, a, ii, y) by {
                if views(aliases@).contains(y) {
                    let (a, ii) = choose|a: int, ii: int| alias_done(a, ii, i as int, m.source_aliases.len() as int) && #[trigger] alias_is(ms@, a, ii, y);
                    assert(alias_done(a, ii, i + 1, 0));
                }
                if exists|a: int, ii: int| alias_done(a, ii, i + 1, 0) && #[trigger] alias_is(ms@, a, ii, y) {
                    let (a, ii) = choose|a: int, ii: int| alias_done(a, ii, i + 1, 0) && #[trigger] alias_is(ms@, a, ii, y);
                    assert(alias_done(a, ii, i as int, m.source_aliases.len() as int));
                }
            }
            assert(migration_ok(ms@[i as int]) == (migration_fields_ok(*m) && aliases_ok(*m)));
        }
        i = i + 1;
    }
}

/// What the checks of the editorial authority record, in the order they
/// run.
pub open spec fn authority_findings(a: Authority) -> Seq<Seq<char>> {
    let rs = a.repositories.repository@;
    let rels = a.relations.relation@;
    let ms = a.migration.migration@;
    let us = a.migration.unresolved_product@;
    flag(rs.len() == 0, "content/repositories.toml has no repository records"@) + repositories_findings(rs, rs.len() as int)
        + relations_findings(repository_ids(rs), rels, rels.len() as int) + migrations_findings(ms, ms.len() as int)
        + ledger_findings(rs, ms, rs.len() as int) + receipts_findings(a.migration) + unresolveds_findings(
        us,
        us.len() as int,
    )
}

impl Authority {
    /// Checks every editorial rule at once. The result is `Ok` exactly when
    /// the authority is valid; otherwise every violation is reported, in
    /// sorted order.
    #[verifier::spinoff_prover]
    #[verifier::rlimit(50)]
    pub fn validate(&self) -> (r: Result<(), Vec<String>>)
        ensures
            r is Ok <==> authority_valid(*self),
            r is Ok <==> authority_findings(*self).len() == 0,
            r matches Err(errors) ==> errors@.len() > 0 && sorted_text(errors@) && views(errors@).to_multiset()
                == authority_findings(*self).to_multiset(),
    {
        let mut errors: Vec<String> = Vec::new();
        let ghost rs = self.repositories.repository@;
        let ghost rels = self.relations.relation@;
        let ghost ms = self.migration.migration@;
        let ghost us = self.migration.unresolved_product@;
        note(
            &mut errors,
            self.repositories.repository.len() == 0,
            String::from_str("content/repositories.toml has no repository records"),
        );
        let ghost mut acc = flag(rs.len() == 0, "content/repositories.toml has no repository records"@);
        proof {
            assert(views(errors@) =~= acc);
        }
        let ghost e1 = errors@.len();
        let ids = check_repositories(&self.repositories.repository, &mut errors);
        proof {
            let f = repositories_findings(rs, rs.len() as int);
            lemma_extend(Seq::<Seq<char>>::empty(), acc, f);
            assert(views(errors@) =~= acc + f);
            acc = acc + f;
        }
        let ghost e2 = errors@.len();
        let ghost before_relations = views(errors@);
        check_relations(&ids, &self.relations.relation, &mut errors);
        proof {
            lemma_relations_findings_same_ids(views(ids@), repository_ids(rs), rels, rels.len() as int);
            acc = acc + relations_findings(repository_ids(rs), rels, rels.len() as int);
        }
        let ghost e3 = errors@.len();
        check_migrations(&self.migration.migration, &mut errors);
        proof {
            acc = acc + migrations_findings(ms, ms.len() as int);
        }
        let ghost e4 = errors@.len();
        check_ledger_links(&self.repositories.repository, &self.migration.migration, &mut errors);
        proof {
            acc = acc + ledger_findings(rs, ms, rs.len() as int);
        }
        let ghost e5 = errors@.len();
        check_receipts(&self.migration, &mut errors);
        proof {
            acc = acc + receipts_findings(self.migration);
        }
        let ghost e6 = errors@.len();
        check_unresolved(&self.migration.unresolved_product, &mut errors);
        proof {
            acc = acc + unresolveds_findings(us, us.len() as int);
            assert(views(errors@) == acc);
            assert(acc == authority_findings(*self));
            crate::text::lemma_views_len(errors@);
            let rs = self.repositories.repository@;
            let rels = self.relations.relation@;
            assert forall|i: int| 0 <= i < rels.len() implies relation_ok(views(ids@), #[trigger] rels[i]) == relation_ok(
                repository_ids(rs),
                rels[i],
            ) by {
                assert(views(ids@).contains(rels[i].source@) == repository_ids(rs).contains(rels[i].source@));
                assert(views(ids@).contains(rels[i].target@) == repository_ids(rs).contains(rels[i].target@));
            }
        }
        if errors.len() == 0 {
            Ok(())
        } else {
            let ghost unsorted = errors@;
            sort_strings(&mut errors);
            proof {
                vstd::seq_lib::to_multiset_len(unsorted);
                vstd::seq_lib::to_multiset_len(errors@);
            }
            Err(errors)
        }
    }
}

/// The index of the last public editorial repository with the given slug.
pub open spec fn last_public_with_slug(rs: Seq<RepositoryRecord>, slug: Seq<char>, k: int) -> bool {
    &&& 0 <= k < rs.len()
    &&& rs[k].public
    &&& rs[k].github_slug@ == slug
    &&& forall|j: int| k < j < rs.len() ==> !(#[trigger] rs[j].public && rs[j].github_slug@ == slug)
}

/// Where an editorial repository claims this slug, it uses the same id.
pub open spec fn editorial_agrees(rs: Seq<RepositoryRecord>, m: PublicRepositoryMetadata) -> bool {
    forall|k: int| #[trigger] last_public_with_slug(rs, m.github_slug@, k) ==> rs[k].id@ == m.id@
}

pub open spec fn topic_views(m: PublicRepositoryMetadata) -> Seq<Seq<char>> {
    m.topics@.map_values(|t: String| t@)
}

/// One public metadata record is well formed.
pub open spec fn metadata_record_ok(rs: Seq<RepositoryRecord>, m: PublicRepositoryMetadata) -> bool {
    &&& is_kebab(m.id@)
    &&& has_prefix(m.github_slug@, "merely-made/"@)
    &&& is_repo_slug(m.github_slug@)
    &&& !is_blank(m.name@)
    &&& editorial_agrees(rs, m)
    &&& (m.homepage matches Some(h) ==> has_prefix(h@, "https://"@))
    &&& is_timestamp(m.updated_at@)
    &&& is_timestamp(m.pushed_at@)
    &&& forall|t: int| 0 <= t < m.topics.len() ==> is_kebab((#[trigger] m.topics@[t])@)
    &&& distinct_upto(topic_views(m), m.topics.len() as int)
    &&& m.topics.len() <= 20
}

pub open spec fn metadata_ids(ms: Seq<PublicRepositoryMetadata>) -> Seq<Seq<char>> {
    ms.map_values(|m: PublicRepositoryMetadata| m.id@)
}

pub open spec fn metadata_slugs(ms: Seq<PublicRepositoryMetadata>) -> Seq<Seq<char>> {
    ms.map_values(|m: PublicRepositoryMetadata| m.github_slug@)
}

pub open spec fn event_ids(es: Seq<PublicOrganizationEvent>) -> Seq<Seq<char>> {
    es.map_values(|e: PublicOrganizationEvent| e.id@)
}

/// One organization event is well formed and names a known repository.
pub open spec fn event_ok(slugs: Seq<Seq<char>>, e: PublicOrganizationEvent) -> bool {
    &&& !is_blank(e.id@)
    &&& !is_blank(e.kind@)
    &&& slugs.contains(e.repository@)
    &&& is_timestamp(e.created_at@)
}

/// Events run newest first.
pub open spec fn newest_first(es: Seq<PublicOrganizationEvent>) -> bool {
    forall|i: int| 0 < i < es.len() ==> !text_lt((#[trigger] es[i - 1]).created_at@, es[i].created_at@)
}

/// The public metadata cache satisfies every rule, against the editorial
/// repositories.
pub open spec fn metadata_valid(c: PublicMetadataCache, a: Authority) -> bool {
    let rs = a.repositories.repository@;
    let ms = c.repository@;
    let es = c.event@;
    &&& c.schema@ == "mer3ly.github-organization/v2"@
    &&& c.organization@ == "merely-made"@
    &&& is_timestamp(c.generated_at_utc@)
    &&& ms.len() > 0
    &&& forall|i: int| 0 <= i < ms.len() ==> metadata_record_ok(rs, #[trigger] ms[i])
    &&& distinct_upto(metadata_ids(ms), ms.len() as int)
    &&& distinct_upto(metadata_slugs(ms), ms.len() as int)
    &&& es.len() <= 40
    &&& forall|i: int| 0 <= i < es.len() ==> event_ok(metadata_slugs(ms), #[trigger] es[i])
    &&& distinct_upto(event_ids(es), es.len() as int)
    &&& newest_first(es)
}

/// The last public editorial repository with the given slug, if any.
fn last_public_slug(rs: &Vec<RepositoryRecord>, slug: &str) -> (r: Option<usize>)
    ensures
        match r {
            Some(k) => last_public_with_slug(rs@, slug@, k as int),
            None => forall|k: int| 0 <= k < rs.len() ==> !(#[trigger] rs@[k].public && rs@[k].github_slug@ == slug@),
        },
{
    let mut found: Option<usize> = None;
    let mut i: usize = 0;
    while i < rs.len()
        invariant
            i <= rs.len(),
            match found {
                Some(k) => k < i && rs@[k as int].public && rs@[k as int].github_slug@ == slug@ && forall|j: int|
                    k < j < i ==> !(#[trigger] rs@[j].public && rs@[j].github_slug@ == slug@),
                None => forall|k: int| 0 <= k < i ==> !(#[trigger] rs@[k].public && rs@[k].github_slug@ == slug@),
            },
        decreases rs.len() - i,
    {
        if rs[i].public && str_eq(rs[i].github_slug.as_str(), slug) {
            found = Some(i);
        }
        i = i + 1;
    }
    found
}

/// What the check of a metadata record against the editorial id for its
/// slug records.
pub open spec fn editorial_finding(rs: Seq<RepositoryRecord>, m: PublicRepositoryMetadata) -> Seq<Seq<char>> {
    if exists|k: int| #[trigger] last_public_with_slug(rs, m.github_slug@, k) {
        let k = choose|k: int| #[trigger] last_public_with_slug(rs, m.github_slug@, k);
        flag(m.id@ != rs[k].id@, "public metadata "@ + m.github_slug@ + " id disagrees with editorial id "@ + rs[k].id@)
    } else {
        Seq::empty()
    }
}

/// What the checks of a metadata record's id, slug, name and editorial
/// agreement record, in order.
pub open spec fn metadata_identity_findings(rs: Seq<RepositoryRecord>, m: PublicRepositoryMetadata) -> Seq<Seq<char>> {
    let id = m.id@;
    flag(!is_kebab(id), "public metadata repository id is not lowercase kebab-case: "@ + id) + flag(
        !has_prefix(m.github_slug@, "merely-made/"@),
        "public metadata "@ + m.github_slug@ + " is outside merely-made"@,
    ) + slug_finding("public metadata "@ + id + " github_slug"@, m.github_slug@) + nonempty_finding(
        "public metadata "@ + id + " name"@,
        m.name@,
    ) + editorial_finding(rs, m)
}

/// What the checks of the first `n` topics of a metadata record record.
pub open spec fn topic_findings(m: PublicRepositoryMetadata, n: int) -> Seq<Seq<char>>
    decreases n,
{
    if n <= 0 {
        Seq::empty()
    } else {
        let t = m.topics@[n - 1]@;
        topic_findings(m, n - 1) + flag(!is_kebab(t), "public metadata "@ + m.id@ + " has invalid topic "@ + t) + flag(
            topic_views(m).take(n - 1).contains(t),
            "public metadata "@ + m.id@ + " repeats topic "@ + t,
        )
    }
}

/// What the check of a metadata record's homepage, where it has one,
/// records.
pub open spec fn homepage_finding(m: PublicRepositoryMetadata) -> Seq<Seq<char>> {
    match m.homepage {
        Some(h) => https_finding("public metadata "@ + m.id@ + " homepage"@, h@),
        None => Seq::empty(),
    }
}

/// What the checks of a metadata record's homepage, times and topics
/// record, in order.
pub open spec fn metadata_detail_findings(m: PublicRepositoryMetadata) -> Seq<Seq<char>> {
    let id = m.id@;
    homepage_finding(m) + timestamp_finding("public metadata "@ + id + " updated_at"@, m.updated_at@) + timestamp_finding(
        "public metadata "@ + id + " pushed_at"@,
        m.pushed_at@,
    ) + topic_findings(m, m.topics@.len() as int) + flag(
        m.topics@.len() > 20,
        "public metadata "@ + id + " has more than 20 topics"@,
    )
}

/// What the checks of one metadata record record, in order.
pub open spec fn metadata_record_findings(rs: Seq<RepositoryRecord>, m: PublicRepositoryMetadata) -> Seq<Seq<char>> {
    metadata_identity_findings(rs, m) + metadata_detail_findings(m)
}

fn check_metadata_identity(rs: &Vec<RepositoryRecord>, m: &PublicRepositoryMetadata, errors: &mut Vec<String>)
    ensures
        views(final(errors)@) == views(old(errors)@) + metadata_identity_findings(rs@, *m),
        old(errors)@.len() <= final(errors)@.len(),
        (final(errors)@.len() == old(errors)@.len()) <==> ({
            &&& is_kebab(m.id@)
            &&& has_prefix(m.github_slug@, "merely-made/"@)
            &&& is_repo_slug(m.github_slug@)
            &&& !is_blank(m.name@)
            &&& editorial_agrees(rs@, *m)
        }),
{
    let ghost v0 = views(errors@);
    let id = m.id.as_str();
    note(errors, !kebab_ok(id), cat2("public metadata repository id is not lowercase kebab-case: ", id));
    let ghost mut acc = flag(!is_kebab(m.id@), "public metadata repository id is not lowercase kebab-case: "@ + m.id@);
    let org = starts_with(m.github_slug.as_str(), "merely-made/");
    note(errors, !org, cat3("public metadata ", m.github_slug.as_str(), " is outside merely-made"));
    proof {
        let f = flag(!has_prefix(m.github_slug@, "merely-made/"@), "public metadata "@ + m.github_slug@ + " is outside merely-made"@);
        lemma_extend(v0, acc, f);
        acc = acc + f;
    }
    check_slug(cat3("public metadata ", id, " github_slug").as_str(), m.github_slug.as_str(), errors);
    proof {
        let f = slug_finding("public metadata "@ + m.id@ + " github_slug"@, m.github_slug@);
        lemma_extend(v0, acc, f);
        acc = acc + f;
    }
    check_nonempty(cat3("public metadata ", id, " name").as_str(), m.name.as_str(), errors);
    proof {
        let f = nonempty_finding("public metadata "@ + m.id@ + " name"@, m.name@);
        lemma_extend(v0, acc, f);
        acc = acc + f;
    }
    let ghost before_editorial = views(errors@);
    match last_public_slug(rs, m.github_slug.as_str()) {
        Some(k) => {
            let agrees = str_eq(id, rs[k].id.as_str());
            note(
                errors,
                !agrees,
                cat4("public metadata ", m.github_slug.as_str(), " id disagrees with editorial id ", rs[k].id.as_str()),
            );
            proof {
                assert forall|k2: int| #[trigger] last_public_with_slug(rs@, m.github_slug@, k2) implies k2 == k as int by {
                    if k2 < k {
                        assert(!(rs@[k as int].public && rs@[k as int].github_slug@ == m.github_slug@));
                    } else if k2 > k {
                        assert(!(rs@[k2].public && rs@[k2].github_slug@ == m.github_slug@));
                    }
                }
            }
        },
        None => {
            proof {
                assert(!exists|k: int| #[trigger] last_public_with_slug(rs@, m.github_slug@, k));
                assert(views(errors@) =~= before_editorial + editorial_finding(rs@, *m));
            }
        },
    }
    proof {
        lemma_extend(v0, acc, editorial_finding(rs@, *m));
    }
}

fn check_metadata_details(m: &PublicRepositoryMetadata, errors: &mut Vec<String>)
    ensures
        views(final(errors)@) == views(old(errors)@) + metadata_detail_findings(*m),
        old(errors)@.len() <= final(errors)@.len(),
        (final(errors)@.len() == old(errors)@.len()) <==> ({
            &&& (m.homepage matches Some(h) ==> has_prefix(h@, "https://"@))
            &&& is_timestamp(m.updated_at@)
            &&& is_timestamp(m.pushed_at@)
            &&& forall|i: int| 0 <= i < m.topics.len() ==> is_kebab(#[trigger] m.topics@[i]@)
            &&& distinct_upto(topic_views(*m), m.topics.len() as int)
            &&& m.topics.len() <= 20
        }),
{
    let ghost v0 = views(errors@);
    let ghost o0 = errors@.len();
    let id = m.id.as_str();
    match &m.homepage {
        Some(h) => check_https_or_github(cat3("public metadata ", id, " homepage").as_str(), h.as_str(), errors),
        None => {},
    }
    let ghost hf = homepage_finding(*m);
    proof {
        if m.homepage is None {
            assert(views(errors@) =~= v0 + hf);
        }
    }
    let ghost mut acc = hf;
    check_timestamp(cat3("public metadata ", id, " updated_at").as_str(), m.updated_at.as_str(), errors);
    proof {
        let f = timestamp_finding("public metadata "@ + m.id@ + " updated_at"@, m.updated_at@);
        lemma_extend(v0, acc, f);
        acc = acc + f;
    }
    check_timestamp(cat3("public metadata ", id, " pushed_at").as_str(), m.pushed_at.as_str(), errors);
    proof {
        let f = timestamp_finding("public metadata "@ + m.id@ + " pushed_at"@, m.pushed_at@);
        lemma_extend(v0, acc, f);
        acc = acc + f;
    }
    let ghost e0 = errors@.len();
    let ghost vt = views(errors@);
    let ghost tv = topic_views(*m);
    let ghost fixed_ok = (errors@.len() == o0);
    let mut seen: Vec<String> = Vec::new();
    let mut t: usize = 0;
    while t < m.topics.len()
        invariant
            t <= m.topics.len(),
            tv == topic_views(*m),
            e0 <= errors@.len(),
            o0 <= e0,
            fixed_ok == (e0 == o0),
            views(errors@) == vt + topic_findings(*m, t as int),
            id@ == m.id@,
            (errors@.len() == e0) <==> ((forall|q: int| 0 <= q < t ==> is_kebab((#[trigger] m.topics@[q])@))
                && distinct_upto(tv, t as int)),
            forall|y: Seq<char>| #[trigger] views(seen@).contains(y) <==> exists|j: int| 0 <= j < t && tv[j] == y,
        decreases m.topics.len() - t,
    {
        let topic = m.topics[t].as_str();
        let ghost prior = views(errors@);
        assert(tv[t as int] == topic@);
        note(errors, !kebab_ok(topic), cat4("public metadata ", id, " has invalid topic ", topic));
        let dup = remember(&mut seen, topic);
        note(errors, dup, cat4("public metadata ", id, " repeats topic ", topic));
        proof {
            assert(dup == exists|j: int| 0 <= j < t && tv[j] == tv[t as int]);
            assert(dup == tv.take(t as int).contains(tv[t as int])) by {
                if dup {
                    let j = choose|j: int| 0 <= j < t && tv[j] == tv[t as int];
                    assert(tv.take(t as int)[j] == tv[t as int]);
                }
            }
            let f1 = flag(!is_kebab(topic@), "public metadata "@ + m.id@ + " has invalid topic "@ + topic@);
            let f2 = flag(dup, "public metadata "@ + m.id@ + " repeats topic "@ + topic@);
            lemma_extend(prior, f1, f2);
            lemma_extend(vt, topic_findings(*m, t as int), f1 + f2);
            assert(distinct_upto(tv, t + 1) == (distinct_upto(tv, t as int) && !dup));
            assert forall|y: Seq<char>| #[trigger] views(seen@).contains(y) <==> exists|j: int| 0 <= j < t + 1 && tv[j] == y by {
                if y == tv[t as int] {
                    assert(exists|j: int| 0 <= j < t + 1 && tv[j] == y);
                }
            }
        }
        t = t + 1;
    }
    proof {
        lemma_extend(v0, acc, topic_findings(*m, m.topics@.len() as int));
        acc = acc + topic_findings(*m, m.topics@.len() as int);
    }
    note(errors, m.topics.len() > 20, cat3("public metadata ", id, " has more than 20 topics"));
    proof {
        let f = flag(m.topics@.len() > 20, "public metadata "@ + m.id@ + " has more than 20 topics"@);
        lemma_extend(v0, acc, f);
    }
}

fn check_metadata_record(rs: &Vec<RepositoryRecord>, m: &PublicRepositoryMetadata, errors: &mut Vec<String>)
    ensures
        views(final(errors)@) == views(old(errors)@) + metadata_record_findings(rs@, *m),
        old(errors)@.len() <= final(errors)@.len(),
        (final(errors)@.len() == old(errors)@.len()) <==> metadata_record_ok(rs@, *m),
{
    let ghost v0 = views(errors@);
    check_metadata_identity(rs, m, errors);
    check_metadata_details(m, errors);
    proof {
        lemma_extend(v0, metadata_identity_findings(rs@, *m), metadata_detail_findings(*m));
    }
}

/// What the checks of metadata record `i` record, in order.
pub open spec fn metadata_entry_findings(rs: Seq<RepositoryRecord>, ms: Seq<PublicRepositoryMetadata>, i: int) -> Seq<
    Seq<char>,
> {
    let m = ms[i];
    flag(metadata_ids(ms).take(i).contains(m.id@), "duplicate public metadata id "@ + m.id@) + flag(
        metadata_slugs(ms).take(i).contains(m.github_slug@),
        "duplicate public metadata github_slug "@ + m.github_slug@,
    ) + metadata_record_findings(rs, m)
}

/// What the checks of the first `n` metadata records record, in order.
pub open spec fn metadata_entries_findings(rs: Seq<RepositoryRecord>, ms: Seq<PublicRepositoryMetadata>, n: int) -> Seq<
    Seq<char>,
>
    decreases n,
{
    if n <= 0 {
        Seq::empty()
    } else {
        metadata_entries_findings(rs, ms, n - 1) + metadata_entry_findings(rs, ms, n - 1)
    }
}

/// What the checks of organization event `j` record, in order, against the
/// known repository slugs.
pub open spec fn event_findings(slugs: Seq<Seq<char>>, es: Seq<PublicOrganizationEvent>, j: int) -> Seq<Seq<char>> {
    let e = es[j];
    nonempty_finding("public organization event id"@, e.id@) + flag(
        event_ids(es).take(j).contains(e.id@),
        "duplicate public organization event "@ + e.id@,
    ) + nonempty_finding("public organization event kind"@, e.kind@) + flag(
        !slugs.contains(e.repository@),
        "public organization event "@ + e.id@ + " names unknown repository "@ + e.repository@,
    ) + timestamp_finding("public organization event "@ + e.id@ + " created_at"@, e.created_at@) + flag(
        j > 0 && text_lt(es[j - 1].created_at@, e.created_at@),
        "public organization events are not newest-first"@,
    )
}

/// What the checks of the first `n` organization events record, in order.
pub open spec fn events_findings(slugs: Seq<Seq<char>>, es: Seq<PublicOrganizationEvent>, n: int) -> Seq<Seq<char>>
    decreases n,
{
    if n <= 0 {
        Seq::empty()
    } else {
        events_findings(slugs, es, n - 1) + event_findings(slugs, es, n - 1)
    }
}

/// What the checks of the public metadata record, in the order they run.
pub open spec fn metadata_findings(c: PublicMetadataCache, a: Authority) -> Seq<Seq<char>> {
    let rs = a.repositories.repository@;
    let ms = c.repository@;
    let es = c.event@;
    flag(c.schema@ != "mer3ly.github-organization/v2"@, "unexpected public metadata schema "@ + c.schema@) + flag(
        c.organization@ != "merely-made"@,
        "unexpected public metadata organization "@ + c.organization@,
    ) + timestamp_finding("public metadata generated_at_utc"@, c.generated_at_utc@) + flag(
        ms.len() == 0,
        "public metadata has no repository records"@,
    ) + metadata_entries_findings(rs, ms, ms.len() as int) + flag(
        es.len() > 40,
        "public metadata has more than 40 organization events"@,
    ) + events_findings(metadata_slugs(ms), es, es.len() as int)
}

/// Checks the metadata records against the editorial repositories, and
/// gathers their slugs.
fn check_metadata_entries(rs: &Vec<RepositoryRecord>, ms: &Vec<PublicRepositoryMetadata>, errors: &mut Vec<String>) -> (slugs:
    Vec<String>)
    ensures
        views(final(errors)@) == views(old(errors)@) + metadata_entries_findings(rs@, ms@, ms@.len() as int),
        old(errors)@.len() <= final(errors)@.len(),
        (final(errors)@.len() == old(errors)@.len()) <==> ((forall|j: int|
            0 <= j < ms.len() ==> metadata_record_ok(rs@, #[trigger] ms@[j])) && distinct_upto(metadata_ids(ms@), ms.len() as int)
            && distinct_upto(metadata_slugs(ms@), ms.len() as int)),
        forall|y: Seq<char>| #[trigger] views(slugs@).contains(y) <==> metadata_slugs(ms@).contains(y),
{
    let ghost e0 = errors@.len();
    let ghost v0 = views(errors@);
    let ghost mid = metadata_ids(ms@);
    let ghost msl = metadata_slugs(ms@);
    let mut ids: Vec<String> = Vec::new();
    let mut slugs: Vec<String> = Vec::new();
    let mut i: usize = 0;
    while i < ms.len()
        invariant
            i <= ms.len(),
            mid == metadata_ids(ms@),
            msl == metadata_slugs(ms@),
            e0 <= errors@.len(),
            views(errors@) == v0 + metadata_entries_findings(rs@, ms@, i as int),
            (errors@.len() == e0) <==> ((forall|j: int| 0 <= j < i ==> metadata_record_ok(rs@, #[trigger] ms@[j]))
                && distinct_upto(mid, i as int) && distinct_upto(msl, i as int)),
            forall|y: Seq<char>| #[trigger] views(ids@).contains(y) <==> exists|j: int| 0 <= j < i && mid[j] == y,
            forall|y: Seq<char>| #[trigger] views(slugs@).contains(y) <==> exists|j: int| 0 <= j < i && msl[j] == y,
        decreases ms.len() - i,
    {
        let m = &ms[i];
        let ghost prior = views(errors@);
        assert(mid[i as int] == m.id@ && msl[i as int] == m.github_slug@);
        let dup_id = remember(&mut ids, m.id.as_str());
        note(errors, dup_id, cat2("duplicate public metadata id ", m.id.as_str()));
        let dup_slug = remember(&mut slugs, m.github_slug.as_str());
        note(errors, dup_slug, cat2("duplicate public metadata github_slug ", m.github_slug.as_str()));
        check_metadata_record(rs, m, errors);
        proof {
            assert(dup_id == exists|j: int| 0 <= j < i && mid[j] == mid[i as int]);
            assert(dup_slug == exists|j: int| 0 <= j < i && msl[j] == msl[i as int]);
            assert(dup_id == mid.take(i as int).contains(mid[i as int])) by {
                if dup_id {
                    let j = choose|j: int| 0 <= j < i && mid[j] == mid[i as int];
                    assert(mid.take(i as int)[j] == mid[i as int]);
                }
            }
            assert(dup_slug == msl.take(i as int).contains(msl[i as int])) by {
                if dup_slug {
                    let j = choose|j: int| 0 <= j < i && msl[j] == msl[i as int];
                    assert(msl.take(i as int)[j] == msl[i as int]);
                }
            }
            let f1 = flag(dup_id, "duplicate public metadata id "@ + m.id@);
            let f2 = flag(dup_slug, "duplicate public metadata github_slug "@ + m.github_slug@);
            let f3 = metadata_record_findings(rs@, *m);
            lemma_extend(prior, f1, f2);
            lemma_extend(prior, f1 + f2, f3);
            lemma_extend(v0, metadata_entries_findings(rs@, ms@, i as int), metadata_entry_findings(rs@, ms@, i as int));
            assert(distinct_upto(mid, i + 1) == (distinct_upto(mid, i as int) && !dup_id));
            assert(distinct_upto(msl, i + 1) == (distinct_upto(msl, i as int) && !dup_slug));
            assert forall|y: Seq<char>| #[trigger] views(ids@).contains(y) <==> exists|j: int| 0 <= j < i + 1 && mid[j] == y by {
                if y == mid[i as int] {
                    assert(exists|j: int| 0 <= j < i + 1 && mid[j] == y);
                }
            }
            assert forall|y: Seq<char>| #[trigger] views(slugs@).contains(y) <==> exists|j: int| 0 <= j < i + 1 && msl[j] == y by {
                if y == msl[i as int] {
                    assert(exists|j: int| 0 <= j < i + 1 && msl[j] == y);
                }
            }
        }
        i = i + 1;
    }
    proof {
        assert forall|y: Seq<char>| #[trigger] views(slugs@).contains(y) <==> msl.contains(y) by {
            if msl.contains(y) {
                let j = choose|j: int| 0 <= j < msl.len() && msl[j] == y;
                assert(exists|j: int| 0 <= j < ms.len() && msl[j] == y);
            }
        }
    }
    slugs
}

/// Checks the organization events against the known repository slugs.
fn check_events(
    es: &Vec<PublicOrganizationEvent>,
    slugs: &Vec<String>,
    msl: Ghost<Seq<Seq<char>>>,
    errors: &mut Vec<String>,
)
    requires
        forall|y: Seq<char>| #[trigger] views(slugs@).contains(y) <==> msl@.contains(y),
    ensures
        views(final(errors)@) == views(old(errors)@) + events_findings(msl@, es@, es@.len() as int),
        old(errors)@.len() <= final(errors)@.len(),
        (final(errors)@.len() == old(errors)@.len()) <==> ((forall|q: int| 0 <= q < es.len() ==> event_ok(msl@, #[trigger] es@[q]))
            && distinct_upto(event_ids(es@), es.len() as int) && newest_first(es@)),
{
    let ghost e1 = errors@.len();
    let ghost v0 = views(errors@);
    let ghost eid = event_ids(es@);
    let mut event_seen: Vec<String> = Vec::new();
    let mut j: usize = 0;
    while j < es.len()
        invariant
            j <= es.len(),
            eid == event_ids(es@),
            forall|y: Seq<char>| #[trigger] views(slugs@).contains(y) <==> msl@.contains(y),
            e1 <= errors@.len(),
            views(errors@) == v0 + events_findings(msl@, es@, j as int),
            (errors@.len() == e1) <==> ((forall|q: int| 0 <= q < j ==> event_ok(msl@, #[trigger] es@[q]))
                && distinct_upto(eid, j as int) && forall|q: int| 0 < q < j ==> !text_lt((#[trigger] es@[q - 1]).created_at@, es@[q].created_at@)),
            forall|y: Seq<char>| #[trigger] views(event_seen@).contains(y) <==> exists|q: int| 0 <= q < j && eid[q] == y,
        decreases es.len() - j,
    {
        let e = &es[j];
        let ghost prior = views(errors@);
        assert(eid[j as int] == e.id@);
        check_nonempty("public organization event id", e.id.as_str(), errors);
        let dup = remember(&mut event_seen, e.id.as_str());
        note(errors, dup, cat2("duplicate public organization event ", e.id.as_str()));
        check_nonempty("public organization event kind", e.kind.as_str(), errors);
        let known = holds_string(slugs, e.repository.as_str());
        note(
            errors,
            !known,
            cat4("public organization event ", e.id.as_str(), " names unknown repository ", e.repository.as_str()),
        );
        check_timestamp(cat3("public organization event ", e.id.as_str(), " created_at").as_str(), e.created_at.as_str(), errors);
        let out_of_order = j > 0 && text_less(es[j - 1].created_at.as_str(), e.created_at.as_str());
        note(errors, out_of_order, String::from_str("public organization events are not newest-first"));
        proof {
            assert(dup == exists|q: int| 0 <= q < j && eid[q] == eid[j as int]);
            assert(dup == eid.take(j as int).contains(eid[j as int])) by {
                if dup {
                    let q = choose|q: int| 0 <= q < j && eid[q] == eid[j as int];
                    assert(eid.take(j as int)[q] == eid[j as int]);
                }
            }
            assert(known == msl@.contains(e.repository@));
            let f1 = nonempty_finding("public organization event id"@, e.id@);
            let f2 = flag(dup, "duplicate public organization event "@ + e.id@);
            let f3 = nonempty_finding("public organization event kind"@, e.kind@);
            let f4 = flag(!known, "public organization event "@ + e.id@ + " names unknown repository "@ + e.repository@);
            let f5 = timestamp_finding("public organization event "@ + e.id@ + " created_at"@, e.created_at@);
            let f6 = flag(out_of_order, "public organization events are not newest-first"@);
            lemma_extend(prior, f1, f2);
            lemma_extend(prior, f1 + f2, f3);
            lemma_extend(prior, f1 + f2 + f3, f4);
            lemma_extend(prior, f1 + f2 + f3 + f4, f5);
            lemma_extend(prior, f1 + f2 + f3 + f4 + f5, f6);
            lemma_extend(v0, events_findings(msl@, es@, j as int), event_findings(msl@, es@, j as int));
            assert(distinct_upto(eid, j + 1) == (distinct_upto(eid, j as int) && !dup));
            assert forall|y: Seq<char>| #[trigger] views(event_seen@).contains(y) <==> exists|q: int| 0 <= q < j + 1 && eid[q] == y by {
                if y == eid[j as int] {
                    assert(exists|q: int| 0 <= q < j + 1 && eid[q] == y);
                }
            }
        }
        j = j + 1;
    }
}

impl PublicMetadataCache {
    /// Checks the reduced public metadata against the editorial authority. The
    /// result is `Ok` exactly when every rule holds; otherwise every
    /// violation is reported, in sorted order.
    #[verifier::spinoff_prover]
    #[verifier::rlimit(50)]
    pub fn validate(&self, authority: &Authority) -> (r: Result<(), Vec<String>>)
        ensures
            r is Ok <==> metadata_valid(*self, *authority),
            r is Ok <==> metadata_findings(*self, *authority).len() == 0,
            r matches Err(errors) ==> errors@.len() > 0 && sorted_text(errors@) && views(errors@).to_multiset()
                == metadata_findings(*self, *authority).to_multiset(),
    {
        let mut errors: Vec<String> = Vec::new();
        let schema_ok = str_eq(self.schema.as_str(), "mer3ly.github-organization/v2");
        note(&mut errors, !schema_ok, cat2("unexpected public metadata schema ", self.schema.as_str()));
        let org_ok = str_eq(self.organization.as_str(), "merely-made");
        note(&mut errors, !org_ok, cat2("unexpected public metadata organization ", self.organization.as_str()));
        proof {
            assert(views(errors@) =~= flag(!schema_ok, "unexpected public metadata schema "@ + self.schema@) + flag(
                !org_ok,
                "unexpected public metadata organization "@ + self.organization@,
            ));
        }
        let ghost mut acc = views(errors@);
        check_timestamp("public metadata generated_at_utc", self.generated_at_utc.as_str(), &mut errors);
        proof {
            acc = acc + timestamp_finding("public metadata generated_at_utc"@, self.generated_at_utc@);
        }
        note(
            &mut errors,
            self.repository.len() == 0,
            String::from_str("public metadata has no repository records"),
        );
        proof {
            acc = acc + flag(self.repository@.len() == 0, "public metadata has no repository records"@);
        }
        let ghost e0 = errors@.len();
        let slugs = check_metadata_entries(&authority.repositories.repository, &self.repository, &mut errors);
        proof {
            acc = acc + metadata_entries_findings(
                authority.repositories.repository@,
                self.repository@,
                self.repository@.len() as int,
            );
        }
        note(&mut errors, self.event.len() > 40, String::from_str("public metadata has more than 40 organization events"));
        proof {
            acc = acc + flag(self.event@.len() > 40, "public metadata has more than 40 organization events"@);
        }
        let ghost e1 = errors@.len();
        check_events(&self.event, &slugs, Ghost(metadata_slugs(self.repository@)), &mut errors);
        proof {
            acc = acc + events_findings(metadata_slugs(self.repository@), self.event@, self.event@.len() as int);
            assert(views(errors@) == acc);
            assert(acc == metadata_findings(*self, *authority));
            crate::text::lemma_views_len(errors@);
        }
        if errors.len() == 0 {
            Ok(())
        } else {
            let ghost unsorted = errors@;
            sort_strings(&mut errors);
            proof {
                vstd::seq_lib::to_multiset_len(unsorted);
                vstd::seq_lib::to_multiset_len(errors@);
            }
            Err(errors)
        }
    }
}


/// The schema of the reduced public GitHub metadata that carries a live roster.
pub open spec fn live_schema() -> Seq<char> {
    "mer3ly.github-organization/v2"@
}

/// The summary given to a live repository that has no description.
pub open spec fn fallback_summary() -> Seq<char> {
    "A public repository in the Merely GitHub organization."@
}

/// `r` is the site profile derived from the live GitHub record `m` alone.
pub open spec fn fallback_of(r: RepositoryRecord, m: PublicRepositoryMetadata) -> bool {
    &&& r.id@ == m.id@
    &&& r.github_slug@ == m.github_slug@
    &&& r.name@ == m.name@
    &&& r.summary@ == (if m.description@.len() == 0 { fallback_summary() } else { m.description@ })
    &&& r.class == (if m.fork { RepositoryClass::MaintainedFork } else { RepositoryClass::Tool })
    &&& r.status == (if m.archived { RepositoryStatus::Archived } else { RepositoryStatus::Active })
    &&& r.license@ == (match m.license { Some(l) => l@, None => "NOASSERTION"@ })
    &&& r.homepage@ == (match m.homepage { Some(h) => h@, None => "https://github.com/"@ + m.github_slug@ })
    &&& r.public
}

/// The editorial repositories whose slug is on the live roster, in order.
pub open spec fn kept_repositories(rs: Seq<RepositoryRecord>, live: Seq<PublicRepositoryMetadata>) -> Seq<RepositoryRecord> {
    rs.filter(|r: RepositoryRecord| metadata_slugs(live).contains(r.github_slug@))
}

/// The live repositories that no editorial record names, in roster order.
pub open spec fn discovered_repositories(rs: Seq<RepositoryRecord>, live: Seq<PublicRepositoryMetadata>) -> Seq<PublicRepositoryMetadata> {
    live.filter(|m: PublicRepositoryMetadata| !repository_slugs(rs).contains(m.github_slug@))
}

/// `out` is the kept editorial repositories followed by one fallback profile
/// for each discovered live repository.
pub open spec fn reconciled(out: Seq<RepositoryRecord>, rs: Seq<RepositoryRecord>, live: Seq<PublicRepositoryMetadata>) -> bool {
    let kept = kept_repositories(rs, live);
    let found = discovered_repositories(rs, live);
    &&& out.len() == kept.len() + found.len()
    &&& forall|i: int| 0 <= i < kept.len() ==> out[i] == kept[i]
    &&& forall|j: int| 0 <= j < found.len() ==> fallback_of(#[trigger] out[kept.len() + j], found[j])
}

/// The relations whose two ends are both among `out`.
pub open spec fn live_relations(rels: Seq<RelationRecord>, out: Seq<RepositoryRecord>) -> Seq<RelationRecord> {
    rels.filter(|r: RelationRecord| repository_ids(out).contains(r.source@) && repository_ids(out).contains(r.target@))
}

/// The site profile of a live GitHub repository that has no editorial record.
pub fn repository_fallback_from_github(live: &PublicRepositoryMetadata) -> (r: RepositoryRecord)
    ensures
        fallback_of(r, *live),
{
    let summary = if blank_len(live.description.as_str()) {
        String::from_str("A public repository in the Merely GitHub organization.")
    } else {
        live.description.clone()
    };
    let license = match &live.license {
        Some(l) => l.clone(),
        None => String::from_str("NOASSERTION"),
    };
    let homepage = match &live.homepage {
        Some(h) => h.clone(),
        None => cat2("https://github.com/", live.github_slug.as_str()),
    };
    RepositoryRecord {
        id: live.id.clone(),
        github_slug: live.github_slug.clone(),
        name: live.name.clone(),
        summary,
        class: if live.fork { RepositoryClass::MaintainedFork } else { RepositoryClass::Tool },
        status: if live.archived { RepositoryStatus::Archived } else { RepositoryStatus::Active },
        license,
        homepage,
        public: true,
    }
}

/// The slugs of the live roster.
fn live_slug_list(live: &Vec<PublicRepositoryMetadata>) -> (r: Vec<String>)
    ensures
        views(r@) == metadata_slugs(live@),
{
    let mut r: Vec<String> = Vec::new();
    let mut i: usize = 0;
    while i < live.len()
        invariant
            i <= live.len(),
            views(r@) == metadata_slugs(live@).take(i as int),
        decreases live.len() - i,
    {
        let ghost before = r@;
        let item = live[i].github_slug.clone();
        r.push(item);
        proof {
            lemma_views_push(before, item);
            assert(views(r@) =~= metadata_slugs(live@).take(i + 1));
        }
        i = i + 1;
    }
    assert(metadata_slugs(live@).take(live.len() as int) =~= metadata_slugs(live@));
    r
}

/// The slugs of the editorial repositories.
fn editorial_slug_list(rs: &Vec<RepositoryRecord>) -> (r: Vec<String>)
    ensures
        views(r@) == repository_slugs(rs@),
{
    let mut r: Vec<String> = Vec::new();
    let mut i: usize = 0;
    while i < rs.len()
        invariant
            i <= rs.len(),
            views(r@) == repository_slugs(rs@).take(i as int),
        decreases rs.len() - i,
    {
        let ghost before = r@;
        let item = rs[i].github_slug.clone();
        r.push(item);
        proof {
            lemma_views_push(before, item);
            assert(views(r@) =~= repository_slugs(rs@).take(i + 1));
        }
        i = i + 1;
    }
    assert(repository_slugs(rs@).take(rs.len() as int) =~= repository_slugs(rs@));
    r
}

/// The ids of a list of repositories.
fn repository_id_list(rs: &Vec<RepositoryRecord>) -> (r: Vec<String>)
    ensures
        views(r@) == repository_ids(rs@),
{
    let mut r: Vec<String> = Vec::new();
    let mut i: usize = 0;
    while i < rs.len()
        invariant
            i <= rs.len(),
            views(r@) == repository_ids(rs@).take(i as int),
        decreases rs.len() - i,
    {
        let ghost before = r@;
        let item = rs[i].id.clone();
        r.push(item);
        proof {
            lemma_views_push(before, item);
            assert(views(r@) =~= repository_ids(rs@).take(i + 1));
        }
        i = i + 1;
    }
    assert(repository_ids(rs@).take(rs.len() as int) =~= repository_ids(rs@));
    r
}

/// Reconciles the editorial roster with the live GitHub roster. With metadata
/// of the live schema, editorial repositories that are no longer live are
/// dropped, live repositories without an editorial record get a fallback
/// profile, and relations keep only those whose two ends remain. With any
/// other schema both manifests come back unchanged.
pub fn reconcile_live_github_repositories(
    editorial: &RepositoryManifest,
    relations: &RelationManifest,
    metadata: &PublicMetadataCache,
) -> (r: (RepositoryManifest, RelationManifest))
    ensures
        metadata.schema@ != live_schema() ==> r.0.repository@ == editorial.repository@ && r.1.relation@ == relations.relation@,
        metadata.schema@ == live_schema() ==> reconciled(r.0.repository@, editorial.repository@, metadata.repository@)
            && r.1.relation@ == live_relations(relations.relation@, r.0.repository@),
{
    if !str_eq(metadata.schema.as_str(), "mer3ly.github-organization/v2") {
        return (editorial.clone(), relations.clone());
    }
    let rs = &editorial.repository;
    let live = &metadata.repository;
    let live_slugs = live_slug_list(live);
    let editorial_slugs = editorial_slug_list(rs);
    let ghost keep_pred = |r: RepositoryRecord| metadata_slugs(live@).contains(r.github_slug@);
    let ghost find_pred = |m: PublicRepositoryMetadata| !repository_slugs(rs@).contains(m.github_slug@);
    let mut out: Vec<RepositoryRecord> = Vec::new();
    let mut i: usize = 0;
    while i < rs.len()
        invariant
            i <= rs.len(),
            views(live_slugs@) == metadata_slugs(live@),
            keep_pred == (|r: RepositoryRecord| metadata_slugs(live@).contains(r.github_slug@)),
            out@ == rs@.take(i as int).filter(keep_pred),
        decreases rs.len() - i,
    {
        proof {
            lemma_filter_take_step(rs@, keep_pred, i as int);
        }
        if holds_string(&live_slugs, rs[i].github_slug.as_str()) {
            out.push(rs[i].clone());
        }
        i = i + 1;
    }
    assert(rs@.take(rs.len() as int) =~= rs@);
    let ghost kept = out@;
    let mut j: usize = 0;
    while j < live.len()
        invariant
            j <= live.len(),
            views(editorial_slugs@) == repository_slugs(rs@),
            find_pred == (|m: PublicRepositoryMetadata| !repository_slugs(rs@).contains(m.github_slug@)),
            kept == kept_repositories(rs@, live@),
            out@.len() == kept.len() + live@.take(j as int).filter(find_pred).len(),
            forall|k: int| 0 <= k < kept.len() ==> out@[k] == kept[k],
            forall|k: int| 0 <= k < live@.take(j as int).filter(find_pred).len()
                ==> fallback_of(#[trigger] out@[kept.len() + k], live@.take(j as int).filter(find_pred)[k]),
        decreases live.len() - j,
    {
        proof {
            lemma_filter_take_step(live@, find_pred, j as int);
        }
        if !holds_string(&editorial_slugs, live[j].github_slug.as_str()) {
            let fallback = repository_fallback_from_github(&live[j]);
            out.push(fallback);
        }
        j = j + 1;
    }
    assert(live@.take(live.len() as int) =~= live@);
    let ids = repository_id_list(&out);
    let rels = &relations.relation;
    let ghost rel_pred = |r: RelationRecord| repository_ids(out@).contains(r.source@) && repository_ids(out@).contains(r.target@);
    let mut kept_relations: Vec<RelationRecord> = Vec::new();
    let mut k: usize = 0;
    while k < rels.len()
        invariant
            k <= rels.len(),
            views(ids@) == repository_ids(out@),
            rel_pred == (|r: RelationRecord| repository_ids(out@).contains(r.source@) && repository_ids(out@).contains(r.target@)),
            kept_relations@ == rels@.take(k as int).filter(rel_pred),
        decreases rels.len() - k,
    {
        proof {
            lemma_filter_take_step(rels@, rel_pred, k as int);
        }
        if holds_string(&ids, rels[k].source.as_str()) && holds_string(&ids, rels[k].target.as_str()) {
            kept_relations.push(rels[k].clone());
        }
        k = k + 1;
    }
    assert(rels@.take(rels.len() as int) =~= rels@);
    (RepositoryManifest { repository: out }, RelationManifest { relation: kept_relations })
}


impl Authority {
    /// The authority with its repositories and relations reconciled against
    /// the live GitHub roster; the migration ledger is unchanged.
    pub fn with_live_github_repositories(self, metadata: &PublicMetadataCache) -> (r: Self)
        ensures
            r.migration == self.migration,
            metadata.schema@ != live_schema() ==> r.repositories.repository@ == self.repositories.repository@
                && r.relations.relation@ == self.relations.relation@,
            metadata.schema@ == live_schema() ==> reconciled(r.repositories.repository@, self.repositories.repository@, metadata.repository@)
                && r.relations.relation@ == live_relations(self.relations.relation@, r.repositories.repository@),
    {
        let (repositories, relations) = reconcile_live_github_repositories(&self.repositories, &self.relations, metadata);
        Authority { repositories, relations, migration: self.migration }
    }
}

/// How a showcase image fares against the normalized-PNG rules.
#[derive(Clone, Copy, Debug, PartialEq, Eq, Structural)]
pub enum PngVerdict {
    Complete,
    Missing,
    NotPng,
    UnapprovedChunk,
    BadDimensions,
    Incomplete,
}

/// The eight-byte PNG signature.
pub open spec fn png_signature() -> Seq<u8> {
    seq![0x89u8, 0x50u8, 0x4eu8, 0x47u8, 0x0du8, 0x0au8, 0x1au8, 0x0au8]
}

/// The big-endian 32-bit number at `b[i..i + 4]`.
pub open spec fn be32(b: Seq<u8>, i: int) -> int {
    b[i] as int * 16777216 + b[i + 1] as int * 65536 + b[i + 2] as int * 256 + b[i + 3] as int
}

pub open spec fn ihdr() -> Seq<u8> {
    seq![73u8, 72u8, 68u8, 82u8]
}

pub open spec fn idat() -> Seq<u8> {
    seq![73u8, 68u8, 65u8, 84u8]
}

pub open spec fn iend() -> Seq<u8> {
    seq![73u8, 69u8, 78u8, 68u8]
}

/// The chunk types a normalized showcase image may keep: `IHDR`, `PLTE`,
/// `IDAT`, `IEND`, `tRNS`, `sRGB`, `gAMA` and `cHRM`.
pub open spec fn retained_chunk(t: Seq<u8>) -> bool {
    ||| t == ihdr()
    ||| t == seq![80u8, 76u8, 84u8, 69u8]
    ||| t == idat()
    ||| t == iend()
    ||| t == seq![116u8, 82u8, 78u8, 83u8]
    ||| t == seq![115u8, 82u8, 71u8, 66u8]
    ||| t == seq![103u8, 65u8, 77u8, 65u8]
    ||| t == seq![99u8, 72u8, 82u8, 77u8]
}

/// Both dimensions lie in `1..=4096`.
pub open spec fn png_dims_ok(width: int, height: int) -> bool {
    1 <= width <= 4096 && 1 <= height <= 4096
}

/// The verdict on the chunks of `b` from `off` on, having seen a header
/// (`header`) and image data (`data`) before. Each chunk is a four-byte
/// length, a four-byte type, the data and a four-byte checksum; the walk
/// stops at the first chunk that is cut short or out of place.
pub open spec fn png_walk(b: Seq<u8>, off: int, header: bool, data: bool) -> PngVerdict
    decreases b.len() - off,
{
    if off < 0 || off + 8 > b.len() || off + 12 + be32(b, off) > b.len() {
        PngVerdict::Incomplete
    } else {
        let len = be32(b, off);
        let t = b.subrange(off + 4, off + 8);
        if !vstd::utf8::valid_utf8(t) || (!header && t != ihdr()) {
            PngVerdict::Incomplete
        } else if !retained_chunk(t) {
            PngVerdict::UnapprovedChunk
        } else if t == ihdr() {
            if header || len != 13 {
                PngVerdict::Incomplete
            } else if !png_dims_ok(be32(b, off + 8), be32(b, off + 12)) {
                PngVerdict::BadDimensions
            } else {
                png_walk(b, off + 12 + len, true, data)
            }
        } else if t == idat() {
            png_walk(b, off + 12 + len, header, true)
        } else if t == iend() {
            if len != 0 || !data || off + 12 != b.len() {
                PngVerdict::Incomplete
            } else {
                PngVerdict::Complete
            }
        } else {
            png_walk(b, off + 12 + len, header, data)
        }
    }
}

/// The verdict on a showcase image: a PNG signature, then a header, image
/// data and an end chunk that closes the file, with approved chunks only and
/// dimensions in range.
pub open spec fn png_verdict(b: Seq<u8>) -> PngVerdict {
    if !(b.len() >= 8 && b.subrange(0, 8) == png_signature()) {
        PngVerdict::NotPng
    } else {
        png_walk(b, 8, false, false)
    }
}

/// The verdict on an image that may be missing.
pub open spec fn image_verdict(img: Option<Seq<u8>>) -> PngVerdict {
    match img {
        Some(b) => png_verdict(b),
        None => PngVerdict::Missing,
    }
}

/// The length of the well-formed UTF-8 scalar that `b[i..end]` starts with,
/// or zero where it starts with none.
fn first_scalar_len(b: &[u8], i: usize, end: usize) -> (r: usize)
    requires
        i < end <= b@.len(),
    ensures
        r == 0 <==> !vstd::utf8::valid_first_scalar(b@.subrange(i as int, end as int)),
        r != 0 ==> r == vstd::utf8::length_of_first_scalar(b@.subrange(i as int, end as int)) && r <= end - i,
{
    let ghost s = b@.subrange(i as int, end as int);
    let x0 = b[i];
    assert(s[0] == x0);
    if x0 <= 0x7f {
        let cp: u32 = (x0 & 0x7f) as u32;
        if 0xd800 <= cp && cp <= 0xdfff {
            return 0;
        }
        return 1;
    }
    if 0xc0 <= x0 && x0 <= 0xdf {
        if end - i < 2 {
            return 0;
        }
        let x1 = b[i + 1];
        assert(s[1] == x1);
        if !(0x80 <= x1 && x1 <= 0xbf) {
            return 0;
        }
        let cp: u32 = (((x0 & 0x1f) as u32) << 6u32) | ((x1 & 0x3f) as u32);
        if cp < 0x80 || (0xd800 <= cp && cp <= 0xdfff) {
            return 0;
        }
        return 2;
    }
    if 0xe0 <= x0 && x0 <= 0xef {
        if end - i < 3 {
            return 0;
        }
        let x1 = b[i + 1];
        let x2 = b[i + 2];
        assert(s[1] == x1 && s[2] == x2);
        if !(0x80 <= x1 && x1 <= 0xbf && 0x80 <= x2 && x2 <= 0xbf) {
            return 0;
        }
        let cp: u32 = (((x0 & 0x0f) as u32) << 12u32) | (((x1 & 0x3f) as u32) << 6u32) | ((x2 & 0x3f) as u32);
        if cp < 0x800 || (0xd800 <= cp && cp <= 0xdfff) {
            return 0;
        }
        return 3;
    }
    if 0xf0 <= x0 && x0 <= 0xf7 {
        if end - i < 4 {
            return 0;
        }
        let x1 = b[i + 1];
        let x2 = b[i + 2];
        let x3 = b[i + 3];
        assert(s[1] == x1 && s[2] == x2 && s[3] == x3);
        if !(0x80 <= x1 && x1 <= 0xbf && 0x80 <= x2 && x2 <= 0xbf && 0x80 <= x3 && x3 <= 0xbf) {
            return 0;
        }
        let cp: u32 = (((x0 & 0x07) as u32) << 18u32) | (((x1 & 0x3f) as u32) << 12u32) | (((x2 & 0x3f) as u32) << 6u32)
            | ((x3 & 0x3f) as u32);
        if cp < 0x10000 || cp > 0x10ffff || (0xd800 <= cp && cp <= 0xdfff) {
            return 0;
        }
        return 4;
    }
    0
}

/// Whether `b[start..end]` is valid UTF-8 text, as `std::str::from_utf8`
/// decides.
fn utf8_text(b: &[u8], start: usize, end: usize) -> (r: bool)
    requires
        start <= end <= b@.len(),
    ensures
        r == vstd::utf8::valid_utf8(b@.subrange(start as int, end as int)),
{
    let mut i = start;
    while i < end
        invariant
            start <= i <= end <= b@.len(),
            vstd::utf8::valid_utf8(b@.subrange(start as int, end as int)) == vstd::utf8::valid_utf8(b@.subrange(i as int, end as int)),
        decreases end - i,
    {
        let l = first_scalar_len(b, i, end);
        if l == 0 {
            return false;
        }
        proof {
            let s = b@.subrange(i as int, end as int);
            assert(vstd::utf8::pop_first_scalar(s) =~= b@.subrange(i + l, end as int));
        }
        i = i + l;
    }
    proof {
        assert(b@.subrange(i as int, end as int).len() == 0);
    }
    true
}

/// The big-endian 32-bit number at `b[i..i + 4]`.
fn be32_at(b: &[u8], i: usize) -> (r: u64)
    requires
        i + 4 <= b@.len(),
    ensures
        r == be32(b@, i as int),
        r <= 0xffff_ffff,
{
    (b[i] as u64) * 16777216 + (b[i + 1] as u64) * 65536 + (b[i + 2] as u64) * 256 + (b[i + 3] as u64)
}

/// Whether the four bytes at `i` spell `a b c d`.
fn bytes_at(b: &[u8], i: usize, a: u8, c1: u8, c2: u8, c3: u8) -> (r: bool)
    requires
        i + 4 <= b@.len(),
    ensures
        r == (b@.subrange(i as int, i + 4) == seq![a, c1, c2, c3]),
{
    let r = b[i] == a && b[i + 1] == c1 && b[i + 2] == c2 && b[i + 3] == c3;
    if r {
        assert(b@.subrange(i as int, i + 4) =~= seq![a, c1, c2, c3]);
    } else {
        assert(b@.subrange(i as int, i + 4)[0] == b@[i as int]);
        assert(b@.subrange(i as int, i + 4)[1] == b@[i + 1]);
        assert(b@.subrange(i as int, i + 4)[2] == b@[i + 2]);
        assert(b@.subrange(i as int, i + 4)[3] == b@[i + 3]);
    }
    r
}

/// Checks a showcase image against the normalized-PNG rules.
pub fn validate_showcase_png(bytes: &[u8]) -> (v: PngVerdict)
    ensures
        v == png_verdict(bytes@),
{
    let n = bytes.len();
    if n < 8 {
        return PngVerdict::NotPng;
    }
    let sig = bytes[0] == 0x89 && bytes[1] == 0x50 && bytes[2] == 0x4e && bytes[3] == 0x47 && bytes[4] == 0x0d && bytes[5]
        == 0x0a && bytes[6] == 0x1a && bytes[7] == 0x0a;
    proof {
        let b = bytes@;
        if sig {
            assert(b.subrange(0, 8) =~= png_signature());
        } else if b.subrange(0, 8) == png_signature() {
            assert forall|k: int| 0 <= k < 8 implies b[k] == png_signature()[k] by {
                assert(b.subrange(0, 8)[k] == b[k]);
            }
        }
    }
    if !sig {
        return PngVerdict::NotPng;
    }
    let mut off: usize = 8;
    let mut header = false;
    let mut data = false;
    loop
        invariant
            8 <= off <= n,
            n == bytes@.len(),
            bytes@.len() >= 8 && bytes@.subrange(0, 8) == png_signature(),
            png_walk(bytes@, off as int, header, data) == png_verdict(bytes@),
        decreases n - off,
    {
        if n - off < 8 {
            return PngVerdict::Incomplete;
        }
        let len = be32_at(bytes, off);
        if n - off < 12 || len > (n - off - 12) as u64 {
            return PngVerdict::Incomplete;
        }
        let len = len as usize;
        if !utf8_text(bytes, off + 4, off + 8) {
            return PngVerdict::Incomplete;
        }
        let is_ihdr = bytes_at(bytes, off + 4, 73, 72, 68, 82);
        let is_idat = bytes_at(bytes, off + 4, 73, 68, 65, 84);
        let is_iend = bytes_at(bytes, off + 4, 73, 69, 78, 68);
        if !header && !is_ihdr {
            return PngVerdict::Incomplete;
        }
        let retained = is_ihdr || is_idat || is_iend || bytes_at(bytes, off + 4, 80, 76, 84, 69) || bytes_at(bytes, off + 4, 116, 82, 78, 83)
            || bytes_at(bytes, off + 4, 115, 82, 71, 66) || bytes_at(bytes, off + 4, 103, 65, 77, 65) || bytes_at(bytes, off + 4, 99, 72, 82, 77);
        if !retained {
            return PngVerdict::UnapprovedChunk;
        }
        if is_ihdr {
            if header || len != 13 {
                return PngVerdict::Incomplete;
            }
            let width = be32_at(bytes, off + 8);
            let height = be32_at(bytes, off + 12);
            if width == 0 || height == 0 || width > 4096 || height > 4096 {
                return PngVerdict::BadDimensions;
            }
            header = true;
        } else if is_idat {
            data = true;
        } else if is_iend {
            if len != 0 || !data || off + 12 != n {
                return PngVerdict::Incomplete;
            }
            return PngVerdict::Complete;
        }
        off = off + 12 + len;
    }
}


/// Entry `k` of `rs` is a public repository with the given id.
pub open spec fn public_with_id(rs: Seq<RepositoryRecord>, id: Seq<char>, k: int) -> bool {
    0 <= k < rs.len() && rs[k].public && rs[k].id@ == id
}

/// Entry `k` is the last public repository with the given id, the one an
/// id-keyed map of the public repositories keeps.
pub open spec fn last_public_with_id(rs: Seq<RepositoryRecord>, id: Seq<char>, k: int) -> bool {
    &&& public_with_id(rs, id, k)
    &&& forall|j: int| k < j < rs.len() ==> !#[trigger] public_with_id(rs, id, j)
}

/// The approved image path of a showcase.
pub open spec fn showcase_image_path(s: ShowcaseRecord) -> Seq<char> {
    "showcase/"@ + s.repository@ + ".png"@
}

/// A relative path with no backslash and no empty, `.` or `..` segment.
pub open spec fn clean_path(p: Seq<char>) -> bool {
    &&& !p.contains('\\')
    &&& !has_segment(p, Seq::empty())
    &&& !has_segment(p, "."@)
    &&& !has_segment(p, ".."@)
}

/// Entry `k` is the first supplied image file with the given path.
pub open spec fn first_image(imgs: Seq<(String, Vec<u8>)>, path: Seq<char>, k: int) -> bool {
    &&& 0 <= k < imgs.len()
    &&& imgs[k].0@ == path
    &&& forall|j: int| 0 <= j < k ==> (#[trigger] imgs[j]).0@ != path
}

/// The bytes of the image file at `path`, if it was supplied.
pub open spec fn image_for(imgs: Seq<(String, Vec<u8>)>, path: Seq<char>) -> Option<Seq<u8>> {
    if exists|k: int| first_image(imgs, path, k) {
        Some(imgs[choose|k: int| first_image(imgs, path, k)].1@)
    } else {
        None
    }
}

/// The supplied image file at `path`, if any.
fn lookup_image<'a>(imgs: &'a Vec<(String, Vec<u8>)>, path: &str) -> (r: Option<&'a Vec<u8>>)
    ensures
        (match r {
            Some(v) => Some(v@),
            None => None,
        }) == image_for(imgs@, path@),
{
    let mut i: usize = 0;
    while i < imgs.len()
        invariant
            i <= imgs@.len(),
            forall|j: int| 0 <= j < i ==> (#[trigger] imgs@[j]).0@ != path@,
        decreases imgs@.len() - i,
    {
        if str_eq(imgs[i].0.as_str(), path) {
            proof {
                assert(first_image(imgs@, path@, i as int));
                let k = choose|k: int| first_image(imgs@, path@, k);
                if k < i {
                    assert(imgs@[k].0@ != path@);
                }
                if k > i {
                    assert(imgs@[i as int].0@ != path@);
                }
            }
            return Some(&imgs[i].1);
        }
        i = i + 1;
    }
    None
}

/// One showcase satisfies every rule that concerns it alone.
pub open spec fn showcase_ok(rs: Seq<RepositoryRecord>, s: ShowcaseRecord, img: Option<Seq<u8>>) -> bool {
    &&& !is_blank(s.repository@)
    &&& !is_blank(s.headline@)
    &&& !is_blank(s.copy@)
    &&& !is_blank(s.alt@)
    &&& !is_blank(s.caption@)
    &&& s.order != 0
    &&& exists|k: int| public_with_id(rs, s.repository@, k)
    &&& s.image@ == showcase_image_path(s)
    &&& clean_path(s.image@)
    &&& forall|k: int| #[trigger] last_public_with_id(rs, s.repository@, k) ==> {
        &&& s.source_license@ == rs[k].license@
        &&& has_prefix(s.source_url@, "https://github.com/"@ + rs[k].github_slug@ + "/blob/"@)
    }
    &&& image_verdict(img) == PngVerdict::Complete
}

pub open spec fn showcase_repositories(ss: Seq<ShowcaseRecord>) -> Seq<Seq<char>> {
    ss.map_values(|s: ShowcaseRecord| s.repository@)
}

pub open spec fn showcase_orders(ss: Seq<ShowcaseRecord>) -> Seq<u32> {
    ss.map_values(|s: ShowcaseRecord| s.order)
}

pub open spec fn showcase_images(ss: Seq<ShowcaseRecord>) -> Seq<Seq<char>> {
    ss.map_values(|s: ShowcaseRecord| s.image@)
}

/// The showcase manifest satisfies every rule against the authority, with
/// `imgs` the image files that could be read, by path.
pub open spec fn showcases_valid(m: ShowcaseManifest, imgs: Seq<(String, Vec<u8>)>, a: Authority) -> bool {
    let ss = m.showcase@;
    let rs = a.repositories.repository@;
    &&& ss.len() > 0
    &&& forall|i: int| 0 <= i < ss.len() ==> showcase_ok(rs, #[trigger] ss[i], image_for(imgs, ss[i].image@))
    &&& distinct_upto(showcase_repositories(ss), ss.len() as int)
    &&& distinct_upto(showcase_orders(ss), ss.len() as int)
    &&& distinct_upto(showcase_images(ss), ss.len() as int)
}

/// The last public editorial repository with the given id, if any.
fn last_public_id(rs: &Vec<RepositoryRecord>, id: &str) -> (r: Option<usize>)
    ensures
        match r {
            Some(k) => last_public_with_id(rs@, id@, k as int),
            None => forall|k: int| !#[trigger] public_with_id(rs@, id@, k),
        },
{
    let mut found: Option<usize> = None;
    let mut i: usize = 0;
    while i < rs.len()
        invariant
            i <= rs.len(),
            match found {
                Some(k) => k < i && public_with_id(rs@, id@, k as int) && forall|j: int| k < j < i ==> !#[trigger] public_with_id(rs@, id@, j),
                None => forall|k: int| 0 <= k < i ==> !#[trigger] public_with_id(rs@, id@, k),
            },
        decreases rs.len() - i,
    {
        if rs[i].public && str_eq(rs[i].id.as_str(), id) {
            found = Some(i);
        }
        i = i + 1;
    }
    found
}

/// Records the message for a showcase image verdict other than `Complete`.
/// What the verdict on a showcase image records.
pub open spec fn png_finding(repository: Seq<char>, v: PngVerdict) -> Seq<Seq<char>> {
    let lab = "showcase "@ + repository;
    match v {
        PngVerdict::Complete => Seq::empty(),
        PngVerdict::Missing => seq![lab + " normalized image is missing"@],
        PngVerdict::NotPng => seq![lab + " image is not a normalized PNG"@],
        PngVerdict::UnapprovedChunk => seq![lab + " image contains an unapproved PNG chunk"@],
        PngVerdict::BadDimensions => seq![lab + " image dimensions are outside the approved range"@],
        PngVerdict::Incomplete => seq![lab + " image is not a complete normalized PNG"@],
    }
}

fn note_png(repository: &str, v: PngVerdict, errors: &mut Vec<String>)
    ensures
        final(errors)@.len() >= old(errors)@.len(),
        (final(errors)@.len() == old(errors)@.len()) <==> v == PngVerdict::Complete,
        views(final(errors)@) == views(old(errors)@) + png_finding(repository@, v),
{
    match v {
        PngVerdict::Complete => {
            assert(views(errors@) =~= views(old(errors)@) + png_finding(repository@, v));
        },
        PngVerdict::Missing => note(errors, true, cat3("showcase ", repository, " normalized image is missing")),
        PngVerdict::NotPng => note(errors, true, cat3("showcase ", repository, " image is not a normalized PNG")),
        PngVerdict::UnapprovedChunk => note(errors, true, cat3("showcase ", repository, " image contains an unapproved PNG chunk")),
        PngVerdict::BadDimensions => note(
            errors,
            true,
            cat3("showcase ", repository, " image dimensions are outside the approved range"),
        ),
        PngVerdict::Incomplete => note(errors, true, cat3("showcase ", repository, " image is not a complete normalized PNG")),
    }
}

/// What the checks of a showcase's own text fields and order record, in
/// order.
pub open spec fn showcase_text_findings(s: ShowcaseRecord) -> Seq<Seq<char>> {
    let repo = s.repository@;
    nonempty_finding("showcase repository"@, repo) + nonempty_finding("showcase "@ + repo + " headline"@, s.headline@)
        + nonempty_finding("showcase "@ + repo + " copy"@, s.copy@) + nonempty_finding("showcase "@ + repo + " alt"@, s.alt@)
        + nonempty_finding("showcase "@ + repo + " caption"@, s.caption@) + flag(
        s.order == 0,
        "showcase "@ + repo + " has a zero or duplicate order"@,
    )
}

/// What the checks of a showcase against its public repository record, in
/// order; only the missing repository where there is none.
pub open spec fn showcase_source_findings(rs: Seq<RepositoryRecord>, s: ShowcaseRecord, img: Option<Seq<u8>>) -> Seq<
    Seq<char>,
> {
    let repo = s.repository@;
    let lab = "showcase "@ + repo;
    if exists|k: int| #[trigger] last_public_with_id(rs, repo, k) {
        let k = choose|k: int| #[trigger] last_public_with_id(rs, repo, k);
        flag(
            !(s.image@ == showcase_image_path(s) && clean_path(s.image@)),
            lab + " image does not use its approved normalized path"@,
        ) + flag(s.source_license@ != rs[k].license@, lab + " source license disagrees with repository authority"@) + flag(
            !has_prefix(s.source_url@, "https://github.com/"@ + rs[k].github_slug@ + "/blob/"@),
            lab + " source URL does not belong to its repository"@,
        ) + png_finding(repo, image_verdict(img))
    } else {
        seq![lab + " does not name a public repository"@]
    }
}

/// What the checks of one showcase record, in order.
pub open spec fn showcase_findings(rs: Seq<RepositoryRecord>, s: ShowcaseRecord, img: Option<Seq<u8>>) -> Seq<Seq<char>> {
    showcase_text_findings(s) + showcase_source_findings(rs, s, img)
}

/// Checks the text fields and order of one showcase.
fn check_showcase_text(s: &ShowcaseRecord, errors: &mut Vec<String>)
    ensures
        views(final(errors)@) == views(old(errors)@) + showcase_text_findings(*s),
        final(errors)@.len() >= old(errors)@.len(),
        (final(errors)@.len() == old(errors)@.len()) <==> ({
            &&& !is_blank(s.repository@)
            &&& !is_blank(s.headline@)
            &&& !is_blank(s.copy@)
            &&& !is_blank(s.alt@)
            &&& !is_blank(s.caption@)
            &&& s.order != 0
        }),
{
    let ghost v0 = views(errors@);
    let repo = s.repository.as_str();
    let ghost r = s.repository@;
    check_nonempty("showcase repository", repo, errors);
    let ghost mut acc = nonempty_finding("showcase repository"@, r);
    check_nonempty(cat3("showcase ", repo, " headline").as_str(), s.headline.as_str(), errors);
    proof {
        let f = nonempty_finding("showcase "@ + r + " headline"@, s.headline@);
        lemma_extend(v0, acc, f);
        acc = acc + f;
    }
    check_nonempty(cat3("showcase ", repo, " copy").as_str(), s.copy.as_str(), errors);
    proof {
        let f = nonempty_finding("showcase "@ + r + " copy"@, s.copy@);
        lemma_extend(v0, acc, f);
        acc = acc + f;
    }
    check_nonempty(cat3("showcase ", repo, " alt").as_str(), s.alt.as_str(), errors);
    proof {
        let f = nonempty_finding("showcase "@ + r + " alt"@, s.alt@);
        lemma_extend(v0, acc, f);
        acc = acc + f;
    }
    check_nonempty(cat3("showcase ", repo, " caption").as_str(), s.caption.as_str(), errors);
    proof {
        let f = nonempty_finding("showcase "@ + r + " caption"@, s.caption@);
        lemma_extend(v0, acc, f);
        acc = acc + f;
    }
    note(errors, s.order == 0, cat3("showcase ", repo, " has a zero or duplicate order"));
    proof {
        let f = flag(s.order == 0, "showcase "@ + r + " has a zero or duplicate order"@);
        lemma_extend(v0, acc, f);
    }
}

/// Checks one showcase against its public repository and its image.
fn check_showcase_source(rs: &Vec<RepositoryRecord>, s: &ShowcaseRecord, img: Option<&Vec<u8>>, errors: &mut Vec<String>)
    ensures
        views(final(errors)@) == views(old(errors)@) + showcase_source_findings(rs@, *s, match img {
            Some(v) => Some(v@),
            None => None,
        }),
        final(errors)@.len() >= old(errors)@.len(),
        (final(errors)@.len() == old(errors)@.len()) <==> ({
            let im = match img {
                Some(v) => Some(v@),
                None => None,
            };
            &&& exists|k: int| public_with_id(rs@, s.repository@, k)
            &&& s.image@ == showcase_image_path(*s)
            &&& clean_path(s.image@)
            &&& forall|k: int| #[trigger] last_public_with_id(rs@, s.repository@, k) ==> {
                &&& s.source_license@ == rs@[k].license@
                &&& has_prefix(s.source_url@, "https://github.com/"@ + rs@[k].github_slug@ + "/blob/"@)
            }
            &&& image_verdict(im) == PngVerdict::Complete
        }),
{
    let ghost v0 = views(errors@);
    let ghost im = match img {
        Some(v) => Some(v@),
        None => None,
    };
    let repo = s.repository.as_str();
    let ghost r = s.repository@;
    let found = last_public_id(rs, repo);
    match found {
        None => {
            note(errors, true, cat3("showcase ", repo, " does not name a public repository"));
            proof {
                assert(!exists|k: int| #[trigger] last_public_with_id(rs@, r, k)) by {
                    if exists|k: int| #[trigger] last_public_with_id(rs@, r, k) {
                        let k = choose|k: int| #[trigger] last_public_with_id(rs@, r, k);
                        assert(public_with_id(rs@, r, k));
                    }
                }
            }
        },
        Some(k) => {
            let expected = cat3("showcase/", repo, ".png");
            let image = s.image.as_str();
            let bad_path = !str_eq(image, expected.as_str()) || contains_char(image, '\\') || segment_present(image, "")
                || segment_present(image, ".") || segment_present(image, "..");
            proof {
                reveal_strlit("");
                assert(""@ =~= Seq::<char>::empty());
            }
            note(errors, bad_path, cat3("showcase ", repo, " image does not use its approved normalized path"));
            let ghost mut acc = flag(bad_path, "showcase "@ + r + " image does not use its approved normalized path"@);
            let license_ok = str_eq(s.source_license.as_str(), rs[k].license.as_str());
            note(errors, !license_ok, cat3("showcase ", repo, " source license disagrees with repository authority"));
            proof {
                let f = flag(!license_ok, "showcase "@ + r + " source license disagrees with repository authority"@);
                lemma_extend(v0, acc, f);
                acc = acc + f;
            }
            let prefix = cat3("https://github.com/", rs[k].github_slug.as_str(), "/blob/");
            let url_ok = starts_with(s.source_url.as_str(), prefix.as_str());
            note(errors, !url_ok, cat3("showcase ", repo, " source URL does not belong to its repository"));
            proof {
                let f = flag(!url_ok, "showcase "@ + r + " source URL does not belong to its repository"@);
                lemma_extend(v0, acc, f);
                acc = acc + f;
            }
            let verdict = match img {
                Some(bytes) => validate_showcase_png(bytes.as_slice()),
                None => PngVerdict::Missing,
            };
            note_png(repo, verdict, errors);
            proof {
                lemma_extend(v0, acc, png_finding(r, verdict));
                assert(verdict == image_verdict(im));
                assert(s.image@ == showcase_image_path(*s) <==> image@ == expected@);
                assert forall|j: int| #[trigger] last_public_with_id(rs@, s.repository@, j) implies j == k by {
                    if j < k {
                        assert(public_with_id(rs@, s.repository@, k as int));
                    } else if j > k {
                        assert(public_with_id(rs@, s.repository@, j));
                    }
                }
                assert(last_public_with_id(rs@, r, k as int));
                let c = choose|c: int| #[trigger] last_public_with_id(rs@, r, c);
                assert(c == k);
            }
        },
    }
}

/// Checks the rules that concern one showcase alone.
fn check_showcase(rs: &Vec<RepositoryRecord>, s: &ShowcaseRecord, img: Option<&Vec<u8>>, errors: &mut Vec<String>)
    ensures
        views(final(errors)@) == views(old(errors)@) + showcase_findings(rs@, *s, match img {
            Some(v) => Some(v@),
            None => None,
        }),
        final(errors)@.len() >= old(errors)@.len(),
        (final(errors)@.len() == old(errors)@.len()) <==> showcase_ok(rs@, *s, match img {
            Some(v) => Some(v@),
            None => None,
        }),
{
    let ghost v0 = views(errors@);
    let ghost im = match img {
        Some(v) => Some(v@),
        None => None,
    };
    check_showcase_text(s, errors);
    check_showcase_source(rs, s, img, errors);
    proof {
        lemma_extend(v0, showcase_text_findings(*s), showcase_source_findings(rs@, *s, im));
    }
}

/// What the checks of showcase `i` record, in order.
pub open spec fn showcase_entry_findings(
    rs: Seq<RepositoryRecord>,
    ss: Seq<ShowcaseRecord>,
    imgs: Seq<(String, Vec<u8>)>,
    i: int,
) -> Seq<Seq<char>> {
    let s = ss[i];
    let repo = s.repository@;
    showcase_findings(rs, s, image_for(imgs, s.image@)) + flag(
        showcase_repositories(ss).take(i).contains(repo),
        "duplicate showcase repository "@ + repo,
    ) + flag(
        s.order != 0 && showcase_orders(ss).take(i).contains(s.order),
        "showcase "@ + repo + " has a zero or duplicate order"@,
    ) + flag(showcase_images(ss).take(i).contains(s.image@), "showcase "@ + repo + " repeats an image path"@)
}

/// What the checks of the first `n` showcases record, in order.
pub open spec fn showcase_entries_findings(
    rs: Seq<RepositoryRecord>,
    ss: Seq<ShowcaseRecord>,
    imgs: Seq<(String, Vec<u8>)>,
    n: int,
) -> Seq<Seq<char>>
    decreases n,
{
    if n <= 0 {
        Seq::empty()
    } else {
        showcase_entries_findings(rs, ss, imgs, n - 1) + showcase_entry_findings(rs, ss, imgs, n - 1)
    }
}

/// What the checks of the showcase manifest record, in the order they run.
pub open spec fn showcases_findings(m: ShowcaseManifest, imgs: Seq<(String, Vec<u8>)>, a: Authority) -> Seq<Seq<char>> {
    let ss = m.showcase@;
    flag(ss.len() == 0, "showcase authority has no records"@) + showcase_entries_findings(
        a.repositories.repository@,
        ss,
        imgs,
        ss.len() as int,
    )
}

impl ShowcaseManifest {
    /// Keeps only the showcases whose repository is still on the authority's
    /// roster, in order.
    pub fn retain_live_repositories(&mut self, authority: &Authority)
        ensures
            final(self).showcase@ == old(self).showcase@.filter(
                |s: ShowcaseRecord| repository_ids(authority.repositories.repository@).contains(s.repository@),
            ),
    {
        let ids = repository_id_list(&authority.repositories.repository);
        let ghost pred = |s: ShowcaseRecord| repository_ids(authority.repositories.repository@).contains(s.repository@);
        let mut kept: Vec<ShowcaseRecord> = Vec::new();
        let mut i: usize = 0;
        while i < self.showcase.len()
            invariant
                i <= self.showcase.len(),
                self.showcase@ == old(self).showcase@,
                views(ids@) == repository_ids(authority.repositories.repository@),
                pred == (|s: ShowcaseRecord| repository_ids(authority.repositories.repository@).contains(s.repository@)),
                kept@ == self.showcase@.take(i as int).filter(pred),
            decreases self.showcase.len() - i,
        {
            proof {
                lemma_filter_take_step(self.showcase@, pred, i as int);
            }
            if holds_string(&ids, self.showcase[i].repository.as_str()) {
                kept.push(self.showcase[i].clone());
            }
            i = i + 1;
        }
        assert(self.showcase@.take(self.showcase.len() as int) =~= self.showcase@);
        self.showcase = kept;
    }

    /// Checks the showcases against the authority, with `images` the image
    /// files that could be read, each with its path below the assets
    /// directory. The result is `Ok` exactly when every rule holds; otherwise
    /// every violation is reported, in sorted order.
    #[verifier::spinoff_prover]
    #[verifier::rlimit(50)]
    pub fn validate(&self, images: &Vec<(String, Vec<u8>)>, authority: &Authority) -> (r: Result<(), Vec<String>>)
        ensures
            r is Ok <==> showcases_valid(*self, images@, *authority),
            r is Ok <==> showcases_findings(*self, images@, *authority).len() == 0,
            r matches Err(errors) ==> errors@.len() > 0 && sorted_text(errors@) && views(errors@).to_multiset()
                == showcases_findings(*self, images@, *authority).to_multiset(),
    {
        let mut errors: Vec<String> = Vec::new();
        let ss = &self.showcase;
        let rs = &authority.repositories.repository;
        note(&mut errors, ss.len() == 0, String::from_str("showcase authority has no records"));
        let ghost e0 = errors@.len();
        let ghost v1 = views(errors@);
        let ghost reps = showcase_repositories(ss@);
        let ghost ords = showcase_orders(ss@);
        let ghost imgs = showcase_images(ss@);
        let mut seen_repositories: Vec<String> = Vec::new();
        let mut seen_orders: Vec<u32> = Vec::new();
        let mut seen_images: Vec<String> = Vec::new();
        let mut i: usize = 0;
        while i < ss.len()
            invariant
                i <= ss.len(),
                ss == self.showcase,
                rs == authority.repositories.repository,
                reps == showcase_repositories(ss@),
                ords == showcase_orders(ss@),
                imgs == showcase_images(ss@),
                e0 <= errors@.len(),
                views(errors@) == v1 + showcase_entries_findings(rs@, ss@, images@, i as int),
                (errors@.len() == e0) <==> ((forall|j: int| 0 <= j < i ==> showcase_ok(rs@, #[trigger] ss@[j], image_for(images@, ss@[j].image@)))
                    && distinct_upto(reps, i as int) && distinct_upto(ords, i as int) && distinct_upto(imgs, i as int)),
                forall|y: Seq<char>| #[trigger] views(seen_repositories@).contains(y) <==> exists|j: int| 0 <= j < i && reps[j] == y,
                forall|y: u32| #[trigger] seen_orders@.contains(y) <==> exists|j: int| 0 <= j < i && ords[j] == y && y != 0,
                forall|y: Seq<char>| #[trigger] views(seen_images@).contains(y) <==> exists|j: int| 0 <= j < i && imgs[j] == y,
            decreases ss.len() - i,
        {
            let s = &ss[i];
            assert(reps[i as int] == s.repository@ && ords[i as int] == s.order && imgs[i as int] == s.image@);
            let ghost before = errors@.len();
            let ghost prior = views(errors@);
            let img = lookup_image(images, s.image.as_str());
            check_showcase(rs, s, img, &mut errors);
            let ghost mid = errors@.len();
            let dup_repository = remember(&mut seen_repositories, s.repository.as_str());
            note(&mut errors, dup_repository, cat2("duplicate showcase repository ", s.repository.as_str()));
            let dup_order = if s.order == 0 {
                false
            } else {
                remember_u32(&mut seen_orders, s.order)
            };
            note(&mut errors, dup_order, cat3("showcase ", s.repository.as_str(), " has a zero or duplicate order"));
            let dup_image = remember(&mut seen_images, s.image.as_str());
            note(&mut errors, dup_image, cat3("showcase ", s.repository.as_str(), " repeats an image path"));
            proof {
                assert(dup_repository == exists|j: int| 0 <= j < i && reps[j] == reps[i as int]);
                assert(dup_image == exists|j: int| 0 <= j < i && imgs[j] == imgs[i as int]);
                assert(dup_repository == reps.take(i as int).contains(reps[i as int])) by {
                    if dup_repository {
                        let j = choose|j: int| 0 <= j < i && reps[j] == reps[i as int];
                        assert(reps.take(i as int)[j] == reps[i as int]);
                    }
                }
                assert(dup_image == imgs.take(i as int).contains(imgs[i as int])) by {
                    if dup_image {
                        let j = choose|j: int| 0 <= j < i && imgs[j] == imgs[i as int];
                        assert(imgs.take(i as int)[j] == imgs[i as int]);
                    }
                }
                assert(dup_order == (s.order != 0 && ords.take(i as int).contains(ords[i as int]))) by {
                    if s.order != 0 {
                        if dup_order {
                            let j = choose|j: int| 0 <= j < i && ords[j] == s.order && s.order != 0;
                            assert(ords.take(i as int)[j] == ords[i as int]);
                        }
                        if ords.take(i as int).contains(ords[i as int]) {
                            let j = choose|j: int| 0 <= j < i && ords.take(i as int)[j] == ords[i as int];
                            assert(ords[j] == s.order);
                        }
                    }
                }
                let f0 = showcase_findings(rs@, *s, image_for(images@, s.image@));
                let f1 = flag(dup_repository, "duplicate showcase repository "@ + s.repository@);
                let f2 = flag(dup_order, "showcase "@ + s.repository@ + " has a zero or duplicate order"@);
                let f3 = flag(dup_image, "showcase "@ + s.repository@ + " repeats an image path"@);
                lemma_extend(prior, f0, f1);
                lemma_extend(prior, f0 + f1, f2);
                lemma_extend(prior, f0 + f1 + f2, f3);
                lemma_extend(v1, showcase_entries_findings(rs@, ss@, images@, i as int), showcase_entry_findings(rs@, ss@, images@, i as int));
                assert(distinct_upto(reps, i + 1) == (distinct_upto(reps, i as int) && !dup_repository));
                assert(distinct_upto(imgs, i + 1) == (distinct_upto(imgs, i as int) && !dup_image));
                if s.order != 0 {
                    assert(dup_order == exists|j: int| 0 <= j < i && ords[j] == ords[i as int]);
                    assert(distinct_upto(ords, i + 1) == (distinct_upto(ords, i as int) && !dup_order));
                }
                assert forall|y: Seq<char>| #[trigger] views(seen_repositories@).contains(y) <==> exists|j: int| 0 <= j < i + 1 && reps[j] == y by {
                    if y == reps[i as int] {
                        assert(exists|j: int| 0 <= j < i + 1 && reps[j] == y);
                    }
                }
                assert forall|y: Seq<char>| #[trigger] views(seen_images@).contains(y) <==> exists|j: int| 0 <= j < i + 1 && imgs[j] == y by {
                    if y == imgs[i as int] {
                        assert(exists|j: int| 0 <= j < i + 1 && imgs[j] == y);
                    }
                }
                assert forall|y: u32| #[trigger] seen_orders@.contains(y) <==> exists|j: int| 0 <= j < i + 1 && ords[j] == y && y != 0 by {
                    if y == ords[i as int] && y != 0 {
                        assert(exists|j: int| 0 <= j < i + 1 && ords[j] == y && y != 0);
                    }
                }
            }
            i = i + 1;
        }
        proof {
            assert(views(errors@) =~= showcases_findings(*self, images@, *authority));
            crate::text::lemma_views_len(errors@);
        }
        if errors.len() == 0 {
            Ok(())
        } else {
            let ghost unsorted = errors@;
            sort_strings(&mut errors);
            proof {
                vstd::seq_lib::to_multiset_len(unsorted);
                vstd::seq_lib::to_multiset_len(errors@);
            }
            Err(errors)
        }
    }
}



impl ShowcaseManifest {
    /// The showcases sorted by order; showcases with equal orders keep their
    /// manifest order.
    pub fn ordered(&self) -> (r: Vec<&ShowcaseRecord>)
        ensures
            exists|idx: Seq<usize>| #[trigger] stable_by_key(showcase_orders(self.showcase@), idx) && r@.len() == idx.len() && forall|k: int|
                0 <= k < idx.len() ==> *r@[k] == self.showcase@[#[trigger] idx[k] as int],
    {
        let mut keys: Vec<u32> = Vec::new();
        let mut j: usize = 0;
        while j < self.showcase.len()
            invariant
                j <= self.showcase.len(),
                keys@ == showcase_orders(self.showcase@).take(j as int),
            decreases self.showcase.len() - j,
        {
            keys.push(self.showcase[j].order);
            assert(keys@ =~= showcase_orders(self.showcase@).take(j + 1));
            j = j + 1;
        }
        assert(keys@ =~= showcase_orders(self.showcase@));
        let idx = stable_positions(&keys);
        let mut r: Vec<&ShowcaseRecord> = Vec::new();
        let mut k: usize = 0;
        while k < idx.len()
            invariant
                k <= idx.len(),
                stable_by_key(showcase_orders(self.showcase@), idx@),
                r@.len() == k,
                forall|j: int| 0 <= j < k ==> *r@[j] == self.showcase@[#[trigger] idx@[j] as int],
            decreases idx.len() - k,
        {
            r.push(&self.showcase[idx[k]]);
            k = k + 1;
        }
        r
    }

    /// The first showcase of the given repository, if any.
    pub fn for_repository(&self, repository_id: &str) -> (r: Option<&ShowcaseRecord>)
        ensures
            match r {
                Some(s) => exists|k: int| 0 <= k < self.showcase@.len() && *s == self.showcase@[k] && s.repository@ == repository_id@
                    && forall|j: int| 0 <= j < k ==> (#[trigger] self.showcase@[j]).repository@ != repository_id@,
                None => forall|j: int| 0 <= j < self.showcase@.len() ==> (#[trigger] self.showcase@[j]).repository@ != repository_id@,
            },
    {
        let mut i: usize = 0;
        while i < self.showcase.len()
            invariant
                i <= self.showcase.len(),
                forall|j: int| 0 <= j < i ==> (#[trigger] self.showcase@[j]).repository@ != repository_id@,
            decreases self.showcase.len() - i,
        {
            if str_eq(self.showcase[i].repository.as_str(), repository_id) {
                return Some(&self.showcase[i]);
            }
            i = i + 1;
        }
        None
    }
}


/// `t` is the inventory target that the ledger entry `m` expects.
pub open spec fn target_of(t: InventoryTarget, m: MigrationRecord) -> bool {
    &&& t.id == m.id
    &&& t.current_slug == m.current_slug
    &&& t.target_slug == m.target_slug
    &&& t.classification == m.classification
    &&& t.batch == m.batch
    &&& t.disposition == m.disposition
    &&& t.expected_default_branch == m.default_branch
    &&& t.expected_head == m.head
    &&& t.expected_pages_status == m.pages_status
    &&& t.expected_packages_status == m.packages_status
    &&& t.expected_actions_workflows == m.actions_workflows
    &&& t.expected_old_owner_files == m.old_owner_files
    &&& t.expected_old_owner_manifests == m.old_owner_manifests
    &&& t.license_status == m.license_status
    &&& t.provenance_status == m.provenance_status
    &&& t.sensitive_information_status == m.sensitive_information_status
    &&& t.public_scope == m.public_scope
    &&& t.publication_gate_status == m.publication_gate_status
    &&& t.history_remediation == m.history_remediation
    &&& t.local_locator == m.local_locator
    &&& t.source_aliases@ == m.source_aliases@
}

/// The inventory target of one ledger entry.
fn target_from(m: &MigrationRecord) -> (t: InventoryTarget)
    ensures
        target_of(t, *m),
{
    InventoryTarget {
        id: m.id.clone(),
        current_slug: m.current_slug.clone(),
        target_slug: clone_opt(&m.target_slug),
        classification: m.classification,
        batch: m.batch,
        disposition: m.disposition,
        expected_default_branch: m.default_branch.clone(),
        expected_head: m.head.clone(),
        expected_pages_status: m.pages_status.clone(),
        expected_packages_status: m.packages_status.clone(),
        expected_actions_workflows: m.actions_workflows,
        expected_old_owner_files: m.old_owner_files,
        expected_old_owner_manifests: m.old_owner_manifests,
        license_status: m.license_status.clone(),
        provenance_status: m.provenance_status.clone(),
        sensitive_information_status: m.sensitive_information_status.clone(),
        public_scope: clone_opt(&m.public_scope),
        publication_gate_status: m.publication_gate_status,
        history_remediation: clone_opt(&m.history_remediation),
        local_locator: clone_opt(&m.local_locator),
        source_aliases: clone_strings(&m.source_aliases),
    }
}

impl Authority {
    /// One inventory target per ledger entry, in ledger order, carrying what
    /// the inventory is expected to find.
    pub fn inventory_targets(&self) -> (r: Vec<InventoryTarget>)
        ensures
            r@.len() == self.migration.migration@.len(),
            forall|i: int| 0 <= i < r@.len() ==> target_of(#[trigger] r@[i], self.migration.migration@[i]),
    {
        let ms = &self.migration.migration;
        let mut r: Vec<InventoryTarget> = Vec::new();
        let mut i: usize = 0;
        while i < ms.len()
            invariant
                i <= ms.len(),
                r@.len() == i,
                forall|j: int| 0 <= j < i ==> target_of(#[trigger] r@[j], ms@[j]),
            decreases ms.len() - i,
        {
            r.push(target_from(&ms[i]));
            i = i + 1;
        }
        r
    }

    /// The inventory receipt, the targets and the unresolved products.
    pub fn inventory_basis(&self) -> (r: InventoryBasis)
        ensures
            r.inventory_receipt == self.migration.inventory_receipt,
            r.targets@.len() == self.migration.migration@.len(),
            forall|i: int| 0 <= i < r.targets@.len() ==> target_of(#[trigger] r.targets@[i], self.migration.migration@[i]),
            r.unresolved_products@ == self.migration.unresolved_product@,
    {
        let unresolved_products = self.migration.unresolved_product.clone();
        assert(unresolved_products@ =~= self.migration.unresolved_product@);
        InventoryBasis {
            inventory_receipt: self.migration.inventory_receipt.clone(),
            targets: self.inventory_targets(),
            unresolved_products,
        }
    }
}


/// Everything the public site is built from, checked and reconciled.
#[derive(Debug)]
pub struct PublicSiteData {
    pub authority: Authority,
    pub metadata: PublicMetadataCache,
    pub showcases: ShowcaseManifest,
    pub devices: DeviceCatalog,
}

/// `x` is what assembling the site from these inputs yields: the authority
/// reconciled with the live roster, the showcases of the repositories that
/// remain, and the metadata and devices as given.
pub open spec fn site_assembled(
    x: PublicSiteData,
    a: Authority,
    m: PublicMetadataCache,
    s: ShowcaseManifest,
    d: DeviceCatalog,
) -> bool {
    &&& x.metadata == m
    &&& x.devices == d
    &&& x.authority.migration == a.migration
    &&& (m.schema@ != live_schema() ==> x.authority.repositories.repository@ == a.repositories.repository@
        && x.authority.relations.relation@ == a.relations.relation@)
    &&& (m.schema@ == live_schema() ==> reconciled(x.authority.repositories.repository@, a.repositories.repository@, m.repository@)
        && x.authority.relations.relation@ == live_relations(a.relations.relation@, x.authority.repositories.repository@))
    &&& x.showcases.showcase@ == s.showcase@.filter(
        |r: ShowcaseRecord| repository_ids(x.authority.repositories.repository@).contains(r.repository@),
    )
}

impl PublicSiteData {
    /// Assembles the site data from the parsed inputs, `images` being the
    /// showcase image files that could be read, by path. The authority must
    /// be valid, then the metadata against it; the authority is reconciled
    /// with the live roster, the showcases of vanished repositories are
    /// dropped and the rest validated, and finally the device catalog. The
    /// first stage that fails is reported with all its violations.
    #[verifier::spinoff_prover]
    #[verifier::rlimit(50)]
    pub fn from_parts(
        authority: Authority,
        metadata: PublicMetadataCache,
        showcases: ShowcaseManifest,
        images: &Vec<(String, Vec<u8>)>,
        devices: DeviceCatalog,
    ) -> (r: Result<PublicSiteData, AuthorityError>)
        ensures
            r is Ok ==> authority_valid(authority) && metadata_valid(metadata, authority) && catalog_valid(devices) && site_assembled(
                r->Ok_0,
                authority,
                metadata,
                showcases,
                devices,
            ) && showcases_valid(r->Ok_0.showcases, images@, r->Ok_0.authority),
            r is Err ==> !authority_valid(authority) || !metadata_valid(metadata, authority) || !catalog_valid(devices) || exists|
                x: PublicSiteData,
            | #[trigger] site_assembled(x, authority, metadata, showcases, devices) && !showcases_valid(x.showcases, images@, x.authority),
            !authority_valid(authority) ==> r is Err && has_prefix(r->Err_0.message(), "authority validation failed:\n"@),
            authority_valid(authority) && !metadata_valid(metadata, authority) ==> r is Err && has_prefix(
                r->Err_0.message(),
                "public metadata validation failed:\n"@,
            ),
            r matches Err(e) ==> {
                ||| !authority_valid(authority) && exists|es: Seq<String>|
                    sorted_text(es) && #[trigger] views(es).to_multiset() == authority_findings(authority).to_multiset()
                        && e.message() == "authority validation failed:\n"@ + joined(views(es), "\n"@)
                ||| authority_valid(authority) && !metadata_valid(metadata, authority) && exists|es: Seq<String>|
                    sorted_text(es) && #[trigger] views(es).to_multiset() == metadata_findings(metadata, authority).to_multiset()
                        && e.message() == "public metadata validation failed:\n"@ + joined(views(es), "\n"@)
                ||| authority_valid(authority) && metadata_valid(metadata, authority) && exists|x: PublicSiteData, es: Seq<String>|
                    #[trigger] site_assembled(x, authority, metadata, showcases, devices) && sorted_text(es) && #[trigger] views(
                        es,
                    ).to_multiset() == showcases_findings(x.showcases, images@, x.authority).to_multiset()
                        && showcases_findings(x.showcases, images@, x.authority).len() > 0 && e.message()
                        == "showcase validation failed:\n"@ + joined(views(es), "\n"@)
                ||| authority_valid(authority) && metadata_valid(metadata, authority) && !catalog_valid(devices)
                    && e.message() == "device catalog validation failed:\n"@ + joined(catalog_findings(devices), "\n"@)
            },
    {
        match authority.validate() {
            Ok(()) => {},
            Err(errors) => {
                let e = AuthorityError::from_message(cat2("authority validation failed:\n", join(&errors, "\n").as_str()));
                proof {
                    assert(views(errors@).to_multiset() == authority_findings(authority).to_multiset());
                    reveal_strlit("authority validation failed:\n");
                    assert(e.message().subrange(0, "authority validation failed:\n"@.len() as int) =~= "authority validation failed:\n"@);
                }
                return Err(e);
            },
        }
        match metadata.validate(&authority) {
            Ok(()) => {},
            Err(errors) => {
                let e = AuthorityError::from_message(cat2("public metadata validation failed:\n", join(&errors, "\n").as_str()));
                proof {
                    assert(views(errors@).to_multiset() == metadata_findings(metadata, authority).to_multiset());
                    reveal_strlit("public metadata validation failed:\n");
                    assert(e.message().subrange(0, "public metadata validation failed:\n"@.len() as int)
                        =~= "public metadata validation failed:\n"@);
                }
                return Err(e);
            },
        }
        let ghost a0 = authority;
        let authority = authority.with_live_github_repositories(&metadata);
        let ghost s0 = showcases;
        let mut showcases = showcases;
        showcases.retain_live_repositories(&authority);
        match showcases.validate(images, &authority) {
            Ok(()) => {},
            Err(errors) => {
                let ghost x = PublicSiteData { authority, metadata, showcases, devices };
                assert(site_assembled(x, a0, metadata, s0, devices));
                assert(views(errors@).to_multiset() == showcases_findings(x.showcases, images@, x.authority).to_multiset());
                return Err(AuthorityError::from_message(cat2("showcase validation failed:\n", join(&errors, "\n").as_str())));
            },
        }
        match devices.validate() {
            Ok(()) => {},
            Err(errors) => {
                return Err(AuthorityError::from_message(cat2("device catalog validation failed:\n", join(&errors, "\n").as_str())));
            },
        }
        Ok(PublicSiteData { authority, metadata, showcases, devices })
    }
}


/// Law: after reconciling with the live roster, every relation that remains
/// joins two repositories that remain.
pub proof fn law_reconciled_relations_join_remaining_repositories(
    rels: Seq<RelationRecord>,
    out: Seq<RepositoryRecord>,
    k: int,
)
    requires
        0 <= k < live_relations(rels, out).len(),
    ensures
        repository_ids(out).contains(live_relations(rels, out)[k].source@),
        repository_ids(out).contains(live_relations(rels, out)[k].target@),
{
    rels.lemma_filter_pred(|r: RelationRecord| repository_ids(out).contains(r.source@) && repository_ids(out).contains(r.target@), k);
}

/// Law: after reconciling with the live roster, every repository is on the
/// live roster: the kept editorial records by their slug, and the fallback
/// profiles because they come from it.
pub proof fn law_reconciled_repositories_are_live(
    out: Seq<RepositoryRecord>,
    rs: Seq<RepositoryRecord>,
    live: Seq<PublicRepositoryMetadata>,
    i: int,
)
    requires
        reconciled(out, rs, live),
        0 <= i < out.len(),
    ensures
        metadata_slugs(live).contains(out[i].github_slug@),
{
    let kept = kept_repositories(rs, live);
    let found = discovered_repositories(rs, live);
    if i < kept.len() {
        rs.lemma_filter_pred(|r: RepositoryRecord| metadata_slugs(live).contains(r.github_slug@), i);
    } else {
        let j = i - kept.len();
        assert(fallback_of(out[kept.len() + j], found[j]));
        assert(found.contains(found[j]));
        live.lemma_filter_contains_rev(|m: PublicRepositoryMetadata| !repository_slugs(rs).contains(m.github_slug@), found[j]);
        let k = choose|k: int| 0 <= k < live.len() && live[k] == found[j];
        assert(metadata_slugs(live)[k] == found[j].github_slug@);
    }
}

/// Law: once the showcases are narrowed to the roster, every showcase names
/// a repository that is on it.
pub proof fn law_retained_showcases_name_roster_repositories(ss: Seq<ShowcaseRecord>, rs: Seq<RepositoryRecord>, k: int)
    requires
        0 <= k < ss.filter(|s: ShowcaseRecord| repository_ids(rs).contains(s.repository@)).len(),
    ensures
        repository_ids(rs).contains(ss.filter(|s: ShowcaseRecord| repository_ids(rs).contains(s.repository@))[k].repository@),
{
    ss.lemma_filter_pred(|s: ShowcaseRecord| repository_ids(rs).contains(s.repository@), k);
}

/// Law: a valid authority never carries an absolute or drive-qualified local
/// locator into the inventory targets.
pub proof fn law_inventory_locators_are_relative(a: Authority, targets: Seq<InventoryTarget>, i: int)
    requires
        authority_valid(a),
        targets.len() == a.migration.migration@.len(),
        forall|k: int| 0 <= k < targets.len() ==> target_of(#[trigger] targets[k], a.migration.migration@[k]),
        0 <= i < targets.len(),
        targets[i].local_locator is Some,
    ensures
        !targets[i].local_locator->0@.contains(':'),
        !targets[i].local_locator->0@.contains('\\'),
        !has_prefix(targets[i].local_locator->0@, "/"@),
{
    let m = a.migration.migration@[i];
    assert(target_of(targets[i], m));
    assert(migration_ok(m));
    let l = targets[i].local_locator->0@;
    assert(is_safe_locator(l));
    reveal_strlit("/");
    if has_prefix(l, "/"@) {
        assert(l.subrange(0, 1)[0] == l[0]);
    }
}

} // verus!
