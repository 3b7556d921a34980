//! The public device catalog: hardware records, the rules that keep them
//! honest about what is proven, and the order in which they are shown.

use vstd::prelude::*;

use crate::repositories::{is_kebab, kebab_ok};
use crate::text::{flag, lemma_extend, decimal_text, blank, cat2, cat3, cat4, cat5, contains_char, contains_str, grew, has_infix, has_parent_segment, has_prefix, is_ascii_digit, is_ascii_digit_char, is_ascii_lower, is_ascii_lower_char, is_blank, lower, lower_char, note, parent_segment, remember, remember_u32, stable_by_key, stable_positions, decimal, char_from_code, starts_with, str_eq, to_lower, views, chars_of, distinct_upto};

verus! {

/// The schema every device catalog declares.
pub const DEVICE_CATALOG_SCHEMA: &'static str = "mer3ly.device-catalog/v2";

/// The only public source repository a device record may cite.
pub const RETINUE_REPOSITORY: &'static str = "https://github.com/merely-made/retinue";

#[derive(Clone, Debug)]
pub struct DeviceCatalog {
    pub schema: String,
    pub device: Vec<DeviceRecord>,
}

#[derive(Clone, Debug)]
pub struct DeviceRecord {
    pub id: String,
    pub order: u32,
    pub name: String,
    pub role: String,
    pub summary: String,
    pub status: DeviceStatus,
    pub form: String,
    pub board: String,
    pub processor: String,
    pub radio: String,
    pub interaction: String,
    pub power: String,
    pub antenna: String,
    pub enclosure: String,
    pub recipe_state: String,
    pub source_repository: String,
    pub source_document: String,
    pub network_support: Vec<NetworkSupport>,
    pub flash_recipe: Vec<FlashRecipe>,
    pub authorization: AuthorizationRecord,
    pub sale: SaleRecord,
    pub evidence: Vec<DeviceEvidence>,
    pub open_requirement: Vec<OpenRequirement>,
}

#[derive(Clone, Copy, Debug, PartialEq, Eq, Structural, PartialOrd, Ord)]
pub enum DeviceStatus {
    Candidate,
    DevelopmentSpecimen,
    ProvenRecipe,
    AssembledPrototype,
    Sellable,
}

#[derive(Clone, Debug)]
pub struct NetworkSupport {
    pub name: String,
    pub state: NetworkSupportState,
    pub note: String,
}

#[derive(Clone, Copy, Debug, PartialEq, Eq, Structural)]
pub enum NetworkSupportState {
    Demonstrated,
    UpstreamSupported,
}

#[derive(Clone, Debug)]
pub struct FlashRecipe {
    pub package_id: String,
    pub name: String,
}

#[derive(Clone, Debug)]
pub struct AuthorizationRecord {
    pub state: AuthorizationState,
    pub device: String,
    pub antenna: String,
    pub operating_envelope: String,
    pub note: String,
}

#[derive(Clone, Copy, Debug, PartialEq, Eq, Structural)]
pub enum AuthorizationState {
    Open,
    Reviewed,
}

#[derive(Clone, Debug)]
pub struct SaleRecord {
    pub state: SaleState,
    pub note: String,
    pub purchase_url: Option<String>,
}

#[derive(Clone, Copy, Debug, PartialEq, Eq, Structural)]
pub enum SaleState {
    NotOffered,
    Available,
}

#[derive(Clone, Debug)]
pub struct DeviceEvidence {
    pub label: String,
    pub state: EvidenceState,
    pub note: String,
}

#[derive(Clone, Copy, Debug, PartialEq, Eq, Structural)]
pub enum EvidenceState {
    Proven,
    Partial,
    Open,
}

#[derive(Clone, Debug)]
pub struct OpenRequirement {
    pub label: String,
    pub note: String,
}

/// The markers of private or local material that public text may not hold,
/// after lowercasing and turning `/` into `\`.
pub open spec fn private_markers() -> Seq<Seq<char>> {
    seq![
        "c:\\users\\"@,
        "\\\\?\\"@,
        "localhost"@,
        "127.0.0.1"@,
        "192.168."@,
        "10.0."@,
        "com6"@,
        "com10"@,
    ]
}

/// ASCII lowercase, with every `/` turned into `\`.
pub open spec fn normalized(s: Seq<char>) -> Seq<char> {
    s.map_values(|c: char| if c == '/' { '\\' } else { lower_char(c) })
}

/// Text fit for the public site: not blank, and free of private markers.
pub open spec fn public_text_ok(s: Seq<char>) -> bool {
    &&& !is_blank(s)
    &&& forall|k: int| 0 <= k < private_markers().len() ==> !has_infix(normalized(s), #[trigger] private_markers()[k])
}

/// A lowercase package id: ASCII lowercase letters, digits, `.` and `-`, not
/// starting or ending with `.`.
pub open spec fn is_package_id(v: Seq<char>) -> bool {
    &&& v.len() > 0
    &&& v[0] != '.'
    &&& v[v.len() - 1] != '.'
    &&& forall|i: int| 0 <= i < v.len() ==> package_char(#[trigger] v[i])
}

pub open spec fn package_char(c: char) -> bool {
    is_ascii_lower(c) || is_ascii_digit(c) || c == '.' || c == '-'
}

/// A public, relative evidence path inside the Retinue repository.
pub open spec fn source_document_ok(v: Seq<char>) -> bool {
    &&& public_text_ok(v)
    &&& !v.contains('\\')
    &&& !has_prefix(v, "/"@)
    &&& !has_parent_segment(v)
    &&& (has_prefix(v, "design_docs/"@) || has_prefix(v, "firmware/"@))
}

/// A credential-free HTTPS URL fit for the public site.
pub open spec fn https_url_ok(v: Seq<char>) -> bool {
    &&& has_prefix(v, "https://"@)
    &&& !v.contains('@')
    &&& public_text_ok(v)
}

pub open spec fn network_ok(n: NetworkSupport) -> bool {
    public_text_ok(n.name@) && public_text_ok(n.note@)
}

pub open spec fn network_keys(ns: Seq<NetworkSupport>) -> Seq<Seq<char>> {
    ns.map_values(|n: NetworkSupport| lower(n.name@))
}

pub open spec fn recipe_ok(r: FlashRecipe) -> bool {
    is_package_id(r.package_id@) && public_text_ok(r.name@)
}

pub open spec fn recipe_names(rs: Seq<FlashRecipe>) -> Seq<Seq<char>> {
    rs.map_values(|r: FlashRecipe| lower(r.name@))
}

pub open spec fn recipe_packages(rs: Seq<FlashRecipe>) -> Seq<Seq<char>> {
    rs.map_values(|r: FlashRecipe| lower(r.package_id@))
}

pub open spec fn evidence_ok(e: DeviceEvidence) -> bool {
    public_text_ok(e.label@) && public_text_ok(e.note@)
}

pub open spec fn evidence_labels(es: Seq<DeviceEvidence>) -> Seq<Seq<char>> {
    es.map_values(|e: DeviceEvidence| lower(e.label@))
}

pub open spec fn requirement_ok(r: OpenRequirement) -> bool {
    public_text_ok(r.label@) && public_text_ok(r.note@)
}

pub open spec fn requirement_labels(rs: Seq<OpenRequirement>) -> Seq<Seq<char>> {
    rs.map_values(|r: OpenRequirement| lower(r.label@))
}

/// What is sold has been reviewed, can be bought and has no open
/// requirement; what is not sold says so, has no purchase link and discloses
/// what remains open.
pub open spec fn status_ok(d: DeviceRecord) -> bool {
    if d.status == DeviceStatus::Sellable {
        &&& d.authorization.state == AuthorizationState::Reviewed
        &&& d.sale.state == SaleState::Available
        &&& d.sale.purchase_url is Some
        &&& d.open_requirement@.len() == 0
    } else {
        &&& d.sale.state == SaleState::NotOffered
        &&& d.sale.purchase_url is None
        &&& d.open_requirement@.len() > 0
    }
}

/// The descriptive fields of a device record, which must all be public text.
pub open spec fn descriptive_fields(d: DeviceRecord) -> Seq<Seq<char>> {
    seq![
        d.name@, d.role@, d.summary@, d.form@, d.board@, d.processor@, d.radio@, d.interaction@, d.power@, d.antenna@,
        d.enclosure@, d.recipe_state@, d.authorization.device@, d.authorization.antenna@,
        d.authorization.operating_envelope@, d.authorization.note@, d.sale.note@,
    ]
}

/// One device record satisfies every rule that concerns it alone.
pub open spec fn device_ok(d: DeviceRecord) -> bool {
    let ns = d.network_support@;
    let fs = d.flash_recipe@;
    let es = d.evidence@;
    let rq = d.open_requirement@;
    &&& is_kebab(d.id@)
    &&& d.order != 0
    &&& forall|k: int| 0 <= k < descriptive_fields(d).len() ==> public_text_ok(#[trigger] descriptive_fields(d)[k])
    &&& d.source_repository@ == RETINUE_REPOSITORY@
    &&& source_document_ok(d.source_document@)
    &&& ns.len() > 0
    &&& forall|k: int| 0 <= k < ns.len() ==> network_ok(#[trigger] ns[k])
    &&& distinct_upto(network_keys(ns), ns.len() as int)
    &&& fs.len() > 0
    &&& forall|k: int| 0 <= k < fs.len() ==> recipe_ok(#[trigger] fs[k])
    &&& distinct_upto(recipe_names(fs), fs.len() as int)
    &&& distinct_upto(recipe_packages(fs), fs.len() as int)
    &&& es.len() > 0
    &&& forall|k: int| 0 <= k < es.len() ==> evidence_ok(#[trigger] es[k])
    &&& distinct_upto(evidence_labels(es), es.len() as int)
    &&& forall|k: int| 0 <= k < rq.len() ==> requirement_ok(#[trigger] rq[k])
    &&& distinct_upto(requirement_labels(rq), rq.len() as int)
    &&& status_ok(d)
    &&& (d.sale.purchase_url matches Some(u) ==> https_url_ok(u@))
}

pub open spec fn device_ids(ds: Seq<DeviceRecord>) -> Seq<Seq<char>> {
    ds.map_values(|d: DeviceRecord| d.id@)
}

pub open spec fn device_orders(ds: Seq<DeviceRecord>) -> Seq<u32> {
    ds.map_values(|d: DeviceRecord| d.order)
}

/// The catalog satisfies every rule.
pub open spec fn catalog_valid(c: DeviceCatalog) -> bool {
    let ds = c.device@;
    &&& c.schema@ == DEVICE_CATALOG_SCHEMA@
    &&& ds.len() > 0
    &&& forall|i: int| 0 <= i < ds.len() ==> device_ok(#[trigger] ds[i])
    &&& distinct_upto(device_ids(ds), ds.len() as int)
    &&& distinct_upto(device_orders(ds), ds.len() as int)
}

/// `format!("{:?}")` of a string: the quoted, escaped form of `s`.
pub uninterp spec fn debug_text(s: Seq<char>) -> Seq<char>;

/// `<str as Debug>::fmt`, through `format!("{:?}")`: the quoted and escaped
/// form of `value`, named by `debug_text`.
#[verifier::external_body]
pub(crate) fn debug_quoted(value: &str) -> (r: String)
    ensures
        r@ == debug_text(value@),
{
    format!("{value:?}")
}

/// ASCII lowercase with every `/` turned into `\`.
fn normalize(value: &str) -> (r: String)
    ensures
        r@ == normalized(value@),
{
    let cs = chars_of(value);
    let mut out = String::new();
    let mut i: usize = 0;
    while i < cs.len()
        invariant
            i <= cs.len(),
            cs@ == value@,
            out@ == normalized(value@).take(i as int),
        decreases cs.len() - i,
    {
        let c = cs[i];
        let d = if c == '/' {
            '\\'
        } else if 'A' <= c && c <= 'Z' {
            char_from_code((c as u32) + 32)
        } else {
            c
        };
        out.push(d);
        proof {
            assert(out@ =~= normalized(value@).take(i + 1));
        }
        i = i + 1;
    }
    assert(normalized(value@).take(cs.len() as int) =~= normalized(value@));
    out
}

/// What the search for the first `k` private markers in the normalized text
/// records, in order.
pub open spec fn marker_findings(label: Seq<char>, n: Seq<char>, k: int) -> Seq<Seq<char>>
    decreases k,
{
    if k <= 0 {
        Seq::empty()
    } else {
        marker_findings(label, n, k - 1) + flag(
            has_infix(n, private_markers()[k - 1]),
            label + " contains private marker "@ + debug_text(private_markers()[k - 1]),
        )
    }
}

/// What the check that a value is public text records, in order.
pub open spec fn public_text_findings(label: Seq<char>, value: Seq<char>) -> Seq<Seq<char>> {
    flag(is_blank(value), label + " must not be empty"@) + marker_findings(label, normalized(value), 8)
}

fn check_public_text(label: &str, value: &str, errors: &mut Vec<String>)
    ensures
        grew(old(errors)@, final(errors)@, public_text_ok(value@)),
        views(final(errors)@) == views(old(errors)@) + public_text_findings(label@, value@),
{
    let ghost v0 = views(errors@);
    let empty = blank(value);
    note(errors, empty, cat2(label, " must not be empty"));
    let ghost v1 = views(errors@);
    let n = normalize(value);
    let markers: [&str; 8] = ["c:\\users\\", "\\\\?\\", "localhost", "127.0.0.1", "192.168.", "10.0.", "com6", "com10"];
    let ghost start = errors@.len();
    let mut k: usize = 0;
    while k < 8
        invariant
            k <= 8,
            n@ == normalized(value@),
            forall|j: int| 0 <= j < 8 ==> (#[trigger] markers@[j])@ == private_markers()[j],
            errors@.len() >= start,
            views(errors@) == v1 + marker_findings(label@, n@, k as int),
            (errors@.len() == start) <==> forall|j: int| 0 <= j < k ==> !has_infix(n@, #[trigger] private_markers()[j]),
        decreases 8 - k,
    {
        let marker = markers[k];
        let found = contains_str(n.as_str(), marker);
        let ghost prior = views(errors@);
        let quoted = debug_quoted(marker);
        note(errors, found, cat3(label, " contains private marker ", quoted.as_str()));
        proof {
            lemma_extend(
                v1,
                marker_findings(label@, n@, k as int),
                flag(has_infix(n@, private_markers()[k as int]), label@ + " contains private marker "@ + debug_text(private_markers()[k as int])),
            );
        }
        k = k + 1;
    }
    proof {
        lemma_extend(v0, flag(empty, label@ + " must not be empty"@), marker_findings(label@, n@, 8));
    }
}

fn package_ok(value: &str) -> (r: bool)
    ensures
        r == is_package_id(value@),
{
    let cs = chars_of(value);
    if cs.len() == 0 || cs[0] == '.' || cs[cs.len() - 1] == '.' {
        return false;
    }
    let mut i: usize = 0;
    while i < cs.len()
        invariant
            i <= cs.len(),
            cs@ == value@,
            forall|j: int| 0 <= j < i ==> package_char(#[trigger] cs@[j]),
        decreases cs.len() - i,
    {
        let c = cs[i];
        if !(is_ascii_lower_char(c) || is_ascii_digit_char(c) || c == '.' || c == '-') {
            return false;
        }
        i = i + 1;
    }
    true
}

/// What the check that a value is a device slug records.
pub open spec fn device_slug_finding(label: Seq<char>, value: Seq<char>) -> Seq<Seq<char>> {
    flag(!is_kebab(value), label + " must be a lowercase ASCII slug, got "@ + debug_text(value))
}

/// What the check that a value is a package id records.
pub open spec fn package_finding(label: Seq<char>, value: Seq<char>) -> Seq<Seq<char>> {
    flag(!is_package_id(value), label + " must be a lowercase package id, got "@ + debug_text(value))
}

/// The evidence path leaves the public relative Retinue tree.
pub open spec fn evidence_path_bad(v: Seq<char>) -> bool {
    v.contains('\\') || has_prefix(v, "/"@) || has_parent_segment(v) || !(has_prefix(v, "design_docs/"@) || has_prefix(
        v,
        "firmware/"@,
    ))
}

/// What the check of a device's evidence path records, in order.
pub open spec fn source_document_findings(id: Seq<char>, value: Seq<char>) -> Seq<Seq<char>> {
    public_text_findings("device "@ + id + " source_document"@, value) + flag(
        evidence_path_bad(value),
        "device "@ + id + " source_document must be a public relative Retinue evidence path"@,
    )
}

/// What the check of a purchase URL records, in order.
pub open spec fn https_url_findings(label: Seq<char>, value: Seq<char>) -> Seq<Seq<char>> {
    flag(!has_prefix(value, "https://"@) || value.contains('@'), label + " must be a credential-free HTTPS URL"@)
        + public_text_findings(label, value)
}

fn check_device_slug(label: &str, value: &str, errors: &mut Vec<String>)
    ensures
        grew(old(errors)@, final(errors)@, is_kebab(value@)),
        views(final(errors)@) == views(old(errors)@) + device_slug_finding(label@, value@),
{
    let ok = kebab_ok(value);
    if !ok {
        let quoted = debug_quoted(value);
        note(errors, true, cat3(label, " must be a lowercase ASCII slug, got ", quoted.as_str()));
    } else {
        assert(views(errors@) =~= views(old(errors)@) + device_slug_finding(label@, value@));
    }
}

fn check_package_id(label: &str, value: &str, errors: &mut Vec<String>)
    ensures
        grew(old(errors)@, final(errors)@, is_package_id(value@)),
        views(final(errors)@) == views(old(errors)@) + package_finding(label@, value@),
{
    let ok = package_ok(value);
    if !ok {
        let quoted = debug_quoted(value);
        note(errors, true, cat3(label, " must be a lowercase package id, got ", quoted.as_str()));
    } else {
        assert(views(errors@) =~= views(old(errors)@) + package_finding(label@, value@));
    }
}

fn check_source_document(device_id: &str, value: &str, errors: &mut Vec<String>)
    ensures
        grew(old(errors)@, final(errors)@, source_document_ok(value@)),
        views(final(errors)@) == views(old(errors)@) + source_document_findings(device_id@, value@),
{
    let ghost v0 = views(errors@);
    check_public_text(cat3("device ", device_id, " source_document").as_str(), value, errors);
    let bad = contains_char(value, '\\') || starts_with(value, "/") || parent_segment(value) || !(starts_with(
        value,
        "design_docs/",
    ) || starts_with(value, "firmware/"));
    note(errors, bad, cat3("device ", device_id, " source_document must be a public relative Retinue evidence path"));
    proof {
        lemma_extend(
            v0,
            public_text_findings("device "@ + device_id@ + " source_document"@, value@),
            flag(bad, "device "@ + device_id@ + " source_document must be a public relative Retinue evidence path"@),
        );
    }
}

fn check_https_url(label: &str, value: &str, errors: &mut Vec<String>)
    ensures
        grew(old(errors)@, final(errors)@, https_url_ok(value@)),
        views(final(errors)@) == views(old(errors)@) + https_url_findings(label@, value@),
{
    let ghost v0 = views(errors@);
    let bad = !starts_with(value, "https://") || contains_char(value, '@');
    note(errors, bad, cat2(label, " must be a credential-free HTTPS URL"));
    check_public_text(label, value, errors);
    proof {
        lemma_extend(v0, flag(bad, label@ + " must be a credential-free HTTPS URL"@), public_text_findings(label@, value@));
    }
}

/// What the checks of network support record `i` record, in order.
pub open spec fn network_findings(id: Seq<char>, ns: Seq<NetworkSupport>, i: int) -> Seq<Seq<char>> {
    let n = ns[i];
    public_text_findings("device "@ + id + " network name"@, n.name@) + public_text_findings(
        "device "@ + id + " network "@ + n.name@ + " note"@,
        n.note@,
    ) + flag(network_keys(ns).take(i).contains(lower(n.name@)), "device "@ + id + " repeats network support "@ + n.name@)
}

/// What the checks of the first `k` network support records record.
pub open spec fn network_list_findings(id: Seq<char>, ns: Seq<NetworkSupport>, k: int) -> Seq<Seq<char>>
    decreases k,
{
    if k <= 0 {
        Seq::empty()
    } else {
        network_list_findings(id, ns, k - 1) + network_findings(id, ns, k - 1)
    }
}

/// What the checks of a device's network support record, in order.
pub open spec fn networks_findings(id: Seq<char>, ns: Seq<NetworkSupport>) -> Seq<Seq<char>> {
    flag(ns.len() == 0, "device "@ + id + " has no network support records"@) + network_list_findings(id, ns, ns.len() as int)
}

fn check_networks(id: &str, ns: &Vec<NetworkSupport>, errors: &mut Vec<String>)
    ensures
        grew(
            old(errors)@,
            final(errors)@,
            ns@.len() > 0 && (forall|k: int| 0 <= k < ns@.len() ==> network_ok(#[trigger] ns@[k])) && distinct_upto(
                network_keys(ns@),
                ns@.len() as int,
            ),
        ),
        views(final(errors)@) == views(old(errors)@) + networks_findings(id@, ns@),
{
    let ghost v0 = views(errors@);
    note(errors, ns.len() == 0, cat3("device ", id, " has no network support records"));
    let ghost v1 = views(errors@);
    let ghost e0 = errors@.len();
    let ghost keys = network_keys(ns@);
    let mut seen: Vec<String> = Vec::new();
    let mut i: usize = 0;
    while i < ns.len()
        invariant
            i <= ns.len(),
            keys == network_keys(ns@),
            errors@.len() >= e0,
            views(errors@) == v1 + network_list_findings(id@, ns@, i as int),
            (errors@.len() == e0) <==> ((forall|k: int| 0 <= k < i ==> network_ok(#[trigger] ns@[k])) && distinct_upto(keys, i as int)),
            forall|y: Seq<char>| #[trigger] views(seen@).contains(y) <==> exists|j: int| 0 <= j < i && keys[j] == y,
        decreases ns.len() - i,
    {
        let n = &ns[i];
        let ghost prior = views(errors@);
        check_public_text(cat3("device ", id, " network name").as_str(), n.name.as_str(), errors);
        check_public_text(cat5("device ", id, " network ", n.name.as_str(), " note").as_str(), n.note.as_str(), errors);
        let key = to_lower(n.name.as_str());
        assert(keys[i as int] == key@);
        let dup = remember(&mut seen, key.as_str());
        note(errors, dup, cat4("device ", id, " repeats network support ", n.name.as_str()));
        proof {
            assert(dup == exists|j: int| 0 <= j < i && keys[j] == keys[i as int]);
            assert(dup == keys.take(i as int).contains(keys[i as int])) by {
                if dup {
                    let j = choose|j: int| 0 <= j < i && keys[j] == keys[i as int];
                    assert(keys.take(i as int)[j] == keys[i as int]);
                }
            }
            let f1 = public_text_findings("device "@ + id@ + " network name"@, n.name@);
            let f2 = public_text_findings("device "@ + id@ + " network "@ + n.name@ + " note"@, n.note@);
            let f3 = flag(dup, "device "@ + id@ + " repeats network support "@ + n.name@);
            lemma_extend(prior, f1, f2);
            lemma_extend(prior, f1 + f2, f3);
            lemma_extend(v1, network_list_findings(id@, ns@, i as int), network_findings(id@, ns@, i as int));
            assert(distinct_upto(keys, i + 1) == (distinct_upto(keys, i as int) && !dup));
            assert forall|y: Seq<char>| #[trigger] views(seen@).contains(y) <==> exists|j: int| 0 <= j < i + 1 && keys[j] == y by {
                if y == keys[i as int] {
                    assert(exists|j: int| 0 <= j < i + 1 && keys[j] == y);
                }
            }
        }
        i = i + 1;
    }
    proof {
        lemma_extend(
            v0,
            flag(ns@.len() == 0, "device "@ + id@ + " has no network support records"@),
            network_list_findings(id@, ns@, ns@.len() as int),
        );
    }
}

/// What the checks of flash recipe `i` record, in order.
pub open spec fn recipe_findings(id: Seq<char>, fs: Seq<FlashRecipe>, i: int) -> Seq<Seq<char>> {
    let r = fs[i];
    package_finding("device "@ + id + " flash recipe package"@, r.package_id@) + public_text_findings(
        "device "@ + id + " flash recipe name"@,
        r.name@,
    ) + flag(recipe_names(fs).take(i).contains(lower(r.name@)), "device "@ + id + " repeats flash recipe "@ + r.name@) + flag(
        recipe_packages(fs).take(i).contains(lower(r.package_id@)),
        "device "@ + id + " repeats flash recipe package "@ + r.package_id@,
    )
}

/// What the checks of the first `k` flash recipes record.
pub open spec fn recipe_list_findings(id: Seq<char>, fs: Seq<FlashRecipe>, k: int) -> Seq<Seq<char>>
    decreases k,
{
    if k <= 0 {
        Seq::empty()
    } else {
        recipe_list_findings(id, fs, k - 1) + recipe_findings(id, fs, k - 1)
    }
}

/// What the checks of a device's flash recipes record, in order.
pub open spec fn recipes_findings(id: Seq<char>, fs: Seq<FlashRecipe>) -> Seq<Seq<char>> {
    flag(fs.len() == 0, "device "@ + id + " has no flash recipes"@) + recipe_list_findings(id, fs, fs.len() as int)
}

fn check_recipes(id: &str, fs: &Vec<FlashRecipe>, errors: &mut Vec<String>)
    ensures
        grew(
            old(errors)@,
            final(errors)@,
            fs@.len() > 0 && (forall|k: int| 0 <= k < fs@.len() ==> recipe_ok(#[trigger] fs@[k])) && distinct_upto(
                recipe_names(fs@),
                fs@.len() as int,
            ) && distinct_upto(recipe_packages(fs@), fs@.len() as int),
        ),
        views(final(errors)@) == views(old(errors)@) + recipes_findings(id@, fs@),
{
    let ghost v0 = views(errors@);
    note(errors, fs.len() == 0, cat3("device ", id, " has no flash recipes"));
    let ghost v1 = views(errors@);
    let ghost e0 = errors@.len();
    let ghost names = recipe_names(fs@);
    let ghost packages = recipe_packages(fs@);
    let mut seen_names: Vec<String> = Vec::new();
    let mut seen_packages: Vec<String> = Vec::new();
    let mut i: usize = 0;
    while i < fs.len()
        invariant
            i <= fs.len(),
            names == recipe_names(fs@),
            packages == recipe_packages(fs@),
            errors@.len() >= e0,
            views(errors@) == v1 + recipe_list_findings(id@, fs@, i as int),
            (errors@.len() == e0) <==> ((forall|k: int| 0 <= k < i ==> recipe_ok(#[trigger] fs@[k])) && distinct_upto(names, i as int)
                && distinct_upto(packages, i as int)),
            forall|y: Seq<char>| #[trigger] views(seen_names@).contains(y) <==> exists|j: int| 0 <= j < i && names[j] == y,
            forall|y: Seq<char>| #[trigger] views(seen_packages@).contains(y) <==> exists|j: int| 0 <= j < i && packages[j] == y,
        decreases fs.len() - i,
    {
        let r = &fs[i];
        let ghost prior = views(errors@);
        check_package_id(cat3("device ", id, " flash recipe package").as_str(), r.package_id.as_str(), errors);
        check_public_text(cat3("device ", id, " flash recipe name").as_str(), r.name.as_str(), errors);
        let name_key = to_lower(r.name.as_str());
        let package_key = to_lower(r.package_id.as_str());
        assert(names[i as int] == name_key@ && packages[i as int] == package_key@);
        let dup_name = remember(&mut seen_names, name_key.as_str());
        note(errors, dup_name, cat4("device ", id, " repeats flash recipe ", r.name.as_str()));
        let dup_package = remember(&mut seen_packages, package_key.as_str());
        note(errors, dup_package, cat4("device ", id, " repeats flash recipe package ", r.package_id.as_str()));
        proof {
            assert(dup_name == exists|j: int| 0 <= j < i && names[j] == names[i as int]);
            assert(dup_package == exists|j: int| 0 <= j < i && packages[j] == packages[i as int]);
            assert(dup_name == names.take(i as int).contains(names[i as int])) by {
                if dup_name {
                    let j = choose|j: int| 0 <= j < i && names[j] == names[i as int];
                    assert(names.take(i as int)[j] == names[i as int]);
                }
            }
            assert(dup_package == packages.take(i as int).contains(packages[i as int])) by {
                if dup_package {
                    let j = choose|j: int| 0 <= j < i && packages[j] == packages[i as int];
                    assert(packages.take(i as int)[j] == packages[i as int]);
                }
            }
            let f1 = package_finding("device "@ + id@ + " flash recipe package"@, r.package_id@);
            let f2 = public_text_findings("device "@ + id@ + " flash recipe name"@, r.name@);
            let f3 = flag(dup_name, "device "@ + id@ + " repeats flash recipe "@ + r.name@);
            let f4 = flag(dup_package, "device "@ + id@ + " repeats flash recipe package "@ + r.package_id@);
            lemma_extend(prior, f1, f2);
            lemma_extend(prior, f1 + f2, f3);
            lemma_extend(prior, f1 + f2 + f3, f4);
            lemma_extend(v1, recipe_list_findings(id@, fs@, i as int), recipe_findings(id@, fs@, i as int));
            assert(distinct_upto(names, i + 1) == (distinct_upto(names, i as int) && !dup_name));
            assert(distinct_upto(packages, i + 1) == (distinct_upto(packages, i as int) && !dup_package));
            assert forall|y: Seq<char>| #[trigger] views(seen_names@).contains(y) <==> exists|j: int| 0 <= j < i + 1 && names[j] == y by {
                if y == names[i as int] {
                    assert(exists|j: int| 0 <= j < i + 1 && names[j] == y);
                }
            }
            assert forall|y: Seq<char>| #[trigger] views(seen_packages@).contains(y) <==> exists|j: int| 0 <= j < i + 1 && packages[j]
                == y by {
                if y == packages[i as int] {
                    assert(exists|j: int| 0 <= j < i + 1 && packages[j] == y);
                }
            }
        }
        i = i + 1;
    }
    proof {
        lemma_extend(
            v0,
            flag(fs@.len() == 0, "device "@ + id@ + " has no flash recipes"@),
            recipe_list_findings(id@, fs@, fs@.len() as int),
        );
    }
}

/// What the checks of evidence record `i` record, in order.
pub open spec fn evidence_findings(id: Seq<char>, es: Seq<DeviceEvidence>, i: int) -> Seq<Seq<char>> {
    let e = es[i];
    public_text_findings("device "@ + id + " evidence label"@, e.label@) + public_text_findings(
        "device "@ + id + " evidence "@ + e.label@ + " note"@,
        e.note@,
    ) + flag(evidence_labels(es).take(i).contains(lower(e.label@)), "device "@ + id + " repeats evidence label "@ + e.label@)
}

/// What the checks of the first `k` evidence records record.
pub open spec fn evidence_list_findings(id: Seq<char>, es: Seq<DeviceEvidence>, k: int) -> Seq<Seq<char>>
    decreases k,
{
    if k <= 0 {
        Seq::empty()
    } else {
        evidence_list_findings(id, es, k - 1) + evidence_findings(id, es, k - 1)
    }
}

/// What the checks of a device's evidence record, in order.
pub open spec fn evidences_findings(id: Seq<char>, es: Seq<DeviceEvidence>) -> Seq<Seq<char>> {
    flag(es.len() == 0, "device "@ + id + " has no evidence records"@) + evidence_list_findings(id, es, es.len() as int)
}

fn check_evidence(id: &str, es: &Vec<DeviceEvidence>, errors: &mut Vec<String>)
    ensures
        grew(
            old(errors)@,
            final(errors)@,
            es@.len() > 0 && (forall|k: int| 0 <= k < es@.len() ==> evidence_ok(#[trigger] es@[k])) && distinct_upto(
                evidence_labels(es@),
                es@.len() as int,
            ),
        ),
        views(final(errors)@) == views(old(errors)@) + evidences_findings(id@, es@),
{
    let ghost v0 = views(errors@);
    note(errors, es.len() == 0, cat3("device ", id, " has no evidence records"));
    let ghost v1 = views(errors@);
    let ghost e0 = errors@.len();
    let ghost keys = evidence_labels(es@);
    let mut seen: Vec<String> = Vec::new();
    let mut i: usize = 0;
    while i < es.len()
        invariant
            i <= es.len(),
            keys == evidence_labels(es@),
            errors@.len() >= e0,
            views(errors@) == v1 + evidence_list_findings(id@, es@, i as int),
            (errors@.len() == e0) <==> ((forall|k: int| 0 <= k < i ==> evidence_ok(#[trigger] es@[k])) && distinct_upto(keys, i as int)),
            forall|y: Seq<char>| #[trigger] views(seen@).contains(y) <==> exists|j: int| 0 <= j < i && keys[j] == y,
        decreases es.len() - i,
    {
        let e = &es[i];
        let ghost prior = views(errors@);
        check_public_text(cat3("device ", id, " evidence label").as_str(), e.label.as_str(), errors);
        check_public_text(cat5("device ", id, " evidence ", e.label.as_str(), " note").as_str(), e.note.as_str(), errors);
        let key = to_lower(e.label.as_str());
        assert(keys[i as int] == key@);
        let dup = remember(&mut seen, key.as_str());
        note(errors, dup, cat4("device ", id, " repeats evidence label ", e.label.as_str()));
        proof {
            assert(dup == exists|j: int| 0 <= j < i && keys[j] == keys[i as int]);
            assert(dup == keys.take(i as int).contains(keys[i as int])) by {
                if dup {
                    let j = choose|j: int| 0 <= j < i && keys[j] == keys[i as int];
                    assert(keys.take(i as int)[j] == keys[i as int]);
                }
            }
            let f1 = public_text_findings("device "@ + id@ + " evidence label"@, e.label@);
            let f2 = public_text_findings("device "@ + id@ + " evidence "@ + e.label@ + " note"@, e.note@);
            let f3 = flag(dup, "device "@ + id@ + " repeats evidence label "@ + e.label@);
            lemma_extend(prior, f1, f2);
            lemma_extend(prior, f1 + f2, f3);
            lemma_extend(v1, evidence_list_findings(id@, es@, i as int), evidence_findings(id@, es@, i as int));
            assert(distinct_upto(keys, i + 1) == (distinct_upto(keys, i as int) && !dup));
            assert forall|y: Seq<char>| #[trigger] views(seen@).contains(y) <==> exists|j: int| 0 <= j < i + 1 && keys[j] == y by {
                if y == keys[i as int] {
                    assert(exists|j: int| 0 <= j < i + 1 && keys[j] == y);
                }
            }
        }
        i = i + 1;
    }
    proof {
        lemma_extend(
            v0,
            flag(es@.len() == 0, "device "@ + id@ + " has no evidence records"@),
            evidence_list_findings(id@, es@, es@.len() as int),
        );
    }
}

/// What the checks of open requirement `i` record, in order.
pub open spec fn requirement_findings(id: Seq<char>, rq: Seq<OpenRequirement>, i: int) -> Seq<Seq<char>> {
    let r = rq[i];
    public_text_findings("device "@ + id + " requirement label"@, r.label@) + public_text_findings(
        "device "@ + id + " requirement "@ + r.label@ + " note"@,
        r.note@,
    ) + flag(
        requirement_labels(rq).take(i).contains(lower(r.label@)),
        "device "@ + id + " repeats requirement label "@ + r.label@,
    )
}

/// What the checks of the first `k` open requirements record.
pub open spec fn requirements_findings(id: Seq<char>, rq: Seq<OpenRequirement>, k: int) -> Seq<Seq<char>>
    decreases k,
{
    if k <= 0 {
        Seq::empty()
    } else {
        requirements_findings(id, rq, k - 1) + requirement_findings(id, rq, k - 1)
    }
}

fn check_requirements(id: &str, rq: &Vec<OpenRequirement>, errors: &mut Vec<String>)
    ensures
        grew(
            old(errors)@,
            final(errors)@,
            (forall|k: int| 0 <= k < rq@.len() ==> requirement_ok(#[trigger] rq@[k])) && distinct_upto(
                requirement_labels(rq@),
                rq@.len() as int,
            ),
        ),
        views(final(errors)@) == views(old(errors)@) + requirements_findings(id@, rq@, rq@.len() as int),
{
    let ghost v1 = views(errors@);
    let ghost e0 = errors@.len();
    let ghost keys = requirement_labels(rq@);
    let mut seen: Vec<String> = Vec::new();
    let mut i: usize = 0;
    while i < rq.len()
        invariant
            i <= rq.len(),
            keys == requirement_labels(rq@),
            errors@.len() >= e0,
            views(errors@) == v1 + requirements_findings(id@, rq@, i as int),
            (errors@.len() == e0) <==> ((forall|k: int| 0 <= k < i ==> requirement_ok(#[trigger] rq@[k])) && distinct_upto(keys, i as int)),
            forall|y: Seq<char>| #[trigger] views(seen@).contains(y) <==> exists|j: int| 0 <= j < i && keys[j] == y,
        decreases rq.len() - i,
    {
        let r = &rq[i];
        let ghost prior = views(errors@);
        check_public_text(cat3("device ", id, " requirement label").as_str(), r.label.as_str(), errors);
        check_public_text(cat5("device ", id, " requirement ", r.label.as_str(), " note").as_str(), r.note.as_str(), errors);
        let key = to_lower(r.label.as_str());
        assert(keys[i as int] == key@);
        let dup = remember(&mut seen, key.as_str());
        note(errors, dup, cat4("device ", id, " repeats requirement label ", r.label.as_str()));
        proof {
            assert(dup == exists|j: int| 0 <= j < i && keys[j] == keys[i as int]);
            assert(dup == keys.take(i as int).contains(keys[i as int])) by {
                if dup {
                    let j = choose|j: int| 0 <= j < i && keys[j] == keys[i as int];
                    assert(keys.take(i as int)[j] == keys[i as int]);
                }
            }
            let f1 = public_text_findings("device "@ + id@ + " requirement label"@, r.label@);
            let f2 = public_text_findings("device "@ + id@ + " requirement "@ + r.label@ + " note"@, r.note@);
            let f3 = flag(dup, "device "@ + id@ + " repeats requirement label "@ + r.label@);
            lemma_extend(prior, f1, f2);
            lemma_extend(prior, f1 + f2, f3);
            lemma_extend(v1, requirements_findings(id@, rq@, i as int), requirement_findings(id@, rq@, i as int));
            assert(distinct_upto(keys, i + 1) == (distinct_upto(keys, i as int) && !dup));
            assert forall|y: Seq<char>| #[trigger] views(seen@).contains(y) <==> exists|j: int| 0 <= j < i + 1 && keys[j] == y by {
                if y == keys[i as int] {
                    assert(exists|j: int| 0 <= j < i + 1 && keys[j] == y);
                }
            }
        }
        i = i + 1;
    }
}

/// What the check of a device's sale and authorization state records, in
/// order.
pub open spec fn status_findings(d: DeviceRecord) -> Seq<Seq<char>> {
    let id = d.id@;
    if d.status == DeviceStatus::Sellable {
        flag(d.authorization.state != AuthorizationState::Reviewed, "sellable device "@ + id + " requires reviewed authorization"@)
            + flag(d.sale.state != SaleState::Available, "sellable device "@ + id + " requires an available sale record"@) + flag(
            d.sale.purchase_url is None,
            "sellable device "@ + id + " requires a purchase_url"@,
        ) + flag(d.open_requirement@.len() != 0, "sellable device "@ + id + " still has open requirements"@)
    } else {
        flag(d.sale.state != SaleState::NotOffered, "non-sellable device "@ + id + " must be marked not-offered"@) + flag(
            d.sale.purchase_url is Some,
            "non-sellable device "@ + id + " cannot have a purchase_url"@,
        ) + flag(d.open_requirement@.len() == 0, "non-sellable device "@ + id + " must disclose open requirements"@)
    }
}

fn check_status(d: &DeviceRecord, errors: &mut Vec<String>)
    ensures
        grew(old(errors)@, final(errors)@, status_ok(*d)),
        views(final(errors)@) == views(old(errors)@) + status_findings(*d),
{
    let ghost v0 = views(errors@);
    let id = d.id.as_str();
    let ghost i = d.id@;
    if d.status == DeviceStatus::Sellable {
        note(
            errors,
            d.authorization.state != AuthorizationState::Reviewed,
            cat3("sellable device ", id, " requires reviewed authorization"),
        );
        note(errors, d.sale.state != SaleState::Available, cat3("sellable device ", id, " requires an available sale record"));
        note(errors, d.sale.purchase_url.is_none(), cat3("sellable device ", id, " requires a purchase_url"));
        note(errors, d.open_requirement.len() != 0, cat3("sellable device ", id, " still has open requirements"));
        proof {
            let f1 = flag(d.authorization.state != AuthorizationState::Reviewed, "sellable device "@ + i + " requires reviewed authorization"@);
            let f2 = flag(d.sale.state != SaleState::Available, "sellable device "@ + i + " requires an available sale record"@);
            let f3 = flag(d.sale.purchase_url is None, "sellable device "@ + i + " requires a purchase_url"@);
            let f4 = flag(d.open_requirement@.len() != 0, "sellable device "@ + i + " still has open requirements"@);
            lemma_extend(v0, f1, f2);
            lemma_extend(v0, f1 + f2, f3);
            lemma_extend(v0, f1 + f2 + f3, f4);
        }
    } else {
        note(errors, d.sale.state != SaleState::NotOffered, cat3("non-sellable device ", id, " must be marked not-offered"));
        note(errors, d.sale.purchase_url.is_some(), cat3("non-sellable device ", id, " cannot have a purchase_url"));
        note(errors, d.open_requirement.len() == 0, cat3("non-sellable device ", id, " must disclose open requirements"));
        proof {
            let f1 = flag(d.sale.state != SaleState::NotOffered, "non-sellable device "@ + i + " must be marked not-offered"@);
            let f2 = flag(d.sale.purchase_url is Some, "non-sellable device "@ + i + " cannot have a purchase_url"@);
            let f3 = flag(d.open_requirement@.len() == 0, "non-sellable device "@ + i + " must disclose open requirements"@);
            lemma_extend(v0, f1, f2);
            lemma_extend(v0, f1 + f2, f3);
        }
    }
}

/// The names of the descriptive fields, as findings name them.
pub open spec fn descriptive_names() -> Seq<Seq<char>> {
    seq![
        "name"@, "role"@, "summary"@, "form"@, "board"@, "processor"@, "radio"@, "interaction"@, "power"@, "antenna"@,
        "enclosure"@, "recipe_state"@, "authorization device"@, "authorization antenna"@,
        "authorization operating_envelope"@, "authorization note"@, "sale note"@,
    ]
}

/// What the checks of the descriptive fields from `lo` up to `hi` record.
pub open spec fn descriptions_findings(d: DeviceRecord, lo: int, hi: int) -> Seq<Seq<char>>
    decreases hi - lo,
{
    if hi <= lo {
        Seq::empty()
    } else {
        descriptions_findings(d, lo, hi - 1) + public_text_findings(
            "device "@ + d.id@ + " "@ + descriptive_names()[hi - 1],
            descriptive_fields(d)[hi - 1],
        )
    }
}

/// Checks the descriptive fields of a device from `lo` up to `hi`.
fn check_descriptions(d: &DeviceRecord, lo: usize, hi: usize, errors: &mut Vec<String>)
    requires
        lo <= hi <= 17,
    ensures
        grew(
            old(errors)@,
            final(errors)@,
            forall|k: int| lo <= k < hi ==> public_text_ok(#[trigger] descriptive_fields(*d)[k]),
        ),
        views(final(errors)@) == views(old(errors)@) + descriptions_findings(*d, lo as int, hi as int),
{
    let id = d.id.as_str();
    let fields: [(&str, &str); 17] = [
        ("name", d.name.as_str()),
        ("role", d.role.as_str()),
        ("summary", d.summary.as_str()),
        ("form", d.form.as_str()),
        ("board", d.board.as_str()),
        ("processor", d.processor.as_str()),
        ("radio", d.radio.as_str()),
        ("interaction", d.interaction.as_str()),
        ("power", d.power.as_str()),
        ("antenna", d.antenna.as_str()),
        ("enclosure", d.enclosure.as_str()),
        ("recipe_state", d.recipe_state.as_str()),
        ("authorization device", d.authorization.device.as_str()),
        ("authorization antenna", d.authorization.antenna.as_str()),
        ("authorization operating_envelope", d.authorization.operating_envelope.as_str()),
        ("authorization note", d.authorization.note.as_str()),
        ("sale note", d.sale.note.as_str()),
    ];
    assert forall|j: int| 0 <= j < 17 implies (#[trigger] fields@[j]).1@ == descriptive_fields(*d)[j] by {}
    assert forall|j: int| 0 <= j < 17 implies (#[trigger] fields@[j]).0@ == descriptive_names()[j] by {}
    let ghost e0 = errors@.len();
    let ghost v0 = views(errors@);
    let mut k: usize = lo;
    while k < hi
        invariant
            lo <= k <= hi <= 17,
            id@ == d.id@,
            forall|j: int| 0 <= j < 17 ==> (#[trigger] fields@[j]).1@ == descriptive_fields(*d)[j],
            forall|j: int| 0 <= j < 17 ==> (#[trigger] fields@[j]).0@ == descriptive_names()[j],
            descriptive_fields(*d).len() == 17,
            errors@.len() >= e0,
            views(errors@) == v0 + descriptions_findings(*d, lo as int, k as int),
            (errors@.len() == e0) <==> forall|j: int| lo <= j < k ==> public_text_ok(#[trigger] descriptive_fields(*d)[j]),
        decreases hi - k,
    {
        let (field, value) = fields[k];
        assert(field@ == descriptive_names()[k as int] && value@ == descriptive_fields(*d)[k as int]);
        let ghost prior = views(errors@);
        let label = cat4("device ", id, " ", field);
        check_public_text(label.as_str(), value, errors);
        proof {
            assert(descriptions_findings(*d, lo as int, k + 1) == descriptions_findings(*d, lo as int, k as int)
                + public_text_findings("device "@ + d.id@ + " "@ + descriptive_names()[k as int], descriptive_fields(*d)[k as int]));
            lemma_extend(
                v0,
                descriptions_findings(*d, lo as int, k as int),
                public_text_findings("device "@ + d.id@ + " "@ + descriptive_names()[k as int], descriptive_fields(*d)[k as int]),
            );
        }
        k = k + 1;
    }
}

/// What the check of a device's purchase URL, where it has one, records.
pub open spec fn purchase_url_findings(d: DeviceRecord) -> Seq<Seq<char>> {
    match d.sale.purchase_url {
        Some(u) => https_url_findings("device "@ + d.id@ + " purchase_url"@, u@),
        None => Seq::empty(),
    }
}

/// What the checks of a device's content, past its id and order, record,
/// in order.
pub open spec fn device_content_findings(d: DeviceRecord) -> Seq<Seq<char>> {
    let id = d.id@;
    descriptions_findings(d, 0, 12) + flag(
        d.source_repository@ != RETINUE_REPOSITORY@,
        "device "@ + id + " source_repository must be the public Retinue repository"@,
    ) + source_document_findings(id, d.source_document@) + networks_findings(id, d.network_support@) + recipes_findings(
        id,
        d.flash_recipe@,
    ) + descriptions_findings(d, 12, 17) + evidences_findings(id, d.evidence@) + requirements_findings(
        id,
        d.open_requirement@,
        d.open_requirement@.len() as int,
    ) + status_findings(d) + purchase_url_findings(d)
}

/// The device's content, past its id and order, satisfies every rule.
pub open spec fn device_content_ok(d: DeviceRecord) -> bool {
    let ns = d.network_support@;
    let fs = d.flash_recipe@;
    let es = d.evidence@;
    let rq = d.open_requirement@;
    &&& forall|k: int| 0 <= k < descriptive_fields(d).len() ==> public_text_ok(#[trigger] descriptive_fields(d)[k])
    &&& d.source_repository@ == RETINUE_REPOSITORY@
    &&& source_document_ok(d.source_document@)
    &&& ns.len() > 0
    &&& forall|k: int| 0 <= k < ns.len() ==> network_ok(#[trigger] ns[k])
    &&& distinct_upto(network_keys(ns), ns.len() as int)
    &&& fs.len() > 0
    &&& forall|k: int| 0 <= k < fs.len() ==> recipe_ok(#[trigger] fs[k])
    &&& distinct_upto(recipe_names(fs), fs.len() as int)
    &&& distinct_upto(recipe_packages(fs), fs.len() as int)
    &&& es.len() > 0
    &&& forall|k: int| 0 <= k < es.len() ==> evidence_ok(#[trigger] es[k])
    &&& distinct_upto(evidence_labels(es), es.len() as int)
    &&& forall|k: int| 0 <= k < rq.len() ==> requirement_ok(#[trigger] rq[k])
    &&& distinct_upto(requirement_labels(rq), rq.len() as int)
    &&& status_ok(d)
    &&& (d.sale.purchase_url matches Some(u) ==> https_url_ok(u@))
}

/// Checks the rules that concern a device's content alone.
fn check_device_content(d: &DeviceRecord, errors: &mut Vec<String>)
    ensures
        grew(old(errors)@, final(errors)@, device_content_ok(*d)),
        views(final(errors)@) == views(old(errors)@) + device_content_findings(*d),
{
    let ghost v0 = views(errors@);
    let ghost e0 = errors@.len();
    let id = d.id.as_str();
    check_descriptions(d, 0, 12, errors);
    let ghost mut acc = descriptions_findings(*d, 0, 12);
    let wrong_source = !str_eq(d.source_repository.as_str(), "https://github.com/merely-made/retinue");
    note(errors, wrong_source, cat3("device ", id, " source_repository must be the public Retinue repository"));
    proof {
        let f = flag(
            d.source_repository@ != RETINUE_REPOSITORY@,
            "device "@ + d.id@ + " source_repository must be the public Retinue repository"@,
        );
        lemma_extend(v0, acc, f);
        acc = acc + f;
    }
    check_source_document(id, d.source_document.as_str(), errors);
    proof {
        let f = source_document_findings(d.id@, d.source_document@);
        lemma_extend(v0, acc, f);
        acc = acc + f;
    }
    check_networks(id, &d.network_support, errors);
    proof {
        let f = networks_findings(d.id@, d.network_support@);
        lemma_extend(v0, acc, f);
        acc = acc + f;
    }
    check_recipes(id, &d.flash_recipe, errors);
    proof {
        let f = recipes_findings(d.id@, d.flash_recipe@);
        lemma_extend(v0, acc, f);
        acc = acc + f;
    }
    let ghost e_mid = errors@.len();
    check_descriptions(d, 12, 17, errors);
    proof {
        let f = descriptions_findings(*d, 12, 17);
        lemma_extend(v0, acc, f);
        acc = acc + f;
    }
    check_evidence(id, &d.evidence, errors);
    proof {
        let f = evidences_findings(d.id@, d.evidence@);
        lemma_extend(v0, acc, f);
        acc = acc + f;
    }
    check_requirements(id, &d.open_requirement, errors);
    proof {
        let f = requirements_findings(d.id@, d.open_requirement@, d.open_requirement@.len() as int);
        lemma_extend(v0, acc, f);
        acc = acc + f;
    }
    check_status(d, errors);
    proof {
        let f = status_findings(*d);
        lemma_extend(v0, acc, f);
        acc = acc + f;
    }
    let ghost before_url = views(errors@);
    match &d.sale.purchase_url {
        Some(url) => check_https_url(cat3("device ", id, " purchase_url").as_str(), url.as_str(), errors),
        None => {},
    }
    proof {
        let f = purchase_url_findings(*d);
        if d.sale.purchase_url is None {
            assert(views(errors@) =~= before_url + f);
        }
        lemma_extend(v0, acc, f);
        acc = acc + f;
        assert((forall|k: int| 0 <= k < descriptive_fields(*d).len() ==> public_text_ok(#[trigger] descriptive_fields(*d)[k]))
            == ((forall|k: int| 0 <= k < 12 ==> public_text_ok(#[trigger] descriptive_fields(*d)[k])) && (forall|k: int|
            12 <= k < 17 ==> public_text_ok(#[trigger] descriptive_fields(*d)[k]))));
    }
}

/// What the checks of device `i` record, in order.
pub open spec fn device_findings(ds: Seq<DeviceRecord>, i: int) -> Seq<Seq<char>> {
    let d = ds[i];
    let id = d.id@;
    device_slug_finding("device id"@, id) + flag(device_ids(ds).take(i).contains(id), "duplicate device id "@ + id) + flag(
        d.order == 0,
        "device "@ + id + " order must be positive"@,
    ) + flag(device_orders(ds).take(i).contains(d.order), "duplicate device order "@ + decimal_text(d.order as nat))
        + device_content_findings(d)
}

/// What the checks of the first `n` devices record, in order.
pub open spec fn devices_findings(ds: Seq<DeviceRecord>, n: int) -> Seq<Seq<char>>
    decreases n,
{
    if n <= 0 {
        Seq::empty()
    } else {
        devices_findings(ds, n - 1) + device_findings(ds, n - 1)
    }
}

/// What the checks of the catalog record, in order.
pub open spec fn catalog_findings(c: DeviceCatalog) -> Seq<Seq<char>> {
    flag(
        c.schema@ != DEVICE_CATALOG_SCHEMA@,
        "device catalog schema must be "@ + DEVICE_CATALOG_SCHEMA@ + (", got "@ + c.schema@),
    ) + flag(c.device@.len() == 0, "device catalog has no records"@) + devices_findings(c.device@, c.device@.len() as int)
}

impl DeviceCatalog {
    /// Checks every rule of the catalog. The result is `Ok` exactly when the
    /// catalog is valid; otherwise every violation is reported, in the order
    /// the checks run.
    #[verifier::rlimit(60)]
    pub fn validate(&self) -> (r: Result<(), Vec<String>>)
        ensures
            r is Ok <==> catalog_valid(*self),
            r is Ok <==> catalog_findings(*self).len() == 0,
            r matches Err(errors) ==> errors@.len() > 0 && views(errors@) == catalog_findings(*self),
    {
        let mut errors: Vec<String> = Vec::new();
        let schema_ok = str_eq(self.schema.as_str(), DEVICE_CATALOG_SCHEMA);
        note(&mut errors, !schema_ok, cat3("device catalog schema must be ", DEVICE_CATALOG_SCHEMA, cat2(", got ", self.schema.as_str()).as_str()));
        note(&mut errors, self.device.len() == 0, String::from_str("device catalog has no records"));
        let ds = &self.device;
        let ghost e0 = errors@.len();
        let ghost v1 = views(errors@);
        proof {
            assert(v1 =~= flag(
                self.schema@ != DEVICE_CATALOG_SCHEMA@,
                "device catalog schema must be "@ + DEVICE_CATALOG_SCHEMA@ + (", got "@ + self.schema@),
            ) + flag(self.device@.len() == 0, "device catalog has no records"@));
        }
        let ghost ids = device_ids(ds@);
        let ghost ords = device_orders(ds@);
        let mut seen_ids: Vec<String> = Vec::new();
        let mut seen_orders: Vec<u32> = Vec::new();
        let mut i: usize = 0;
        while i < ds.len()
            invariant
                i <= ds.len(),
                ds == self.device,
                ids == device_ids(ds@),
                ords == device_orders(ds@),
                errors@.len() >= e0,
                views(errors@) == v1 + devices_findings(ds@, i as int),
                (errors@.len() == e0) <==> ((forall|k: int| 0 <= k < i ==> device_ok(#[trigger] ds@[k])) && distinct_upto(ids, i as int)
                    && distinct_upto(ords, i as int)),
                forall|y: Seq<char>| #[trigger] views(seen_ids@).contains(y) <==> exists|j: int| 0 <= j < i && ids[j] == y,
                forall|y: u32| #[trigger] seen_orders@.contains(y) <==> exists|j: int| 0 <= j < i && ords[j] == y,
            decreases ds.len() - i,
        {
            let d = &ds[i];
            let ghost prior = views(errors@);
            assert(ids[i as int] == d.id@ && ords[i as int] == d.order);
            check_device_slug("device id", d.id.as_str(), &mut errors);
            let dup_id = remember(&mut seen_ids, d.id.as_str());
            note(&mut errors, dup_id, cat2("duplicate device id ", d.id.as_str()));
            note(&mut errors, d.order == 0, cat3("device ", d.id.as_str(), " order must be positive"));
            let dup_order = remember_u32(&mut seen_orders, d.order);
            note(&mut errors, dup_order, cat2("duplicate device order ", decimal(d.order as u64).as_str()));
            check_device_content(d, &mut errors);
            proof {
                assert(dup_id == exists|j: int| 0 <= j < i && ids[j] == ids[i as int]);
                assert(dup_order == exists|j: int| 0 <= j < i && ords[j] == ords[i as int]);
                assert(dup_id == ids.take(i as int).contains(ids[i as int])) by {
                    if dup_id {
                        let j = choose|j: int| 0 <= j < i && ids[j] == ids[i as int];
                        assert(ids.take(i as int)[j] == ids[i as int]);
                    }
                }
                assert(dup_order == ords.take(i as int).contains(ords[i as int])) by {
                    if dup_order {
                        let j = choose|j: int| 0 <= j < i && ords[j] == ords[i as int];
                        assert(ords.take(i as int)[j] == ords[i as int]);
                    }
                }
                let f1 = device_slug_finding("device id"@, d.id@);
                let f2 = flag(dup_id, "duplicate device id "@ + d.id@);
                let f3 = flag(d.order == 0, "device "@ + d.id@ + " order must be positive"@);
                let f4 = flag(dup_order, "duplicate device order "@ + decimal_text(d.order as nat));
                let f5 = device_content_findings(*d);
                lemma_extend(prior, f1, f2);
                lemma_extend(prior, f1 + f2, f3);
                lemma_extend(prior, f1 + f2 + f3, f4);
                lemma_extend(prior, f1 + f2 + f3 + f4, f5);
                lemma_extend(v1, devices_findings(ds@, i as int), device_findings(ds@, i as int));
                assert(device_ok(*d) == (is_kebab(d.id@) && d.order != 0 && device_content_ok(*d)));
                assert(distinct_upto(ids, i + 1) == (distinct_upto(ids, i as int) && !dup_id));
                assert(distinct_upto(ords, i + 1) == (distinct_upto(ords, i as int) && !dup_order));
                assert forall|y: Seq<char>| #[trigger] views(seen_ids@).contains(y) <==> exists|j: int| 0 <= j < i + 1 && ids[j] == y by {
                    if y == ids[i as int] {
                        assert(exists|j: int| 0 <= j < i + 1 && ids[j] == y);
                    }
                }
                assert forall|y: u32| #[trigger] seen_orders@.contains(y) <==> exists|j: int| 0 <= j < i + 1 && ords[j] == y by {
                    if y == ords[i as int] {
                        assert(exists|j: int| 0 <= j < i + 1 && ords[j] == y);
                    }
                }
            }
            i = i + 1;
        }
        proof {
            lemma_extend(
                Seq::<Seq<char>>::empty(),
                v1,
                devices_findings(ds@, ds@.len() as int),
            );
            assert(Seq::<Seq<char>>::empty() + v1 =~= v1);
            assert(views(errors@) == catalog_findings(*self));
            crate::text::lemma_views_len(errors@);
        }
        if errors.len() == 0 {
            Ok(())
        } else {
            Err(errors)
        }
    }
}

impl DeviceCatalog {
    /// The devices sorted by order; devices with equal orders keep their
    /// catalog order.
    pub fn ordered(&self) -> (r: Vec<&DeviceRecord>)
        ensures
            exists|idx: Seq<usize>| #[trigger] stable_by_key(device_orders(self.device@), idx) && r@.len() == idx.len() && forall|k: int|
                0 <= k < idx.len() ==> *r@[k] == self.device@[#[trigger] idx[k] as int],
    {
        let mut keys: Vec<u32> = Vec::new();
        let mut j: usize = 0;
        while j < self.device.len()
            invariant
                j <= self.device.len(),
                keys@ == device_orders(self.device@).take(j as int),
            decreases self.device.len() - j,
        {
            keys.push(self.device[j].order);
            assert(keys@ =~= device_orders(self.device@).take(j + 1));
            j = j + 1;
        }
        assert(keys@ =~= device_orders(self.device@));
        let idx = stable_positions(&keys);
        let mut r: Vec<&DeviceRecord> = Vec::new();
        let mut k: usize = 0;
        while k < idx.len()
            invariant
                k <= idx.len(),
                stable_by_key(device_orders(self.device@), idx@),
                r@.len() == k,
                forall|j: int| 0 <= j < k ==> *r@[j] == self.device@[#[trigger] idx@[j] as int],
            decreases idx.len() - k,
        {
            r.push(&self.device[idx[k]]);
            k = k + 1;
        }
        r
    }

    /// The first device with the given id, if any.
    pub fn by_id(&self, id: &str) -> (r: Option<&DeviceRecord>)
        ensures
            match r {
                Some(d) => exists|k: int| 0 <= k < self.device@.len() && *d == self.device@[k] && d.id@ == id@ && forall|j: int|
                    0 <= j < k ==> (#[trigger] self.device@[j]).id@ != id@,
                None => forall|j: int| 0 <= j < self.device@.len() ==> (#[trigger] self.device@[j]).id@ != id@,
            },
    {
        let mut i: usize = 0;
        while i < self.device.len()
            invariant
                i <= self.device.len(),
                forall|j: int| 0 <= j < i ==> (#[trigger] self.device@[j]).id@ != id@,
            decreases self.device.len() - i,
        {
            if str_eq(self.device[i].id.as_str(), id) {
                return Some(&self.device[i]);
            }
            i = i + 1;
        }
        None
    }
}

impl DeviceStatus {
    pub fn label(self) -> (s: &'static str)
        ensures
            s@ == match self {
                DeviceStatus::Candidate => "candidate"@,
                DeviceStatus::DevelopmentSpecimen => "development specimen"@,
                DeviceStatus::ProvenRecipe => "proven recipe"@,
                DeviceStatus::AssembledPrototype => "assembled prototype"@,
                DeviceStatus::Sellable => "available to buy"@,
            },
    {
        match self {
            DeviceStatus::Candidate => "candidate",
            DeviceStatus::DevelopmentSpecimen => "development specimen",
            DeviceStatus::ProvenRecipe => "proven recipe",
            DeviceStatus::AssembledPrototype => "assembled prototype",
            DeviceStatus::Sellable => "available to buy",
        }
    }
}

impl NetworkSupportState {
    pub fn label(self) -> (s: &'static str)
        ensures
            s@ == match self {
                NetworkSupportState::Demonstrated => "demonstrated"@,
                NetworkSupportState::UpstreamSupported => "upstream-supported"@,
            },
    {
        match self {
            NetworkSupportState::Demonstrated => "demonstrated",
            NetworkSupportState::UpstreamSupported => "upstream-supported",
        }
    }
}

impl AuthorizationState {
    pub fn label(self) -> (s: &'static str)
        ensures
            s@ == match self {
                AuthorizationState::Open => "authorization record open"@,
                AuthorizationState::Reviewed => "authorization reviewed"@,
            },
    {
        match self {
            AuthorizationState::Open => "authorization record open",
            AuthorizationState::Reviewed => "authorization reviewed",
        }
    }
}

impl SaleState {
    pub fn label(self) -> (s: &'static str)
        ensures
            s@ == match self {
                SaleState::NotOffered => "not offered for sale"@,
                SaleState::Available => "available to buy"@,
            },
    {
        match self {
            SaleState::NotOffered => "not offered for sale",
            SaleState::Available => "available to buy",
        }
    }
}

impl EvidenceState {
    pub fn label(self) -> (s: &'static str)
        ensures
            s@ == match self {
                EvidenceState::Proven => "proven"@,
                EvidenceState::Partial => "partial"@,
                EvidenceState::Open => "open"@,
            },
    {
        match self {
            EvidenceState::Proven => "proven",
            EvidenceState::Partial => "partial",
            EvidenceState::Open => "open",
        }
    }
}

/// The link a device page offers to buy the assembled device: its purchase
/// URL when the device is sellable and has one; otherwise none, and the page
/// shows the sale state as unavailable.
pub fn purchase_offer(device: &DeviceRecord) -> (r: Option<&str>)
    ensures
        r is Some <==> device.status == DeviceStatus::Sellable && device.sale.purchase_url is Some,
        r matches Some(u) ==> u@ == device.sale.purchase_url->Some_0@,
{
    if device.status == DeviceStatus::Sellable {
        match &device.sale.purchase_url {
            Some(url) => Some(url.as_str()),
            None => None,
        }
    } else {
        None
    }
}

} // verus!
