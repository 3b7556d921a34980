//! The structured data (JSON-LD) that a public page carries, read back from
//! the page and held to the authority the page projects.

use vstd::prelude::*;

use crate::artifact::{
    ExpectedSocialMetadata, count_matches, find_first, first_occurrence, matches_from, occurs_after, social_findings,
    social_findings_of, social_head_ok, social_head_ok_of, validate_social_head,
};
use crate::devices::{DeviceRecord, DeviceStatus};
use crate::repositories::{PublicMetadataCache, PublicRepositoryMetadata, RepositoryRecord};
use crate::site::{ORGANIZATION_ID, WEBSITE_ID};
use crate::text::{cat2, cat3, chars_of, flag, flag_if, grew, occurs_at, str_eq, text_between, views};

verus! {

#[verifier::external_type_specification]
#[verifier::external_body]
pub struct ExJsonValue(serde_json::Value);

/// A JSON value as the structured-data checks read it. Object members stay
/// in the order the parser hands them out.
#[derive(Debug)]
pub enum JsonValue {
    Null,
    Bool(bool),
    Number(String),
    Text(String),
    Array(Vec<JsonValue>),
    Object(Vec<(String, JsonValue)>),
}

/// What `serde_json` reads from a JSON text, where it accepts the text.
pub uninterp spec fn parsed_json(text: Seq<char>) -> Option<JsonValue>;

/// Parses `text` with `serde_json::from_str` into a `serde_json::Value` and
/// carries it over node for node; `None` where serde_json refuses the text.
/// The contract claims no more than that the outcome is fixed by the text.
#[verifier::external_body]
fn parse_json(text: &str) -> (r: Option<JsonValue>)
    ensures
        r == parsed_json(text@),
{
    match serde_json::from_str::<serde_json::Value>(text) {
        Ok(value) => Some(json_from_serde(&value)),
        Err(_) => None,
    }
}

/// Carries a `serde_json::Value` over into a `JsonValue`, one node for one;
/// the conversion half of `parse_json`, which alone calls it.
#[verifier::external_body]
fn json_from_serde(value: &serde_json::Value) -> JsonValue {
    match value {
        serde_json::Value::Null => JsonValue::Null,
        serde_json::Value::Bool(b) => JsonValue::Bool(*b),
        serde_json::Value::Number(n) => JsonValue::Number(n.to_string()),
        serde_json::Value::String(s) => JsonValue::Text(s.clone()),
        serde_json::Value::Array(items) => JsonValue::Array(items.iter().map(json_from_serde).collect()),
        serde_json::Value::Object(map) => JsonValue::Object(map.iter().map(|(k, v)| (k.clone(), json_from_serde(v))).collect()),
    }
}

/// Position `i` holds the first member named `key`.
pub open spec fn first_key(fields: Seq<(String, JsonValue)>, key: Seq<char>, i: int) -> bool {
    &&& 0 <= i < fields.len()
    &&& fields[i].0@ == key
    &&& forall|j: int| 0 <= j < i ==> (#[trigger] fields[j]).0@ != key
}

/// The member `key` of an object; nothing for any other value.
pub open spec fn member(v: JsonValue, key: Seq<char>) -> Option<JsonValue> {
    match v {
        JsonValue::Object(fields) => {
            if exists|i: int| #[trigger] first_key(fields@, key, i) {
                Some(fields@[choose|i: int| #[trigger] first_key(fields@, key, i)].1)
            } else {
                None
            }
        },
        _ => None,
    }
}

/// The member `key` of the value, if there is a value.
pub open spec fn member_of(v: Option<JsonValue>, key: Seq<char>) -> Option<JsonValue> {
    match v {
        Some(x) => member(x, key),
        None => None,
    }
}

/// The text of a string value.
pub open spec fn text_of(v: Option<JsonValue>) -> Option<Seq<char>> {
    match v {
        Some(JsonValue::Text(s)) => Some(s@),
        _ => None,
    }
}

/// The items of an array value.
pub open spec fn items_of(v: Option<JsonValue>) -> Option<Seq<JsonValue>> {
    match v {
        Some(JsonValue::Array(items)) => Some(items@),
        _ => None,
    }
}

/// The text of the member `key`.
pub open spec fn text_member(v: JsonValue, key: Seq<char>) -> Option<Seq<char>> {
    text_of(member(v, key))
}

/// The text at `/a/b`, as a JSON pointer of two member names reads it.
pub open spec fn text_path(v: JsonValue, a: Seq<char>, b: Seq<char>) -> Option<Seq<char>> {
    text_of(member_of(member(v, a), b))
}

/// The node carries the `@id` given.
pub open spec fn has_id(n: JsonValue, id: Seq<char>) -> bool {
    text_member(n, "@id"@) == Some(id)
}

/// Position `i` holds the first node with the `@id` given.
pub open spec fn first_with_id(g: Seq<JsonValue>, id: Seq<char>, i: int) -> bool {
    &&& 0 <= i < g.len()
    &&& has_id(g[i], id)
    &&& forall|j: int| 0 <= j < i ==> !has_id(#[trigger] g[j], id)
}

/// The first node of the graph with the `@id` given.
pub open spec fn node_with_id(g: Seq<JsonValue>, id: Seq<char>) -> Option<JsonValue> {
    if exists|i: int| #[trigger] first_with_id(g, id, i) {
        Some(g[choose|i: int| #[trigger] first_with_id(g, id, i)])
    } else {
        None
    }
}

/// The opening tag of a page's JSON-LD record.
pub open spec fn json_ld_marker() -> Seq<char> {
    "<script type=\"application/ld+json\">"@
}

/// The text of the page's one JSON-LD record: present exactly once and
/// closed by a later `</script>`.
pub open spec fn json_ld_text(doc: Seq<char>) -> Option<Seq<char>> {
    let marker = json_ld_marker();
    if matches_from(doc, marker, 0) != 1 || !occurs_after(doc, marker, 0) {
        None
    } else {
        let start = (choose|i: int| #[trigger] first_occurrence(doc, marker, 0, i)) + marker.len();
        if !occurs_after(doc, "</script>"@, start) {
            None
        } else {
            let end = choose|e: int| #[trigger] first_occurrence(doc, "</script>"@, start, e);
            Some(doc.subrange(start, end))
        }
    }
}

/// The value the page's JSON-LD record parses to.
pub open spec fn json_ld_value(doc: Seq<char>) -> Option<JsonValue> {
    match json_ld_text(doc) {
        Some(t) => parsed_json(t),
        None => None,
    }
}

/// The record names schema.org as its context.
pub open spec fn context_ok(v: JsonValue) -> bool {
    text_member(v, "@context"@) == Some("https://schema.org"@)
}

/// The nodes of the record's `@graph`.
pub open spec fn graph_items(v: JsonValue) -> Option<Seq<JsonValue>> {
    items_of(member(v, "@graph"@))
}

/// The graph carries the site's organization node.
pub open spec fn organization_ok(g: Seq<JsonValue>) -> bool {
    match node_with_id(g, ORGANIZATION_ID@) {
        Some(n) => text_member(n, "@type"@) == Some("Organization"@) && text_member(n, "name"@) == Some("Merely LLC"@),
        None => false,
    }
}

/// The graph carries the site's website node, published by the organization.
pub open spec fn website_ok(g: Seq<JsonValue>) -> bool {
    match node_with_id(g, WEBSITE_ID@) {
        Some(n) => text_member(n, "@type"@) == Some("WebSite"@) && text_path(n, "publisher"@, "@id"@) == Some(ORGANIZATION_ID@),
        None => false,
    }
}

/// The graph carries the page node at `canonical`, about `about` and part of
/// the website.
pub open spec fn page_ok(g: Seq<JsonValue>, canonical: Seq<char>, about: Seq<char>) -> bool {
    match node_with_id(g, canonical) {
        Some(p) => {
            &&& text_member(p, "@type"@) == Some("WebPage"@)
            &&& text_path(p, "about"@, "@id"@) == Some(about)
            &&& text_path(p, "isPartOf"@, "@id"@) == Some(WEBSITE_ID@)
        },
        None => false,
    }
}

/// The record of a page parses, names its context, holds a graph, and the
/// graph carries the organization and website nodes.
pub open spec fn base_record_ok(doc: Seq<char>) -> bool {
    match json_ld_value(doc) {
        Some(v) => context_ok(v) && match graph_items(v) {
            Some(g) => organization_ok(g) && website_ok(g),
            None => false,
        },
        None => false,
    }
}

/// The first public metadata record for the repository id.
pub open spec fn first_metadata(ms: Seq<PublicRepositoryMetadata>, id: Seq<char>, i: int) -> bool {
    &&& 0 <= i < ms.len()
    &&& ms[i].id@ == id
    &&& forall|j: int| 0 <= j < i ==> (#[trigger] ms[j]).id@ != id
}

/// The public metadata of the repository id, if the cache holds it.
pub open spec fn metadata_for(ms: Seq<PublicRepositoryMetadata>, id: Seq<char>) -> Option<PublicRepositoryMetadata> {
    if exists|i: int| #[trigger] first_metadata(ms, id, i) {
        Some(ms[choose|i: int| #[trigger] first_metadata(ms, id, i)])
    } else {
        None
    }
}

/// The view of an optional string.
pub open spec fn opt_view(s: Option<String>) -> Option<Seq<char>> {
    match s {
        Some(x) => Some(x@),
        None => None,
    }
}

/// The keywords of the entity agree with the topics: absent where there are
/// no topics, else the same texts in the same order.
pub open spec fn topics_ok(actual: Option<Seq<JsonValue>>, expected: Seq<Seq<char>>) -> bool {
    if expected.len() == 0 {
        actual is None
    } else {
        match actual {
            Some(a) => a.len() == expected.len() && forall|i: int| 0 <= i < a.len() ==> text_of(Some(#[trigger] a[i])) == Some(expected[i]),
            None => false,
        }
    }
}

/// The repository entity node: its type, its URL, its publisher, and its one
/// `sameAs` link to the repository.
pub open spec fn entity_ok(n: Option<JsonValue>, kind: Seq<char>, canonical: Seq<char>, url: Seq<char>) -> bool {
    match n {
        Some(x) => {
            &&& text_member(x, "@type"@) == Some(kind)
            &&& text_member(x, "url"@) == Some(canonical)
            &&& text_path(x, "publisher"@, "@id"@) == Some(ORGANIZATION_ID@)
            &&& match items_of(member(x, "sameAs"@)) {
                Some(s) => s.len() == 1 && text_of(Some(s[0])) == Some(url),
                None => false,
            }
        },
        None => false,
    }
}

/// The language the public metadata records, if any.
pub open spec fn language_of(md: Option<PublicRepositoryMetadata>) -> Option<Seq<char>> {
    match md {
        Some(x) => opt_view(x.primary_language),
        None => None,
    }
}

/// The topics the public metadata records; none without a record.
pub open spec fn topics_of(md: Option<PublicRepositoryMetadata>) -> Seq<Seq<char>> {
    match md {
        Some(x) => views(x.topics@),
        None => Seq::empty(),
    }
}

/// The source-code entity names its repository, its language and its topics
/// as the public metadata has them.
pub open spec fn source_ok(n: Option<JsonValue>, url: Seq<char>, md: Option<PublicRepositoryMetadata>) -> bool {
    &&& text_of(member_of(n, "codeRepository"@)) == Some(url)
    &&& text_of(member_of(n, "programmingLanguage"@)) == language_of(md)
    &&& topics_ok(items_of(member_of(n, "keywords"@)), topics_of(md))
}

/// The GitHub address of a repository.
pub open spec fn repository_url(r: RepositoryRecord) -> Seq<char> {
    "https://github.com/"@ + r.github_slug@
}

/// The schema.org type of a repository's entity.
pub open spec fn entity_kind(r: RepositoryRecord) -> Seq<char> {
    if r.id@ == "org-profile"@ {
        "CreativeWork"@
    } else {
        "SoftwareSourceCode"@
    }
}

/// The project-specific nodes of a profile's graph.
pub open spec fn project_nodes_ok(
    g: Seq<JsonValue>,
    r: RepositoryRecord,
    m: PublicMetadataCache,
    canonical: Seq<char>,
) -> bool {
    let entity_id = canonical + "#repository"@;
    let entity = node_with_id(g, entity_id);
    &&& page_ok(g, canonical, entity_id)
    &&& entity_ok(entity, entity_kind(r), canonical, repository_url(r))
    &&& (entity_kind(r) == "SoftwareSourceCode"@ ==> source_ok(entity, repository_url(r), metadata_for(m.repository@, r.id@)))
}

/// The structured data of a project profile holds.
pub open spec fn project_record_ok(doc: Seq<char>, r: RepositoryRecord, m: PublicMetadataCache, canonical: Seq<char>) -> bool {
    match json_ld_value(doc) {
        Some(v) => context_ok(v) && match graph_items(v) {
            Some(g) => organization_ok(g) && website_ok(g) && project_nodes_ok(g, r, m, canonical),
            None => false,
        },
        None => false,
    }
}

/// The public evidence document of a device.
pub open spec fn evidence_link(d: DeviceRecord) -> Seq<char> {
    d.source_repository@ + "/blob/main/"@ + d.source_document@
}

/// The recipe article node of a device profile.
pub open spec fn article_ok(n: Option<JsonValue>, canonical: Seq<char>, evidence: Seq<char>) -> bool {
    match n {
        Some(x) => {
            &&& text_member(x, "@type"@) == Some("TechArticle"@)
            &&& text_member(x, "url"@) == Some(canonical)
            &&& text_path(x, "publisher"@, "@id"@) == Some(ORGANIZATION_ID@)
            &&& text_member(x, "isBasedOn"@) == Some(evidence)
        },
        None => false,
    }
}

/// Some node of the graph makes an offer.
pub open spec fn offers_something(g: Seq<JsonValue>) -> bool {
    exists|i: int| 0 <= i < g.len() && (#[trigger] member(g[i], "offers"@)) is Some
}

/// The device-specific nodes of a profile's graph.
pub open spec fn device_nodes_ok(g: Seq<JsonValue>, d: DeviceRecord, canonical: Seq<char>) -> bool {
    let article_id = canonical + "#recipe"@;
    &&& page_ok(g, canonical, article_id)
    &&& article_ok(node_with_id(g, article_id), canonical, evidence_link(d))
    &&& (d.status != DeviceStatus::Sellable ==> !offers_something(g))
}

/// The structured data of a device profile holds.
pub open spec fn device_record_ok(doc: Seq<char>, d: DeviceRecord, canonical: Seq<char>) -> bool {
    match json_ld_value(doc) {
        Some(v) => context_ok(v) && match graph_items(v) {
            Some(g) => organization_ok(g) && website_ok(g) && device_nodes_ok(g, d, canonical),
            None => false,
        },
        None => false,
    }
}

/// What reading the page's JSON-LD record records: why it could not be
/// read, if it could not.
pub open spec fn json_ld_findings(doc: Seq<char>, label: Seq<char>) -> Seq<Seq<char>> {
    let marker = json_ld_marker();
    if matches_from(doc, marker, 0) != 1 || !occurs_after(doc, marker, 0) {
        seq![label + " does not have exactly one JSON-LD record"@]
    } else if json_ld_text(doc) is None {
        seq![label + " JSON-LD record is not terminated"@]
    } else if parsed_json(json_ld_text(doc)->0) is None {
        seq![label + " JSON-LD record is invalid"@]
    } else {
        Seq::empty()
    }
}

/// What the check of a record's context and graph records.
pub open spec fn schema_findings(v: JsonValue, label: Seq<char>) -> Seq<Seq<char>> {
    flag(!context_ok(v), label + " has invalid JSON-LD context"@) + flag(graph_items(v) is None, label + " has no JSON-LD graph"@)
}

/// What the check of the organization and website nodes records.
pub open spec fn base_findings(g: Seq<JsonValue>, label: Seq<char>) -> Seq<Seq<char>> {
    flag(!organization_ok(g), label + " has invalid organization structured data"@) + flag(
        !website_ok(g),
        label + " has invalid website structured data"@,
    )
}

/// What the check of a page node records.
pub open spec fn page_findings(g: Seq<JsonValue>, canonical: Seq<char>, about: Seq<char>, label: Seq<char>) -> Seq<Seq<char>> {
    flag(!page_ok(g, canonical, about), label + " has invalid WebPage structured data"@)
}

/// The entity names its repository as its source.
pub open spec fn code_ok(n: Option<JsonValue>, url: Seq<char>) -> bool {
    text_of(member_of(n, "codeRepository"@)) == Some(url)
}

/// The entity names the language the public metadata records.
pub open spec fn language_ok(n: Option<JsonValue>, md: Option<PublicRepositoryMetadata>) -> bool {
    text_of(member_of(n, "programmingLanguage"@)) == language_of(md)
}

/// What the check of a source-code entity records.
pub open spec fn source_findings(n: Option<JsonValue>, url: Seq<char>, md: Option<PublicRepositoryMetadata>, label: Seq<char>) -> Seq<Seq<char>> {
    let keywords = items_of(member_of(n, "keywords"@));
    flag(!code_ok(n, url), label + " has invalid source repository structured data"@) + flag(
        !language_ok(n, md),
        label + " has invalid language structured data"@,
    ) + if topics_of(md).len() == 0 {
        flag(keywords is Some, label + " has unexpected topic structured data"@)
    } else {
        flag(!topics_ok(keywords, topics_of(md)), label + " has invalid topic structured data"@)
    }
}

/// What the check of a profile's project nodes records.
pub open spec fn project_node_findings(
    g: Seq<JsonValue>,
    r: RepositoryRecord,
    m: PublicMetadataCache,
    canonical: Seq<char>,
    label: Seq<char>,
) -> Seq<Seq<char>> {
    let entity_id = canonical + "#repository"@;
    let entity = node_with_id(g, entity_id);
    page_findings(g, canonical, entity_id, label) + flag(
        !entity_ok(entity, entity_kind(r), canonical, repository_url(r)),
        label + " has invalid repository structured data"@,
    ) + if entity_kind(r) == "SoftwareSourceCode"@ {
        source_findings(entity, repository_url(r), metadata_for(m.repository@, r.id@), label)
    } else {
        Seq::empty()
    }
}

/// What the check of a project profile's structured data records, in order.
pub open spec fn project_record_findings(
    doc: Seq<char>,
    label: Seq<char>,
    r: RepositoryRecord,
    m: PublicMetadataCache,
    canonical: Seq<char>,
) -> Seq<Seq<char>> {
    json_ld_findings(doc, label) + match json_ld_value(doc) {
        Some(v) => schema_findings(v, label) + match graph_items(v) {
            Some(g) => base_findings(g, label) + project_node_findings(g, r, m, canonical, label),
            None => Seq::empty(),
        },
        None => Seq::empty(),
    }
}

/// What the check of a profile's device nodes records.
pub open spec fn device_node_findings(g: Seq<JsonValue>, d: DeviceRecord, canonical: Seq<char>, label: Seq<char>) -> Seq<Seq<char>> {
    let article_id = canonical + "#recipe"@;
    page_findings(g, canonical, article_id, label) + flag(
        !article_ok(node_with_id(g, article_id), canonical, evidence_link(d)),
        label + " has invalid TechArticle structured data"@,
    ) + flag(d.status != DeviceStatus::Sellable && offers_something(g), label + " publishes an Offer for a non-sellable device"@)
}

/// What the check of a device profile's structured data records, in order.
pub open spec fn device_record_findings(doc: Seq<char>, label: Seq<char>, d: DeviceRecord, canonical: Seq<char>) -> Seq<Seq<char>> {
    json_ld_findings(doc, label) + match json_ld_value(doc) {
        Some(v) => schema_findings(v, label) + match graph_items(v) {
            Some(g) => base_findings(g, label) + device_node_findings(g, d, canonical, label),
            None => Seq::empty(),
        },
        None => Seq::empty(),
    }
}

/// What the check of a fixed page's structured data records, in order.
pub open spec fn fixed_record_findings(doc: Seq<char>, label: Seq<char>) -> Seq<Seq<char>> {
    json_ld_findings(doc, label) + match json_ld_value(doc) {
        Some(v) => schema_findings(v, label) + match graph_items(v) {
            Some(g) => base_findings(g, label),
            None => Seq::empty(),
        },
        None => Seq::empty(),
    }
}

/// The member `key` of an object value.
fn member_ref<'a>(v: &'a JsonValue, key: &str) -> (r: Option<&'a JsonValue>)
    ensures
        match r {
            Some(x) => member(*v, key@) == Some(*x),
            None => member(*v, key@) is None,
        },
{
    match v {
        JsonValue::Object(fields) => {
            let mut i: usize = 0;
            while i < fields.len()
                invariant
                    *v == JsonValue::Object(*fields),
                    i <= fields@.len(),
                    forall|j: int| 0 <= j < i ==> (#[trigger] fields@[j]).0@ != key@,
                decreases fields.len() - i,
            {
                if str_eq(fields[i].0.as_str(), key) {
                    proof {
                        assert(first_key(fields@, key@, i as int));
                        let c = choose|c: int| #[trigger] first_key(fields@, key@, c);
                        if c < i {
                            assert(fields@[c].0@ != key@);
                        } else if c > i {
                            assert(fields@[i as int].0@ != key@);
                        }
                        assert(c == i);
                        assert(exists|k: int| #[trigger] first_key(fields@, key@, k));
                        assert(member(*v, key@) == Some(fields@[i as int].1));
                    }
                    let r = &fields[i].1;
                    assert(*r == fields@[i as int].1);
                    return Some(r);
                }
                i = i + 1;
            }
            proof {
                assert forall|c: int| !#[trigger] first_key(fields@, key@, c) by {}
            }
            None
        },
        _ => None,
    }
}

/// Whether the member `key` of the value is the text `expected`.
fn text_member_is(v: &JsonValue, key: &str, expected: &str) -> (r: bool)
    ensures
        r == (text_member(*v, key@) == Some(expected@)),
{
    match member_ref(v, key) {
        Some(JsonValue::Text(s)) => str_eq(s.as_str(), expected),
        _ => false,
    }
}

/// Whether the text at `/a/b` in the value is `expected`.
fn text_path_is(v: &JsonValue, a: &str, b: &str, expected: &str) -> (r: bool)
    ensures
        r == (text_path(*v, a@, b@) == Some(expected@)),
{
    match member_ref(v, a) {
        Some(inner) => text_member_is(inner, b, expected),
        None => false,
    }
}

/// The first node of the graph with the `@id` given.
fn node_with_id_ref<'a>(graph: &'a Vec<JsonValue>, id: &str) -> (r: Option<&'a JsonValue>)
    ensures
        match r {
            Some(n) => node_with_id(graph@, id@) == Some(*n),
            None => node_with_id(graph@, id@) is None,
        },
{
    let mut i: usize = 0;
    while i < graph.len()
        invariant
            i <= graph@.len(),
            forall|j: int| 0 <= j < i ==> !has_id(#[trigger] graph@[j], id@),
        decreases graph.len() - i,
    {
        if text_member_is(&graph[i], "@id", id) {
            proof {
                assert(first_with_id(graph@, id@, i as int));
                let c = choose|c: int| #[trigger] first_with_id(graph@, id@, c);
                if c < i {
                    assert(!has_id(graph@[c], id@));
                } else if c > i {
                    assert(!has_id(graph@[i as int], id@));
                }
            }
            return Some(&graph[i]);
        }
        i = i + 1;
    }
    proof {
        assert forall|c: int| !#[trigger] first_with_id(graph@, id@, c) by {}
    }
    None
}

/// Reads the page's one JSON-LD record, recording why where it cannot.
pub fn parse_json_ld(document: &str, label: &str, errors: &mut Vec<String>) -> (r: Option<JsonValue>)
    ensures
        r == json_ld_value(document@),
        grew(old(errors)@, final(errors)@, r is Some),
        views(final(errors)@) == views(old(errors)@) + json_ld_findings(document@, label@),
{
    let marker = "<script type=\"application/ld+json\">";
    if count_matches(document, marker) != 1 {
        flag_if(errors, true, cat2(label, " does not have exactly one JSON-LD record"));
        return None;
    }
    let cs = chars_of(document);
    let ms = chars_of(marker);
    let close = chars_of("</script>");
    match find_first(&cs, &ms, 0) {
        None => {
            flag_if(errors, true, cat2(label, " does not have exactly one JSON-LD record"));
            None
        },
        Some(i) => {
            assert(occurs_at(cs@, ms@, i as int));
            let n = cs.len();
            let m = ms.len();
            assert(i + m <= n);
            let start = i + m;
            match find_first(&cs, &close, start) {
                None => {
                    flag_if(errors, true, cat2(label, " JSON-LD record is not terminated"));
                    None
                },
                Some(e) => {
                    let text = text_between(&cs, start, e);
                    match parse_json(text.as_str()) {
                        Some(v) => Some(v),
                        None => {
                            flag_if(errors, true, cat2(label, " JSON-LD record is invalid"));
                            None
                        },
                    }
                },
            }
        },
    }
}

/// Checks the record's context and reads its graph, recording what is amiss.
pub fn schema_graph<'a>(value: &'a JsonValue, label: &str, errors: &mut Vec<String>) -> (r: Option<&'a Vec<JsonValue>>)
    ensures
        match r {
            Some(g) => graph_items(*value) == Some(g@),
            None => graph_items(*value) is None,
        },
        grew(old(errors)@, final(errors)@, context_ok(*value) && r is Some),
        views(final(errors)@) == views(old(errors)@) + schema_findings(*value, label@),
{
    let ghost before = views(errors@);
    let context = text_member_is(value, "@context", "https://schema.org");
    flag_if(errors, !context, cat2(label, " has invalid JSON-LD context"));
    let ghost mid = views(errors@);
    match member_ref(value, "@graph") {
        Some(JsonValue::Array(items)) => {
            proof {
                assert(views(errors@) =~= before + schema_findings(*value, label@));
            }
            Some(items)
        },
        _ => {
            flag_if(errors, true, cat2(label, " has no JSON-LD graph"));
            proof {
                assert(views(errors@) =~= before + schema_findings(*value, label@));
            }
            None
        },
    }
}

/// Checks that the graph carries the site's organization and website nodes.
pub fn validate_base_schema(graph: &Vec<JsonValue>, label: &str, errors: &mut Vec<String>)
    ensures
        grew(old(errors)@, final(errors)@, organization_ok(graph@) && website_ok(graph@)),
        views(final(errors)@) == views(old(errors)@) + base_findings(graph@, label@),
{
    let ghost before = views(errors@);
    let organization = match node_with_id_ref(graph, ORGANIZATION_ID) {
        Some(n) => text_member_is(n, "@type", "Organization") && text_member_is(n, "name", "Merely LLC"),
        None => false,
    };
    flag_if(errors, !organization, cat2(label, " has invalid organization structured data"));
    let website = match node_with_id_ref(graph, WEBSITE_ID) {
        Some(n) => text_member_is(n, "@type", "WebSite") && text_path_is(n, "publisher", "@id", ORGANIZATION_ID),
        None => false,
    };
    flag_if(errors, !website, cat2(label, " has invalid website structured data"));
    proof {
        assert(views(errors@) =~= before + base_findings(graph@, label@));
    }
}

/// Checks the page node at `canonical`.
fn check_web_page(graph: &Vec<JsonValue>, canonical: &str, about: &str, label: &str, errors: &mut Vec<String>)
    ensures
        grew(old(errors)@, final(errors)@, page_ok(graph@, canonical@, about@)),
        views(final(errors)@) == views(old(errors)@) + page_findings(graph@, canonical@, about@, label@),
{
    let ok = match node_with_id_ref(graph, canonical) {
        Some(p) => text_member_is(p, "@type", "WebPage") && text_path_is(p, "about", "@id", about) && text_path_is(
            p,
            "isPartOf",
            "@id",
            WEBSITE_ID,
        ),
        None => false,
    };
    flag_if(errors, !ok, cat2(label, " has invalid WebPage structured data"));
}

/// Checks the head and the structured data of a fixed page.
pub fn validate_fixed_metadata(
    document: &str,
    canonical: &str,
    image_url: &str,
    image_type: &str,
    image_alt: &str,
    errors: &mut Vec<String>,
)
    ensures
        grew(
            old(errors)@,
            final(errors)@,
            social_head_ok_of(document@, canonical@, image_url@, image_type@, image_alt@) && base_record_ok(document@),
        ),
        views(final(errors)@) == views(old(errors)@) + social_findings_of(
            document@,
            "fixed page"@,
            canonical@,
            image_url@,
            image_type@,
            image_alt@,
        ) + fixed_record_findings(document@, "fixed page"@),
{
    let ghost before = views(errors@);
    let ghost f = social_findings_of(document@, "fixed page"@, canonical@, image_url@, image_type@, image_alt@);
    let ghost rf = fixed_record_findings(document@, "fixed page"@);
    let expected = ExpectedSocialMetadata { canonical, image_url, image_type, image_alt };
    validate_social_head(document, "fixed page", &expected, errors);
    let value = match parse_json_ld(document, "fixed page", errors) {
        Some(v) => v,
        None => {
            proof {
                assert(views(errors@) =~= before + f + rf);
            }
            return ;
        },
    };
    let graph = match schema_graph(&value, "fixed page", errors) {
        Some(g) => g,
        None => {
            proof {
                assert(views(errors@) =~= before + f + rf);
            }
            return ;
        },
    };
    validate_base_schema(graph, "fixed page", errors);
    proof {
        assert(views(errors@) =~= before + f + rf);
    }
}

/// The text of the member `key` of the value.
fn text_member_ref<'a>(v: &'a JsonValue, key: &str) -> (r: Option<&'a str>)
    ensures
        match r {
            Some(t) => text_member(*v, key@) == Some(t@),
            None => text_member(*v, key@) is None,
        },
{
    match member_ref(v, key) {
        Some(JsonValue::Text(s)) => Some(s.as_str()),
        _ => None,
    }
}

/// The public metadata record of the repository id.
pub(crate) fn metadata_ref<'a>(ms: &'a Vec<PublicRepositoryMetadata>, id: &str) -> (r: Option<&'a PublicRepositoryMetadata>)
    ensures
        match r {
            Some(m) => metadata_for(ms@, id@) == Some(*m),
            None => metadata_for(ms@, id@) is None,
        },
{
    let mut i: usize = 0;
    while i < ms.len()
        invariant
            i <= ms@.len(),
            forall|j: int| 0 <= j < i ==> (#[trigger] ms@[j]).id@ != id@,
        decreases ms.len() - i,
    {
        if str_eq(ms[i].id.as_str(), id) {
            proof {
                assert(first_metadata(ms@, id@, i as int));
                let c = choose|c: int| #[trigger] first_metadata(ms@, id@, c);
                if c < i {
                    assert(ms@[c].id@ != id@);
                } else if c > i {
                    assert(ms@[i as int].id@ != id@);
                }
            }
            return Some(&ms[i]);
        }
        i = i + 1;
    }
    proof {
        assert forall|c: int| !#[trigger] first_metadata(ms@, id@, c) by {}
    }
    None
}

/// Whether the array items are the expected texts, in order.
fn texts_match(actual: &Vec<JsonValue>, expected: &Vec<String>) -> (r: bool)
    ensures
        r == (actual@.len() == expected@.len() && forall|i: int|
            0 <= i < actual@.len() ==> text_of(Some(#[trigger] actual@[i])) == Some(expected@[i]@)),
{
    if actual.len() != expected.len() {
        return false;
    }
    let mut i: usize = 0;
    while i < actual.len()
        invariant
            actual@.len() == expected@.len(),
            i <= actual@.len(),
            forall|j: int| 0 <= j < i ==> text_of(Some(#[trigger] actual@[j])) == Some(expected@[j]@),
        decreases actual.len() - i,
    {
        let same = match &actual[i] {
            JsonValue::Text(t) => str_eq(t.as_str(), expected[i].as_str()),
            _ => false,
        };
        if !same {
            return false;
        }
        i = i + 1;
    }
    true
}

/// Whether both optional texts are absent, or both present and equal.
fn same_text(a: Option<&str>, b: Option<&str>) -> (r: bool)
    ensures
        r == (match (a, b) {
            (Some(x), Some(y)) => x@ == y@,
            (None, None) => true,
            _ => false,
        }),
{
    match (a, b) {
        (Some(x), Some(y)) => str_eq(x, y),
        (None, None) => true,
        _ => false,
    }
}

/// Whether the entity's `sameAs` is one link, to `url`.
fn same_as_is(n: &JsonValue, url: &str) -> (r: bool)
    ensures
        r == match items_of(member(*n, "sameAs"@)) {
            Some(s) => s.len() == 1 && text_of(Some(s[0])) == Some(url@),
            None => false,
        },
{
    match member_ref(n, "sameAs") {
        Some(JsonValue::Array(items)) => {
            if items.len() != 1 {
                false
            } else {
                match &items[0] {
                    JsonValue::Text(t) => str_eq(t.as_str(), url),
                    _ => false,
                }
            }
        },
        _ => false,
    }
}

/// Checks the source-code facts of the repository entity.
fn check_source_entity(
    entity: Option<&JsonValue>,
    url: &str,
    md: Option<&PublicRepositoryMetadata>,
    label: &str,
    errors: &mut Vec<String>,
    Ghost(ent): Ghost<Option<JsonValue>>,
    Ghost(mdv): Ghost<Option<PublicRepositoryMetadata>>,
)
    requires
        match entity {
            Some(n) => ent == Some(*n),
            None => ent is None,
        },
        match md {
            Some(m) => mdv == Some(*m),
            None => mdv is None,
        },
    ensures
        grew(old(errors)@, final(errors)@, source_ok(ent, url@, mdv)),
        views(final(errors)@) == views(old(errors)@) + source_findings(ent, url@, mdv, label@),
{
    let ghost before = views(errors@);
    let code = match entity {
        Some(n) => text_member_is(n, "codeRepository", url),
        None => false,
    };
    flag_if(errors, !code, cat2(label, " has invalid source repository structured data"));
    let expected_language: Option<&str> = match md {
        Some(m) => match &m.primary_language {
            Some(l) => Some(l.as_str()),
            None => None,
        },
        None => None,
    };
    let actual_language = match entity {
        Some(n) => text_member_ref(n, "programmingLanguage"),
        None => None,
    };
    let language = same_text(actual_language, expected_language);
    flag_if(errors, !language, cat2(label, " has invalid language structured data"));
    let actual_topics: Option<&Vec<JsonValue>> = match entity {
        Some(n) => match member_ref(n, "keywords") {
            Some(JsonValue::Array(items)) => Some(items),
            _ => None,
        },
        None => None,
    };
    let no_topics = match md {
        Some(m) => m.topics.len() == 0,
        None => true,
    };
    proof {
        assert(no_topics == (topics_of(mdv).len() == 0));
    }
    if no_topics {
        flag_if(errors, actual_topics.is_some(), cat2(label, " has unexpected topic structured data"));
    } else {
        let topics = match (actual_topics, md) {
            (Some(items), Some(m)) => texts_match(items, &m.topics),
            _ => false,
        };
        proof {
            if let Some(m) = mdv {
                assert(topics_of(mdv) == views(m.topics@));
            }
        }
        flag_if(errors, !topics, cat2(label, " has invalid topic structured data"));
    }
    proof {
        assert(views(errors@) =~= before + source_findings(ent, url@, mdv, label@));
    }
}

/// Checks the project-specific nodes of a profile's graph.
fn check_project_nodes(
    graph: &Vec<JsonValue>,
    repository: &RepositoryRecord,
    metadata: &PublicMetadataCache,
    canonical: &str,
    label: &str,
    errors: &mut Vec<String>,
)
    ensures
        grew(old(errors)@, final(errors)@, project_nodes_ok(graph@, *repository, *metadata, canonical@)),
        views(final(errors)@) == views(old(errors)@) + project_node_findings(graph@, *repository, *metadata, canonical@, label@),
{
    let ghost before = views(errors@);
    let entity_id = cat2(canonical, "#repository");
    check_web_page(graph, canonical, entity_id.as_str(), label, errors);
    let entity = node_with_id_ref(graph, entity_id.as_str());
    let ghost ent = node_with_id(graph@, entity_id@);
    let is_org = str_eq(repository.id.as_str(), "org-profile");
    let kind = if is_org {
        "CreativeWork"
    } else {
        "SoftwareSourceCode"
    };
    let url = cat2("https://github.com/", repository.github_slug.as_str());
    let entity_good = match entity {
        Some(n) => text_member_is(n, "@type", kind) && text_member_is(n, "url", canonical) && text_path_is(
            n,
            "publisher",
            "@id",
            ORGANIZATION_ID,
        ) && same_as_is(n, url.as_str()),
        None => false,
    };
    flag_if(errors, !entity_good, cat2(label, " has invalid repository structured data"));
    proof {
        assert(entity_kind(*repository) == kind@);
        assert(repository_url(*repository) == url@);
    }
    if !is_org {
        let md = metadata_ref(&metadata.repository, repository.id.as_str());
        check_source_entity(
            entity,
            url.as_str(),
            md,
            label,
            errors,
            Ghost(ent),
            Ghost(metadata_for(metadata.repository@, repository.id@)),
        );
    } else {
        proof {
            reveal_strlit("CreativeWork");
            reveal_strlit("SoftwareSourceCode");
            assert(repository.id@ == "org-profile"@);
            assert(entity_kind(*repository) == "CreativeWork"@);
            assert("CreativeWork"@.len() != "SoftwareSourceCode"@.len());
            assert(entity_kind(*repository) != "SoftwareSourceCode"@);
        }
    }
    proof {
        assert(views(errors@) =~= before + project_node_findings(graph@, *repository, *metadata, canonical@, label@));
    }
}

/// Checks the head and the structured data of a project profile, and tells
/// whether each of the two held.
#[verifier::spinoff_prover]
#[verifier::rlimit(30)]
pub fn validate_project_metadata(
    document: &str,
    repository: &RepositoryRecord,
    metadata: &PublicMetadataCache,
    expected: &ExpectedSocialMetadata,
    errors: &mut Vec<String>,
) -> (r: (bool, bool))
    ensures
        r.0 == social_head_ok(document@, *expected),
        r.1 == project_record_ok(document@, *repository, *metadata, expected.canonical@),
        grew(old(errors)@, final(errors)@, r.0 && r.1),
        views(final(errors)@) == views(old(errors)@) + social_findings(document@, "project profile "@ + repository.id@, *expected)
            + project_record_findings(document@, "project profile "@ + repository.id@, *repository, *metadata, expected.canonical@),
{
    let ghost before = views(errors@);
    let label = cat2("project profile ", repository.id.as_str());
    let social_start = errors.len();
    validate_social_head(document, label.as_str(), expected, errors);
    let social_valid = errors.len() == social_start;
    let structured_start = errors.len();
    let ghost f = social_findings(document@, label@, *expected);
    let ghost rf = project_record_findings(document@, label@, *repository, *metadata, expected.canonical@);
    let value = match parse_json_ld(document, label.as_str(), errors) {
        Some(v) => v,
        None => {
            proof {
                assert(views(errors@) =~= before + f + rf);
            }
            return (social_valid, false);
        },
    };
    let graph = match schema_graph(&value, label.as_str(), errors) {
        Some(g) => g,
        None => {
            proof {
                assert(views(errors@) =~= before + f + rf);
            }
            return (social_valid, false);
        },
    };
    validate_base_schema(graph, label.as_str(), errors);
    check_project_nodes(graph, repository, metadata, expected.canonical, label.as_str(), errors);
    proof {
        assert(views(errors@) =~= before + f + rf);
    }
    (social_valid, errors.len() == structured_start)
}

/// Whether some node of the graph makes an offer.
fn any_offers(graph: &Vec<JsonValue>) -> (r: bool)
    ensures
        r == offers_something(graph@),
{
    let mut i: usize = 0;
    while i < graph.len()
        invariant
            i <= graph@.len(),
            forall|j: int| 0 <= j < i ==> (#[trigger] member(graph@[j], "offers"@)) is None,
        decreases graph.len() - i,
    {
        if member_ref(&graph[i], "offers").is_some() {
            assert(member(graph@[i as int], "offers"@) is Some);
            return true;
        }
        i = i + 1;
    }
    false
}

/// Checks the device-specific nodes of a profile's graph.
fn check_device_nodes(graph: &Vec<JsonValue>, device: &DeviceRecord, canonical: &str, label: &str, errors: &mut Vec<String>)
    ensures
        grew(old(errors)@, final(errors)@, device_nodes_ok(graph@, *device, canonical@)),
        views(final(errors)@) == views(old(errors)@) + device_node_findings(graph@, *device, canonical@, label@),
{
    let ghost before = views(errors@);
    let article_id = cat2(canonical, "#recipe");
    check_web_page(graph, canonical, article_id.as_str(), label, errors);
    let evidence = cat3(device.source_repository.as_str(), "/blob/main/", device.source_document.as_str());
    let article = match node_with_id_ref(graph, article_id.as_str()) {
        Some(n) => text_member_is(n, "@type", "TechArticle") && text_member_is(n, "url", canonical) && text_path_is(
            n,
            "publisher",
            "@id",
            ORGANIZATION_ID,
        ) && text_member_is(n, "isBasedOn", evidence.as_str()),
        None => false,
    };
    flag_if(errors, !article, cat2(label, " has invalid TechArticle structured data"));
    let offering = device.status != DeviceStatus::Sellable && any_offers(graph);
    flag_if(errors, offering, cat2(label, " publishes an Offer for a non-sellable device"));
    proof {
        assert(views(errors@) =~= before + device_node_findings(graph@, *device, canonical@, label@));
    }
}

/// Checks the head and the structured data of a device profile, and tells
/// whether both held.
#[verifier::spinoff_prover]
#[verifier::rlimit(30)]
pub fn validate_device_metadata(
    document: &str,
    device: &DeviceRecord,
    expected: &ExpectedSocialMetadata,
    errors: &mut Vec<String>,
) -> (r: bool)
    ensures
        r == (social_head_ok(document@, *expected) && device_record_ok(document@, *device, expected.canonical@)),
        grew(old(errors)@, final(errors)@, r),
        views(final(errors)@) == views(old(errors)@) + social_findings(document@, "device profile "@ + device.id@, *expected)
            + device_record_findings(document@, "device profile "@ + device.id@, *device, expected.canonical@),
{
    let ghost before = views(errors@);
    let start = errors.len();
    let label = cat2("device profile ", device.id.as_str());
    let ghost f = social_findings(document@, label@, *expected);
    let ghost rf = device_record_findings(document@, label@, *device, expected.canonical@);
    validate_social_head(document, label.as_str(), expected, errors);
    let value = match parse_json_ld(document, label.as_str(), errors) {
        Some(v) => v,
        None => {
            proof {
                assert(views(errors@) =~= before + f + rf);
            }
            return false;
        },
    };
    let graph = match schema_graph(&value, label.as_str(), errors) {
        Some(g) => g,
        None => {
            proof {
                assert(views(errors@) =~= before + f + rf);
            }
            return false;
        },
    };
    validate_base_schema(graph, label.as_str(), errors);
    check_device_nodes(graph, device, expected.canonical, label.as_str(), errors);
    proof {
        assert(views(errors@) =~= before + f + rf);
    }
    errors.len() == start
}

} // verus!
