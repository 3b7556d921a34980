//! The structured data (JSON-LD) the site publishes on its pages, built as
//! JSON values; the publication checks in `structured_data` hold of it.

use vstd::prelude::*;

use crate::devices::{DeviceRecord};
use crate::page_text::evidence_url;
use crate::public_pages::{device_canonical, project_canonical};
use crate::repositories::{PublicMetadataCache, PublicRepositoryMetadata, RepositoryRecord};
use crate::site::{ORGANIZATION_ID, WEBSITE_ID};
use crate::structured_data::{
    JsonValue, context_ok, device_nodes_ok, entity_kind, evidence_link, first_key, first_with_id, graph_items, has_id,
    items_of, language_of, member, metadata_for, node_with_id, offers_something, organization_ok, project_nodes_ok,
    repository_url, source_ok, text_member, text_of, topics_of, topics_ok, entity_ok, page_ok, website_ok,
};
use crate::text::{cat2, str_eq, views};

verus! {

/// The member names of an object, in order; none for any other value.
pub open spec fn object_keys(v: JsonValue) -> Seq<Seq<char>> {
    match v {
        JsonValue::Object(fields) => fields@.map_values(|f: (String, JsonValue)| f.0@),
        _ => Seq::empty(),
    }
}

/// The value of the `i`-th member of an object.
pub open spec fn field(v: JsonValue, i: int) -> JsonValue {
    match v {
        JsonValue::Object(fields) => fields@[i].1,
        _ => JsonValue::Null,
    }
}

/// The value is the text `s`.
pub open spec fn text_value(v: JsonValue, s: Seq<char>) -> bool {
    match v {
        JsonValue::Text(t) => t@ == s,
        _ => false,
    }
}

/// The value is an array of exactly the texts `s`.
pub open spec fn texts_value(v: JsonValue, s: Seq<Seq<char>>) -> bool {
    match v {
        JsonValue::Array(items) => items@.len() == s.len() && forall|i: int|
            0 <= i < s.len() ==> #[trigger] text_value(items@[i], s[i]),
        _ => false,
    }
}

/// The value is an object with the member names `keys`, in that order.
pub open spec fn object_with(v: JsonValue, keys: Seq<Seq<char>>) -> bool {
    v is Object && object_keys(v) == keys
}

/// The value is `{"@id": id}`.
pub open spec fn reference_value(v: JsonValue, id: Seq<char>) -> bool {
    object_with(v, seq!["@id"@]) && text_value(field(v, 0), id)
}

/// The member found at position `i` of an object, where no earlier member
/// carries its name, is the one `member` finds.
pub proof fn lemma_member_at(v: JsonValue, key: Seq<char>, i: int)
    requires
        v is Object,
        0 <= i < object_keys(v).len(),
        object_keys(v)[i] == key,
        forall|j: int| 0 <= j < i ==> object_keys(v)[j] != key,
    ensures
        member(v, key) == Some(field(v, i)),
{
    match v {
        JsonValue::Object(fields) => {
            let fs = fields@;
            assert(fs[i].0@ == object_keys(v)[i]);
            assert forall|j: int| 0 <= j < i implies (#[trigger] fs[j]).0@ != key by {
                assert(fs[j].0@ == object_keys(v)[j]);
            }
            assert(first_key(fs, key, i));
            let c = choose|c: int| #[trigger] first_key(fs, key, c);
            if c < i {
                assert(fs[c].0@ == object_keys(v)[c]);
            } else if c > i {
                assert(fs[i].0@ != key);
            }
        },
        _ => {},
    }
}

/// The member at position `i`, where no earlier member name equals it.
pub proof fn lemma_member_named(v: JsonValue, key: Seq<char>, i: int)
    requires
        v is Object,
        0 <= i < object_keys(v).len(),
        object_keys(v)[i] == key,
        !object_keys(v).take(i).contains(key),
    ensures
        member(v, key) == Some(field(v, i)),
{
    assert forall|j: int| 0 <= j < i implies object_keys(v)[j] != key by {
        assert(object_keys(v).take(i)[j] == object_keys(v)[j]);
    }
    lemma_member_at(v, key, i);
}

/// An object none of whose members carries the name has no such member.
pub proof fn lemma_member_absent(v: JsonValue, key: Seq<char>)
    requires
        v is Object,
        !object_keys(v).contains(key),
    ensures
        member(v, key) is None,
{
    match v {
        JsonValue::Object(fields) => {
            let fs = fields@;
            if exists|i: int| #[trigger] first_key(fs, key, i) {
                let i = choose|i: int| #[trigger] first_key(fs, key, i);
                assert(object_keys(v)[i] == key);
            }
        },
        _ => {},
    }
}

/// The node found at position `i` of a graph, where no earlier node carries
/// its `@id`, is the one `node_with_id` finds.
pub proof fn lemma_node_at(g: Seq<JsonValue>, id: Seq<char>, i: int)
    requires
        0 <= i < g.len(),
        has_id(g[i], id),
        forall|j: int| 0 <= j < i ==> !has_id(#[trigger] g[j], id),
    ensures
        node_with_id(g, id) == Some(g[i]),
{
    assert(first_with_id(g, id, i));
    let c = choose|c: int| #[trigger] first_with_id(g, id, c);
    if c < i {
        assert(!has_id(g[c], id));
    } else if c > i {
        assert(!has_id(g[i], id));
    }
}

/// The organization node: Merely LLC, its address, its email and its
/// GitHub organization.
pub open spec fn organization_node(v: JsonValue) -> bool {
    &&& object_with(v, seq!["@type"@, "@id"@, "name"@, "url"@, "email"@, "sameAs"@, "address"@])
    &&& text_value(field(v, 0), "Organization"@)
    &&& text_value(field(v, 1), ORGANIZATION_ID@)
    &&& text_value(field(v, 2), "Merely LLC"@)
    &&& text_value(field(v, 3), "https://mer3ly.net/"@)
    &&& text_value(field(v, 4), "markik@mer3ly.net"@)
    &&& texts_value(field(v, 5), seq!["https://github.com/merely-made"@])
    &&& address_node(field(v, 6))
}

/// The organization's postal address.
pub open spec fn address_node(v: JsonValue) -> bool {
    &&& object_with(v, seq!["@type"@, "addressLocality"@, "addressRegion"@, "addressCountry"@])
    &&& text_value(field(v, 0), "PostalAddress"@)
    &&& text_value(field(v, 1), "Ashland"@)
    &&& text_value(field(v, 2), "KY"@)
    &&& text_value(field(v, 3), "US"@)
}

/// The website node, published by the organization.
pub open spec fn website_node(v: JsonValue) -> bool {
    &&& object_with(v, seq!["@type"@, "@id"@, "name"@, "url"@, "publisher"@])
    &&& text_value(field(v, 0), "WebSite"@)
    &&& text_value(field(v, 1), WEBSITE_ID@)
    &&& text_value(field(v, 2), "Merely"@)
    &&& text_value(field(v, 3), "https://mer3ly.net/"@)
    &&& reference_value(field(v, 4), ORGANIZATION_ID@)
}

/// The graph every page's record starts with: the organization, then the
/// website.
pub open spec fn base_graph(g: Seq<JsonValue>) -> bool {
    &&& g.len() == 2
    &&& organization_node(g[0])
    &&& website_node(g[1])
}

/// A text value.
fn text(s: &str) -> (r: JsonValue)
    ensures
        text_value(r, s@),
{
    JsonValue::Text(String::from_str(s))
}

/// `{"@id": id}`.
fn reference(id: &str) -> (r: JsonValue)
    ensures
        reference_value(r, id@),
{
    let mut fields: Vec<(String, JsonValue)> = Vec::new();
    fields.push((String::from_str("@id"), text(id)));
    let r = JsonValue::Object(fields);
    proof {
        assert(object_keys(r) =~= seq!["@id"@]);
    }
    r
}

/// The organization's postal address.
fn address() -> (r: JsonValue)
    ensures
        address_node(r),
{
    let mut fields: Vec<(String, JsonValue)> = Vec::new();
    fields.push((String::from_str("@type"), text("PostalAddress")));
    fields.push((String::from_str("addressLocality"), text("Ashland")));
    fields.push((String::from_str("addressRegion"), text("KY")));
    fields.push((String::from_str("addressCountry"), text("US")));
    let r = JsonValue::Object(fields);
    proof {
        assert(object_keys(r) =~= seq!["@type"@, "addressLocality"@, "addressRegion"@, "addressCountry"@]);
    }
    r
}

/// The organization node.
fn organization() -> (r: JsonValue)
    ensures
        organization_node(r),
{
    let mut links: Vec<JsonValue> = Vec::new();
    links.push(text("https://github.com/merely-made"));
    let same_as = JsonValue::Array(links);
    proof {
        assert(texts_value(same_as, seq!["https://github.com/merely-made"@])) by {
            assert(text_value(links@[0], seq!["https://github.com/merely-made"@][0]));
        }
    }
    let mut fields: Vec<(String, JsonValue)> = Vec::new();
    fields.push((String::from_str("@type"), text("Organization")));
    fields.push((String::from_str("@id"), text(ORGANIZATION_ID)));
    fields.push((String::from_str("name"), text("Merely LLC")));
    fields.push((String::from_str("url"), text("https://mer3ly.net/")));
    fields.push((String::from_str("email"), text("markik@mer3ly.net")));
    fields.push((String::from_str("sameAs"), same_as));
    fields.push((String::from_str("address"), address()));
    let r = JsonValue::Object(fields);
    proof {
        assert(object_keys(r) =~= seq!["@type"@, "@id"@, "name"@, "url"@, "email"@, "sameAs"@, "address"@]);
    }
    r
}

/// The website node.
fn website() -> (r: JsonValue)
    ensures
        website_node(r),
{
    let mut fields: Vec<(String, JsonValue)> = Vec::new();
    fields.push((String::from_str("@type"), text("WebSite")));
    fields.push((String::from_str("@id"), text(WEBSITE_ID)));
    fields.push((String::from_str("name"), text("Merely")));
    fields.push((String::from_str("url"), text("https://mer3ly.net/")));
    fields.push((String::from_str("publisher"), reference(ORGANIZATION_ID)));
    let r = JsonValue::Object(fields);
    proof {
        assert(object_keys(r) =~= seq!["@type"@, "@id"@, "name"@, "url"@, "publisher"@]);
    }
    r
}

/// The organization and website nodes that open every page's record.
pub fn base_schema_graph() -> (r: Vec<JsonValue>)
    ensures
        base_graph(r@),
{
    let mut graph: Vec<JsonValue> = Vec::new();
    graph.push(organization());
    graph.push(website());
    graph
}

/// Any graph that opens with the organization and website nodes carries the
/// organization and the website as the publication checks require.
pub proof fn law_base_nodes_pass_the_checks(g: Seq<JsonValue>)
    requires
        g.len() >= 2,
        organization_node(g[0]),
        website_node(g[1]),
    ensures
        organization_ok(g),
        website_ok(g),
{
    reveal_strlit("@type");
    reveal_strlit("@id");
    reveal_strlit("name");
    reveal_strlit("publisher");
    reveal_strlit("https://mer3ly.net/#organization");
    reveal_strlit("https://mer3ly.net/#website");
    let o = g[0];
    let w = g[1];
    reveal_strlit("url");
    assert("@type"@.len() == 5 && "@id"@.len() == 3 && "name"@.len() == 4 && "url"@.len() == 3);
    assert("publisher"@.len() == 9);
    assert(object_keys(o).take(1) =~= seq!["@type"@]);
    assert(object_keys(o).take(2) =~= seq!["@type"@, "@id"@]);
    assert(object_keys(w).take(1) =~= seq!["@type"@]);
    assert(object_keys(w).take(4) =~= seq!["@type"@, "@id"@, "name"@, "url"@]);
    lemma_member_at(o, "@type"@, 0);
    lemma_member_named(o, "@id"@, 1);
    lemma_member_named(o, "name"@, 2);
    assert(has_id(o, ORGANIZATION_ID@));
    lemma_node_at(g, ORGANIZATION_ID@, 0);
    lemma_member_at(w, "@type"@, 0);
    lemma_member_named(w, "@id"@, 1);
    lemma_member_named(w, "publisher"@, 4);
    lemma_member_at(field(w, 4), "@id"@, 0);
    assert(ORGANIZATION_ID@[20] != WEBSITE_ID@[20]);
    assert(!has_id(o, WEBSITE_ID@));
    assert(has_id(w, WEBSITE_ID@));
    lemma_node_at(g, WEBSITE_ID@, 1);
}

/// The record of a page: the schema.org context and the graph.
pub open spec fn record_value(v: JsonValue, g: Seq<JsonValue>) -> bool {
    &&& object_with(v, seq!["@context"@, "@graph"@])
    &&& text_value(field(v, 0), "https://schema.org"@)
    &&& items_of(Some(field(v, 1))) == Some(g)
}

/// Wraps a graph in a page's record.
pub fn json_ld_record(graph: Vec<JsonValue>) -> (r: JsonValue)
    ensures
        record_value(r, graph@),
{
    let ghost g = graph@;
    let mut fields: Vec<(String, JsonValue)> = Vec::new();
    fields.push((String::from_str("@context"), text("https://schema.org")));
    fields.push((String::from_str("@graph"), JsonValue::Array(graph)));
    let r = JsonValue::Object(fields);
    proof {
        assert(object_keys(r) =~= seq!["@context"@, "@graph"@]);
    }
    r
}

/// The record of the fixed pages: the organization and the website.
pub fn site_json_ld_record() -> (r: JsonValue)
    ensures
        exists|g: Seq<JsonValue>| record_value(r, g) && base_graph(g),
{
    let graph = base_schema_graph();
    let ghost g = graph@;
    json_ld_record(graph)
}

/// A record's context and graph read back as the publication checks read
/// them.
pub proof fn law_record_reads_back(v: JsonValue, g: Seq<JsonValue>)
    requires
        record_value(v, g),
    ensures
        context_ok(v),
        graph_items(v) == Some(g),
{
    reveal_strlit("@context");
    reveal_strlit("@graph");
    assert("@context"@.len() == 8 && "@graph"@.len() == 6);
    assert(object_keys(v).take(1) =~= seq!["@context"@]);
    lemma_member_at(v, "@context"@, 0);
    lemma_member_named(v, "@graph"@, 1);
}

/// The page node of a profile at `canonical`, about `about`.
pub open spec fn page_node(v: JsonValue, canonical: Seq<char>, name: Seq<char>, description: Seq<char>, about: Seq<char>) -> bool {
    &&& object_with(v, seq!["@type"@, "@id"@, "url"@, "name"@, "description"@, "isPartOf"@, "about"@])
    &&& text_value(field(v, 0), "WebPage"@)
    &&& text_value(field(v, 1), canonical)
    &&& text_value(field(v, 2), canonical)
    &&& text_value(field(v, 3), name)
    &&& text_value(field(v, 4), description)
    &&& reference_value(field(v, 5), WEBSITE_ID@)
    &&& reference_value(field(v, 6), about)
}

/// The page node of a profile.
fn web_page(canonical: &str, name: &str, description: &str, about: &str) -> (r: JsonValue)
    ensures
        page_node(r, canonical@, name@, description@, about@),
{
    let mut fields: Vec<(String, JsonValue)> = Vec::new();
    fields.push((String::from_str("@type"), text("WebPage")));
    fields.push((String::from_str("@id"), text(canonical)));
    fields.push((String::from_str("url"), text(canonical)));
    fields.push((String::from_str("name"), text(name)));
    fields.push((String::from_str("description"), text(description)));
    fields.push((String::from_str("isPartOf"), reference(WEBSITE_ID)));
    fields.push((String::from_str("about"), reference(about)));
    let r = JsonValue::Object(fields);
    proof {
        assert(object_keys(r) =~= seq!["@type"@, "@id"@, "url"@, "name"@, "description"@, "isPartOf"@, "about"@]);
    }
    r
}

/// The sections of a device recipe, in page order.
pub open spec fn recipe_sections() -> Seq<Seq<char>> {
    seq![
        "Exact recipe state"@,
        "Build it"@,
        "Verify it"@,
        "Network support"@,
        "Install firmware"@,
        "Radio authorization"@,
        "Purchase"@,
    ]
}

/// The recipe article node of a device profile.
pub open spec fn article_node(v: JsonValue, d: DeviceRecord, canonical: Seq<char>) -> bool {
    &&& object_with(
        v,
        seq![
            "@type"@,
            "@id"@,
            "name"@,
            "headline"@,
            "description"@,
            "url"@,
            "publisher"@,
            "isBasedOn"@,
            "articleSection"@,
        ],
    )
    &&& text_value(field(v, 0), "TechArticle"@)
    &&& text_value(field(v, 1), canonical + "#recipe"@)
    &&& text_value(field(v, 2), d.name@)
    &&& text_value(field(v, 3), d.role@)
    &&& text_value(field(v, 4), d.summary@)
    &&& text_value(field(v, 5), canonical)
    &&& reference_value(field(v, 6), ORGANIZATION_ID@)
    &&& text_value(field(v, 7), evidence_link(d))
    &&& texts_value(field(v, 8), recipe_sections())
}

/// The graph of a device profile: the base nodes, the page, the recipe.
pub open spec fn device_graph(g: Seq<JsonValue>, d: DeviceRecord, canonical: Seq<char>) -> bool {
    &&& g.len() == 4
    &&& organization_node(g[0])
    &&& website_node(g[1])
    &&& page_node(g[2], canonical, d.name@, d.summary@, canonical + "#recipe"@)
    &&& article_node(g[3], d, canonical)
}

/// The recipe sections as texts.
fn sections() -> (r: JsonValue)
    ensures
        texts_value(r, recipe_sections()),
{
    let mut items: Vec<JsonValue> = Vec::new();
    items.push(text("Exact recipe state"));
    items.push(text("Build it"));
    items.push(text("Verify it"));
    items.push(text("Network support"));
    items.push(text("Install firmware"));
    items.push(text("Radio authorization"));
    items.push(text("Purchase"));
    let r = JsonValue::Array(items);
    proof {
        assert forall|i: int| 0 <= i < recipe_sections().len() implies #[trigger] text_value(items@[i], recipe_sections()[i]) by {
            assert(0 <= i < 7);
        }
    }
    r
}

/// The record of a device profile at `canonical`: the base nodes, the page
/// node about the recipe, and the recipe article resting on the device's
/// public evidence.
pub fn device_json_ld_record(device: &DeviceRecord, canonical: &str) -> (r: JsonValue)
    ensures
        exists|g: Seq<JsonValue>| record_value(r, g) && device_graph(g, *device, canonical@),
{
    let article_id = cat2(canonical, "#recipe");
    let mut graph = base_schema_graph();
    graph.push(web_page(canonical, device.name.as_str(), device.summary.as_str(), article_id.as_str()));
    let mut fields: Vec<(String, JsonValue)> = Vec::new();
    fields.push((String::from_str("@type"), text("TechArticle")));
    fields.push((String::from_str("@id"), text(article_id.as_str())));
    fields.push((String::from_str("name"), text(device.name.as_str())));
    fields.push((String::from_str("headline"), text(device.role.as_str())));
    fields.push((String::from_str("description"), text(device.summary.as_str())));
    fields.push((String::from_str("url"), text(canonical)));
    fields.push((String::from_str("publisher"), reference(ORGANIZATION_ID)));
    let evidence = evidence_url(device);
    fields.push((String::from_str("isBasedOn"), text(evidence.as_str())));
    fields.push((String::from_str("articleSection"), sections()));
    let article = JsonValue::Object(fields);
    proof {
        assert(object_keys(article) =~= seq![
            "@type"@,
            "@id"@,
            "name"@,
            "headline"@,
            "description"@,
            "url"@,
            "publisher"@,
            "isBasedOn"@,
            "articleSection"@,
        ]);
    }
    graph.push(article);
    let ghost g = graph@;
    json_ld_record(graph)
}

/// The page node reads back as the page check reads it.
proof fn lemma_page_node_reads(v: JsonValue, canonical: Seq<char>, name: Seq<char>, description: Seq<char>, about: Seq<char>)
    requires
        page_node(v, canonical, name, description, about),
    ensures
        has_id(v, canonical),
        text_member(v, "@type"@) == Some("WebPage"@),
        member(v, "about"@) == Some(field(v, 6)),
        member(v, "isPartOf"@) == Some(field(v, 5)),
        member(field(v, 6), "@id"@) == Some(field(field(v, 6), 0)),
        member(field(v, 5), "@id"@) == Some(field(field(v, 5), 0)),
        member(v, "offers"@) is None,
{
    reveal_strlit("@type");
    reveal_strlit("@id");
    reveal_strlit("url");
    reveal_strlit("name");
    reveal_strlit("description");
    reveal_strlit("isPartOf");
    reveal_strlit("about");
    reveal_strlit("offers");
    assert("@type"@.len() == 5 && "@id"@.len() == 3 && "url"@.len() == 3 && "name"@.len() == 4);
    assert("description"@.len() == 11 && "isPartOf"@.len() == 8 && "about"@.len() == 5 && "offers"@.len() == 6);
    assert("about"@[0] != "@type"@[0]);
    let keys = object_keys(v);
    assert(keys.take(1) =~= seq!["@type"@]);
    assert(keys.take(5) =~= seq!["@type"@, "@id"@, "url"@, "name"@, "description"@]);
    assert(keys.take(6) =~= seq!["@type"@, "@id"@, "url"@, "name"@, "description"@, "isPartOf"@]);
    lemma_member_at(v, "@type"@, 0);
    lemma_member_named(v, "@id"@, 1);
    lemma_member_named(v, "isPartOf"@, 5);
    lemma_member_named(v, "about"@, 6);
    lemma_member_at(field(v, 5), "@id"@, 0);
    lemma_member_at(field(v, 6), "@id"@, 0);
    assert(!keys.contains("offers"@)) by {
        if keys.contains("offers"@) {
            let i = choose|i: int| 0 <= i < keys.len() && keys[i] == "offers"@;
            assert(keys[i].len() == 6);
        }
    }
    lemma_member_absent(v, "offers"@);
}

/// The recipe article reads back as the article check reads it.
proof fn lemma_article_node_reads(v: JsonValue, d: DeviceRecord, canonical: Seq<char>)
    requires
        article_node(v, d, canonical),
    ensures
        has_id(v, canonical + "#recipe"@),
        text_member(v, "@type"@) == Some("TechArticle"@),
        text_member(v, "url"@) == Some(canonical),
        member(v, "publisher"@) == Some(field(v, 6)),
        member(field(v, 6), "@id"@) == Some(field(field(v, 6), 0)),
        text_member(v, "isBasedOn"@) == Some(evidence_link(d)),
        member(v, "offers"@) is None,
{
    reveal_strlit("@type");
    reveal_strlit("@id");
    reveal_strlit("url");
    reveal_strlit("name");
    reveal_strlit("headline");
    reveal_strlit("description");
    reveal_strlit("publisher");
    reveal_strlit("isBasedOn");
    reveal_strlit("articleSection");
    reveal_strlit("offers");
    assert("@type"@.len() == 5 && "@id"@.len() == 3 && "url"@.len() == 3 && "name"@.len() == 4);
    assert("headline"@.len() == 8 && "description"@.len() == 11 && "publisher"@.len() == 9);
    assert("isBasedOn"@.len() == 9 && "articleSection"@.len() == 14 && "offers"@.len() == 6);
    assert("isBasedOn"@[0] != "publisher"@[0]);
    assert("url"@[0] != "@id"@[0]);
    let keys = object_keys(v);
    assert(keys.take(1) =~= seq!["@type"@]);
    assert(keys.take(5) =~= seq!["@type"@, "@id"@, "name"@, "headline"@, "description"@]);
    assert(keys.take(6) =~= seq!["@type"@, "@id"@, "name"@, "headline"@, "description"@, "url"@]);
    assert(keys.take(7) =~= seq!["@type"@, "@id"@, "name"@, "headline"@, "description"@, "url"@, "publisher"@]);
    lemma_member_at(v, "@type"@, 0);
    lemma_member_named(v, "@id"@, 1);
    lemma_member_named(v, "url"@, 5);
    lemma_member_named(v, "publisher"@, 6);
    lemma_member_named(v, "isBasedOn"@, 7);
    lemma_member_at(field(v, 6), "@id"@, 0);
    assert(!keys.contains("offers"@)) by {
        if keys.contains("offers"@) {
            let i = choose|i: int| 0 <= i < keys.len() && keys[i] == "offers"@;
            assert(keys[i].len() == 6);
        }
    }
    lemma_member_absent(v, "offers"@);
}

/// Neither base node makes an offer.
proof fn lemma_base_nodes_offer_nothing(o: JsonValue, w: JsonValue)
    requires
        organization_node(o),
        website_node(w),
    ensures
        member(o, "offers"@) is None,
        member(w, "offers"@) is None,
{
    reveal_strlit("@type");
    reveal_strlit("@id");
    reveal_strlit("name");
    reveal_strlit("url");
    reveal_strlit("email");
    reveal_strlit("sameAs");
    reveal_strlit("address");
    reveal_strlit("publisher");
    reveal_strlit("offers");
    assert("@type"@.len() == 5 && "@id"@.len() == 3 && "url"@.len() == 3 && "name"@.len() == 4);
    assert("email"@.len() == 5 && "sameAs"@.len() == 6 && "address"@.len() == 7 && "publisher"@.len() == 9);
    assert("offers"@.len() == 6 && "sameAs"@[0] != "offers"@[0]);
    let ko = object_keys(o);
    let kw = object_keys(w);
    assert(!ko.contains("offers"@)) by {
        if ko.contains("offers"@) {
            let i = choose|i: int| 0 <= i < ko.len() && ko[i] == "offers"@;
            assert(ko[i].len() == 6);
            if i == 5 {
                assert(ko[i][0] != "offers"@[0]);
            }
        }
    }
    assert(!kw.contains("offers"@)) by {
        if kw.contains("offers"@) {
            let i = choose|i: int| 0 <= i < kw.len() && kw[i] == "offers"@;
            assert(kw[i].len() == 6);
        }
    }
    lemma_member_absent(o, "offers"@);
    lemma_member_absent(w, "offers"@);
}

/// The structured data a device profile publishes passes the publication
/// checks: the organization, the website, the page about the recipe, the
/// recipe resting on the device's public evidence, and no offer.
pub proof fn law_device_record_passes_the_checks(v: JsonValue, g: Seq<JsonValue>, d: DeviceRecord)
    requires
        record_value(v, g),
        device_graph(g, d, device_canonical(d.id@)),
    ensures
        context_ok(v),
        graph_items(v) == Some(g),
        organization_ok(g),
        website_ok(g),
        device_nodes_ok(g, d, device_canonical(d.id@)),
        !offers_something(g),
{
    let canonical = device_canonical(d.id@);
    let article_id = canonical + "#recipe"@;
    law_record_reads_back(v, g);
    law_base_nodes_pass_the_checks(g);
    lemma_page_node_reads(g[2], canonical, d.name@, d.summary@, article_id);
    lemma_article_node_reads(g[3], d, canonical);
    lemma_base_nodes_offer_nothing(g[0], g[1]);
    reveal_strlit("https://mer3ly.net/devices/");
    reveal_strlit("https://mer3ly.net/#organization");
    reveal_strlit("https://mer3ly.net/#website");
    reveal_strlit("@id");
    reveal_strlit("@type");
    assert("@type"@.len() == 5 && "@id"@.len() == 3);
    // The base nodes carry the organization's and the website's ids, which
    // part from every profile id at their twentieth character.
    let o = g[0];
    let w = g[1];
    assert(object_keys(o).take(1) =~= seq!["@type"@]);
    assert(object_keys(w).take(1) =~= seq!["@type"@]);
    lemma_member_named(o, "@id"@, 1);
    lemma_member_named(w, "@id"@, 1);
    assert(canonical[19] == 'd');
    assert(article_id[19] == 'd');
    assert(ORGANIZATION_ID@[19] == '#');
    assert(WEBSITE_ID@[19] == '#');
    assert(!has_id(o, canonical) && !has_id(w, canonical));
    assert(!has_id(o, article_id) && !has_id(w, article_id));
    assert(!has_id(g[2], article_id)) by {
        reveal_strlit("#recipe");
        assert(canonical.len() != article_id.len());
    }
    lemma_node_at(g, canonical, 2);
    lemma_node_at(g, article_id, 3);
    assert(!offers_something(g)) by {
        if offers_something(g) {
            let i = choose|i: int| 0 <= i < g.len() && (#[trigger] member(g[i], "offers"@)) is Some;
            assert(0 <= i < 4);
        }
    }
}

/// The entity names its source code: every repository but the
/// organization profile.
pub open spec fn names_code(r: RepositoryRecord) -> bool {
    entity_kind(r) == "SoftwareSourceCode"@
}

/// The member names of a repository's entity node, in order.
pub open spec fn entity_keys(r: RepositoryRecord, md: Option<PublicRepositoryMetadata>) -> Seq<Seq<char>> {
    seq!["@type"@, "@id"@, "name"@, "description"@, "url"@, "sameAs"@, "publisher"@] + (if names_code(r) {
        seq!["codeRepository"@]
    } else {
        Seq::empty()
    }) + (if names_code(r) && language_of(md) is Some {
        seq!["programmingLanguage"@]
    } else {
        Seq::empty()
    }) + (if topics_of(md).len() > 0 {
        seq!["keywords"@]
    } else {
        Seq::empty()
    })
}

/// The entity node of a project profile: the repository as a creative work
/// or as source code, with its language and its topics as the public
/// metadata records them.
pub open spec fn entity_node(v: JsonValue, r: RepositoryRecord, md: Option<PublicRepositoryMetadata>, canonical: Seq<char>) -> bool {
    let keys = entity_keys(r, md);
    &&& object_with(v, keys)
    &&& text_value(field(v, 0), entity_kind(r))
    &&& text_value(field(v, 1), canonical + "#repository"@)
    &&& text_value(field(v, 2), r.name@)
    &&& text_value(field(v, 3), r.summary@)
    &&& text_value(field(v, 4), canonical)
    &&& texts_value(field(v, 5), seq![repository_url(r)])
    &&& reference_value(field(v, 6), ORGANIZATION_ID@)
    &&& (names_code(r) ==> text_value(field(v, 7), repository_url(r)))
    &&& (names_code(r) && language_of(md) is Some ==> text_value(field(v, 8), language_of(md)->0))
    &&& (topics_of(md).len() > 0 ==> texts_value(field(v, keys.len() - 1), topics_of(md)))
}

/// The graph of a project profile: the base nodes, the page, the entity.
pub open spec fn project_graph(
    g: Seq<JsonValue>,
    r: RepositoryRecord,
    md: Option<PublicRepositoryMetadata>,
    canonical: Seq<char>,
) -> bool {
    &&& g.len() == 4
    &&& organization_node(g[0])
    &&& website_node(g[1])
    &&& page_node(g[2], canonical, r.name@, r.summary@, canonical + "#repository"@)
    &&& entity_node(g[3], r, md, canonical)
}

/// The metadata record, by value.
pub open spec fn record_of(m: Option<&PublicRepositoryMetadata>) -> Option<PublicRepositoryMetadata> {
    match m {
        Some(x) => Some(*x),
        None => None,
    }
}

/// The texts, as an array.
fn texts(items: &Vec<String>) -> (r: JsonValue)
    ensures
        texts_value(r, views(items@)),
{
    let mut out: Vec<JsonValue> = Vec::new();
    let mut i: usize = 0;
    while i < items.len()
        invariant
            i <= items@.len(),
            out@.len() == i,
            forall|k: int| 0 <= k < i ==> #[trigger] text_value(out@[k], items@[k]@),
        decreases items.len() - i,
    {
        out.push(text(items[i].as_str()));
        i = i + 1;
    }
    let r = JsonValue::Array(out);
    proof {
        assert forall|k: int| 0 <= k < views(items@).len() implies #[trigger] text_value(out@[k], views(items@)[k]) by {
            assert(text_value(out@[k], items@[k]@));
        }
    }
    r
}

/// The entity node of a project profile.
fn repository_entity(repository: &RepositoryRecord, metadata: Option<&PublicRepositoryMetadata>, canonical: &str) -> (r:
    JsonValue)
    ensures
        entity_node(r, *repository, record_of(metadata), canonical@),
{
    let ghost md = record_of(metadata);
    let url = cat2("https://github.com/", repository.github_slug.as_str());
    let entity_id = cat2(canonical, "#repository");
    let code = !str_eq(repository.id.as_str(), "org-profile");
    let mut links: Vec<JsonValue> = Vec::new();
    links.push(text(url.as_str()));
    let same_as = JsonValue::Array(links);
    proof {
        assert(texts_value(same_as, seq![repository_url(*repository)])) by {
            assert(text_value(links@[0], seq![repository_url(*repository)][0]));
        }
    }
    let mut fields: Vec<(String, JsonValue)> = Vec::new();
    fields.push((String::from_str("@type"), text(if code { "SoftwareSourceCode" } else { "CreativeWork" })));
    fields.push((String::from_str("@id"), text(entity_id.as_str())));
    fields.push((String::from_str("name"), text(repository.name.as_str())));
    fields.push((String::from_str("description"), text(repository.summary.as_str())));
    fields.push((String::from_str("url"), text(canonical)));
    fields.push((String::from_str("sameAs"), same_as));
    fields.push((String::from_str("publisher"), reference(ORGANIZATION_ID)));
    let ghost base = fields@;
    if code {
        fields.push((String::from_str("codeRepository"), text(url.as_str())));
        match metadata {
            Some(m) => match &m.primary_language {
                Some(language) => {
                    fields.push((String::from_str("programmingLanguage"), text(language.as_str())));
                },
                None => {},
            },
            None => {},
        }
    }
    let ghost coded = fields@;
    match metadata {
        Some(m) => {
            if m.topics.len() > 0 {
                fields.push((String::from_str("keywords"), texts(&m.topics)));
            }
        },
        None => {},
    }
    let r = JsonValue::Object(fields);
    proof {
        reveal_strlit("org-profile");
        reveal_strlit("CreativeWork");
        reveal_strlit("SoftwareSourceCode");
        assert("CreativeWork"@.len() != "SoftwareSourceCode"@.len());
        assert(code == names_code(*repository));
        assert(object_keys(r) =~= entity_keys(*repository, md));
    }
    r
}

/// The record of a project profile at `canonical`: the base nodes, the page
/// node about the repository, and the repository's entity.
pub fn project_json_ld_record(
    repository: &RepositoryRecord,
    metadata: Option<&PublicRepositoryMetadata>,
    canonical: &str,
) -> (r: JsonValue)
    ensures
        exists|g: Seq<JsonValue>| record_value(r, g) && project_graph(g, *repository, record_of(metadata), canonical@),
{
    let entity_id = cat2(canonical, "#repository");
    let mut graph = base_schema_graph();
    graph.push(web_page(canonical, repository.name.as_str(), repository.summary.as_str(), entity_id.as_str()));
    graph.push(repository_entity(repository, metadata, canonical));
    let ghost g = graph@;
    json_ld_record(graph)
}

/// An array of exactly the texts reads back as the keyword check reads it.
proof fn lemma_texts_read(v: JsonValue, s: Seq<Seq<char>>)
    requires
        texts_value(v, s),
        s.len() > 0,
    ensures
        topics_ok(items_of(Some(v)), s),
{
    match v {
        JsonValue::Array(items) => {
            let a = items@;
            assert forall|i: int| 0 <= i < a.len() implies text_of(Some(#[trigger] a[i])) == Some(s[i]) by {
                assert(text_value(a[i], s[i]));
            }
        },
        _ => {},
    }
}

/// The entity node reads back as the entity and source checks read it.
proof fn lemma_entity_node_reads(v: JsonValue, r: RepositoryRecord, md: Option<PublicRepositoryMetadata>, canonical: Seq<char>)
    requires
        entity_node(v, r, md, canonical),
    ensures
        has_id(v, canonical + "#repository"@),
        entity_ok(Some(v), entity_kind(r), canonical, repository_url(r)),
        names_code(r) ==> source_ok(Some(v), repository_url(r), md),
{
    reveal_strlit("@type");
    reveal_strlit("@id");
    reveal_strlit("name");
    reveal_strlit("description");
    reveal_strlit("url");
    reveal_strlit("sameAs");
    reveal_strlit("publisher");
    reveal_strlit("codeRepository");
    reveal_strlit("programmingLanguage");
    reveal_strlit("keywords");
    assert("@type"@.len() == 5 && "@id"@.len() == 3 && "name"@.len() == 4 && "description"@.len() == 11);
    assert("url"@.len() == 3 && "sameAs"@.len() == 6 && "publisher"@.len() == 9 && "codeRepository"@.len() == 14);
    assert("programmingLanguage"@.len() == 19 && "keywords"@.len() == 8 && "url"@[0] != "@id"@[0]);
    let keys = object_keys(v);
    let base = seq!["@type"@, "@id"@, "name"@, "description"@, "url"@, "sameAs"@, "publisher"@];
    let c = if names_code(r) {
        seq!["codeRepository"@]
    } else {
        Seq::empty()
    };
    let l = if names_code(r) && language_of(md) is Some {
        seq!["programmingLanguage"@]
    } else {
        Seq::empty()
    };
    let t = if topics_of(md).len() > 0 {
        seq!["keywords"@]
    } else {
        Seq::empty()
    };
    assert(keys == base + c + l + t);
    assert(keys.take(1) =~= seq!["@type"@]);
    assert(keys.take(4) =~= seq!["@type"@, "@id"@, "name"@, "description"@]);
    assert(keys.take(5) =~= seq!["@type"@, "@id"@, "name"@, "description"@, "url"@]);
    assert(keys.take(6) =~= seq!["@type"@, "@id"@, "name"@, "description"@, "url"@, "sameAs"@]);
    assert(keys.take(7) =~= base);
    lemma_member_at(v, "@type"@, 0);
    lemma_member_named(v, "@id"@, 1);
    lemma_member_named(v, "url"@, 4);
    lemma_member_named(v, "sameAs"@, 5);
    lemma_member_named(v, "publisher"@, 6);
    lemma_member_at(field(v, 6), "@id"@, 0);
    match field(v, 5) {
        JsonValue::Array(items) => {
            assert(text_value(items@[0], seq![repository_url(r)][0]));
        },
        _ => {},
    }
    if names_code(r) {
        lemma_member_named(v, "codeRepository"@, 7);
        let before_language = base + c;
        assert(keys.take(8) =~= before_language);
        if language_of(md) is Some {
            lemma_member_named(v, "programmingLanguage"@, 8);
        } else {
            assert(!keys.contains("programmingLanguage"@)) by {
                if keys.contains("programmingLanguage"@) {
                    let i = choose|i: int| 0 <= i < keys.len() && keys[i] == "programmingLanguage"@;
                    assert(keys[i].len() == 19);
                }
            }
            lemma_member_absent(v, "programmingLanguage"@);
        }
    }
    if topics_of(md).len() > 0 {
        let k = keys.len() - 1;
        assert(keys.take(k) =~= base + c + l);
        lemma_member_named(v, "keywords"@, k);
        lemma_texts_read(field(v, k), topics_of(md));
    } else {
        assert(!keys.contains("keywords"@)) by {
            if keys.contains("keywords"@) {
                let i = choose|i: int| 0 <= i < keys.len() && keys[i] == "keywords"@;
                assert(keys[i].len() == 8);
            }
        }
        lemma_member_absent(v, "keywords"@);
    }
}

/// The structured data a project profile publishes passes the publication
/// checks: the organization, the website, the page about the repository,
/// and the repository's entity with its source, language and topics as the
/// public metadata records them.
pub proof fn law_project_record_passes_the_checks(v: JsonValue, g: Seq<JsonValue>, r: RepositoryRecord, m: PublicMetadataCache)
    requires
        record_value(v, g),
        project_graph(g, r, metadata_for(m.repository@, r.id@), project_canonical(r.id@)),
    ensures
        context_ok(v),
        graph_items(v) == Some(g),
        organization_ok(g),
        website_ok(g),
        project_nodes_ok(g, r, m, project_canonical(r.id@)),
{
    let canonical = project_canonical(r.id@);
    let entity_id = canonical + "#repository"@;
    let md = metadata_for(m.repository@, r.id@);
    law_record_reads_back(v, g);
    law_base_nodes_pass_the_checks(g);
    lemma_page_node_reads(g[2], canonical, r.name@, r.summary@, entity_id);
    lemma_entity_node_reads(g[3], r, md, canonical);
    reveal_strlit("https://mer3ly.net/projects/");
    reveal_strlit("https://mer3ly.net/#organization");
    reveal_strlit("https://mer3ly.net/#website");
    reveal_strlit("@id");
    reveal_strlit("@type");
    assert("@type"@.len() == 5 && "@id"@.len() == 3);
    let o = g[0];
    let w = g[1];
    assert(object_keys(o).take(1) =~= seq!["@type"@]);
    assert(object_keys(w).take(1) =~= seq!["@type"@]);
    lemma_member_named(o, "@id"@, 1);
    lemma_member_named(w, "@id"@, 1);
    assert(canonical[19] == 'p');
    assert(entity_id[19] == 'p');
    assert(ORGANIZATION_ID@[19] == '#');
    assert(WEBSITE_ID@[19] == '#');
    assert(!has_id(o, canonical) && !has_id(w, canonical));
    assert(!has_id(o, entity_id) && !has_id(w, entity_id));
    assert(!has_id(g[2], entity_id)) by {
        reveal_strlit("#repository");
        assert(canonical.len() != entity_id.len());
    }
    lemma_node_at(g, canonical, 2);
    lemma_node_at(g, entity_id, 3);
    assert(page_ok(g, canonical, entity_id));
}

} // verus!
