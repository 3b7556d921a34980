//! Checks on the generated public artifact: which files are scanned, the
//! domain file, the discovery metadata in each page head, the inline data a
//! page carries, and the ids a page projects from the authority.

use vstd::prelude::*;

use crate::devices::{DeviceCatalog, DeviceRecord};
use crate::repositories::{Authority, RelationRecord, RepositoryRecord, ShowcaseManifest, ShowcaseRecord, relation_ids};
use crate::site::{escape_attr, escaped_attr};
use crate::text::{has_prefix, views, cat2, cat3, chars_of, ends_with, find_from, flag, flag_if, grew, has_infix, has_suffix, note, noted, occurs_at, str_eq, text_between, trim, trimmed, contains_str};

verus! {

/// What the artifact check found: the files and the counts of what each
/// page projects.
#[derive(Debug)]
pub struct ArtifactReceipt {
    pub schema: &'static str,
    pub source_sha: String,
    pub files: Vec<ArtifactFileReceipt>,
    pub total_bytes: u64,
    pub repositories: usize,
    pub relation_text_projections: usize,
    pub graph_nodes: usize,
    pub graph_edges: usize,
    pub project_profiles: usize,
    pub project_relation_projections: usize,
    pub showcase_images: usize,
    pub sitemap_urls: usize,
    pub project_social_previews: usize,
    pub project_structured_records: usize,
    pub projection_score_items: usize,
    pub projection_final_revision: u64,
    pub projection_active_relations: usize,
    pub device_profiles: usize,
    pub device_structured_records: usize,
    pub sellable_devices: usize,
    pub metadata_generated_at_utc: String,
    pub metadata_sha256: String,
}

/// One file of the artifact, with its size and digest.
#[derive(Debug)]
pub struct ArtifactFileReceipt {
    pub path: String,
    pub bytes: u64,
    pub sha256: String,
}

/// The social metadata a page head must carry.
pub struct ExpectedSocialMetadata<'a> {
    pub canonical: &'a str,
    pub image_url: &'a str,
    pub image_type: &'a str,
    pub image_alt: &'a str,
}

/// A file whose text is scanned for private material.
pub open spec fn scannable(path: Seq<char>) -> bool {
    ||| has_suffix(path, ".html"@)
    ||| has_suffix(path, ".css"@)
    ||| has_suffix(path, ".js"@)
    ||| has_suffix(path, ".json"@)
    ||| has_suffix(path, ".svg"@)
    ||| has_suffix(path, ".txt"@)
    ||| has_suffix(path, ".xml"@)
    ||| has_suffix(path, ".wasm"@)
    ||| has_suffix(path, "CNAME"@)
}

/// Whether the file at `path` is scanned for private material.
pub fn is_scannable(path: &str) -> (r: bool)
    ensures
        r == scannable(path@),
{
    ends_with(path, ".html") || ends_with(path, ".css") || ends_with(path, ".js") || ends_with(path, ".json") || ends_with(
        path,
        ".svg",
    ) || ends_with(path, ".txt") || ends_with(path, ".xml") || ends_with(path, ".wasm") || ends_with(path, "CNAME")
}

/// Checks that the domain file names the approved public domain.
pub fn validate_cname(relative: &str, contents: &str, errors: &mut Vec<String>)
    ensures
        noted(
            old(errors)@,
            final(errors)@,
            trimmed(contents@) != "mer3ly.net"@,
            relative@ + " does not name the approved public domain"@,
        ),
{
    let t = trim(contents);
    let bad = !str_eq(t.as_str(), "mer3ly.net");
    note(errors, bad, cat2(relative, " does not name the approved public domain"));
}

/// Position `i` is the first occurrence of `p` in `s` at or after `from`.
pub open spec fn first_occurrence(s: Seq<char>, p: Seq<char>, from: int, i: int) -> bool {
    &&& from <= i
    &&& occurs_at(s, p, i)
    &&& forall|k: int| from <= k < i ==> !#[trigger] occurs_at(s, p, k)
}

/// `p` occurs in `s` at or after `from`.
pub open spec fn occurs_after(s: Seq<char>, p: Seq<char>, from: int) -> bool {
    exists|i: int| #[trigger] first_occurrence(s, p, from, i)
}

/// The number of non-overlapping occurrences of a non-empty `p` in `s` from
/// `from` on, found left to right, as `str::matches` counts them.
pub open spec fn matches_from(s: Seq<char>, p: Seq<char>, from: int) -> nat
    decreases s.len() - from,
{
    if p.len() == 0 || from < 0 || from > s.len() || !occurs_after(s, p, from) {
        0
    } else {
        let i = choose|i: int| #[trigger] first_occurrence(s, p, from, i);
        if i + p.len() > from {
            1 + matches_from(s, p, i + p.len())
        } else {
            0
        }
    }
}

/// The number of non-overlapping occurrences of a non-empty `p` in `s`.
pub(crate) fn count_matches(s: &str, p: &str) -> (r: usize)
    ensures
        r == matches_from(s@, p@, 0),
{
    let cs = chars_of(s);
    let ps = chars_of(p);
    if ps.len() == 0 {
        return 0;
    }
    let mut count: usize = 0;
    let mut from: usize = 0;
    let ghost total = matches_from(s@, p@, 0);
    while from <= cs.len()
        invariant
            cs@ == s@,
            ps@ == p@,
            p@.len() > 0,
            from <= cs@.len() + 1,
            count <= from,
            from <= cs@.len() ==> count + matches_from(s@, p@, from as int) == total,
            from > cs@.len() ==> count == total,
            total == matches_from(s@, p@, 0),
        decreases cs@.len() + 1 - from,
    {
        match find_from(&cs, &ps, from) {
            None => {
                proof {
                    assert forall|i: int| !#[trigger] first_occurrence(s@, p@, from as int, i) by {}
                    assert(matches_from(s@, p@, from as int) == 0);
                }
                return count;
            },
            Some(i) => {
                proof {
                    assert(first_occurrence(s@, p@, from as int, i as int));
                    let j = choose|j: int| #[trigger] first_occurrence(s@, p@, from as int, j);
                    if j < i {
                        assert(!occurs_at(s@, p@, j));
                    } else if j > i {
                        assert(!occurs_at(s@, p@, i as int));
                    }
                    assert(matches_from(s@, p@, from as int) == 1 + matches_from(s@, p@, i + p@.len()));
                }
                let n = cs.len();
                let m = ps.len();
                assert(i + m <= n);
                count = count + 1;
                from = i + m;
            },
        }
    }
    count
}

/// The text between the first `marker` and the next `"`, if both occur.
pub open spec fn quoted_value(doc: Seq<char>, marker: Seq<char>) -> Option<Seq<char>> {
    if !occurs_after(doc, marker, 0) {
        None
    } else {
        let start = (choose|i: int| #[trigger] first_occurrence(doc, marker, 0, i)) + marker.len();
        if !occurs_after(doc, "\""@, start) {
            None
        } else {
            let end = choose|e: int| #[trigger] first_occurrence(doc, "\""@, start, e);
            Some(doc.subrange(start, end))
        }
    }
}

/// The first occurrence of `p` in `cs` at or after `from`, if any.
pub(crate) fn find_first(cs: &Vec<char>, p: &Vec<char>, from: usize) -> (r: Option<usize>)
    ensures
        match r {
            Some(i) => first_occurrence(cs@, p@, from as int, i as int) && occurs_after(cs@, p@, from as int) && i == (choose|j: int|
                #[trigger] first_occurrence(cs@, p@, from as int, j)),
            None => !occurs_after(cs@, p@, from as int),
        },
{
    match find_from(cs, p, from) {
        None => {
            proof {
                assert forall|i: int| !#[trigger] first_occurrence(cs@, p@, from as int, i) by {}
            }
            None
        },
        Some(i) => {
            proof {
                assert(first_occurrence(cs@, p@, from as int, i as int));
                let j = choose|j: int| #[trigger] first_occurrence(cs@, p@, from as int, j);
                if j < i {
                    assert(!occurs_at(cs@, p@, j));
                } else if j > i {
                    assert(!occurs_at(cs@, p@, i as int));
                }
            }
            Some(i)
        },
    }
}

/// The attribute value that follows the first `marker` in the document.
pub fn quoted_attribute_value(document: &str, marker: &str) -> (r: Option<String>)
    ensures
        match r {
            Some(v) => quoted_value(document@, marker@) == Some(v@),
            None => quoted_value(document@, marker@) is None,
        },
{
    let cs = chars_of(document);
    let ms = chars_of(marker);
    let quote = chars_of("\"");
    match find_first(&cs, &ms, 0) {
        None => None,
        Some(i) => {
            assert(occurs_at(cs@, ms@, i as int));
            let n = cs.len();
            let m = ms.len();
            assert(i + m <= n);
            let start = i + m;
            match find_first(&cs, &quote, start) {
                None => None,
                Some(e) => Some(text_between(&cs, start, e)),
            }
        },
    }
}

/// Escapes a value for an HTML attribute, as the page shell does.
pub fn escape_html_attr(value: &str) -> (r: String)
    ensures
        r@ == escaped_attr(value@),
{
    escape_attr(value)
}

/// The opening tag of the inline JSON data element with the given id.
pub open spec fn inline_marker(id: Seq<char>) -> Seq<char> {
    "<script id=\""@ + id + "\" type=\"application/json\">"@
}

/// The text between the opening tag of the inline JSON element with the given
/// id and the next `</script>`.
pub open spec fn inline_text(doc: Seq<char>, id: Seq<char>) -> Option<Seq<char>> {
    let marker = inline_marker(id);
    if !occurs_after(doc, marker, 0) {
        None
    } else {
        let start = (choose|i: int| #[trigger] first_occurrence(doc, marker, 0, i)) + marker.len();
        if !occurs_after(doc, "</script>"@, start) {
            None
        } else {
            let end = choose|e: int| #[trigger] first_occurrence(doc, "</script>"@, start, e);
            Some(doc.subrange(start, end))
        }
    }
}

/// The inline JSON text of the data element with the given id.
pub fn inline_json(document: &str, id: &str) -> (r: Option<String>)
    ensures
        match r {
            Some(v) => inline_text(document@, id@) == Some(v@),
            None => inline_text(document@, id@) is None,
        },
{
    let marker = cat3("<script id=\"", id, "\" type=\"application/json\">");
    let cs = chars_of(document);
    let ms = chars_of(marker.as_str());
    let close = chars_of("</script>");
    match find_first(&cs, &ms, 0) {
        None => None,
        Some(i) => {
            assert(occurs_at(cs@, ms@, i as int));
            let n = cs.len();
            let m = ms.len();
            assert(i + m <= n);
            let start = i + m;
            match find_first(&cs, &close, start) {
                None => None,
                Some(e) => Some(text_between(&cs, start, e)),
            }
        },
    }
}

/// The exact tags a page head must carry once each, for the given canonical
/// URL and social image.
pub open spec fn social_needles_of(canonical: Seq<char>, image_url: Seq<char>, image_type: Seq<char>, image_alt: Seq<char>) -> Seq<Seq<char>> {
    seq![
        "<link rel=\"canonical\" href=\""@ + escaped_attr(canonical) + "\">"@,
        "<meta property=\"og:type\" content=\"website\">"@,
        "<meta property=\"og:site_name\" content=\"Merely\">"@,
        "<meta property=\"og:url\" content=\""@ + escaped_attr(canonical) + "\">"@,
        "<meta property=\"og:image\" content=\""@ + escaped_attr(image_url) + "\">"@,
        "<meta property=\"og:image:type\" content=\""@ + escaped_attr(image_type) + "\">"@,
        "<meta property=\"og:image:alt\" content=\""@ + escaped_attr(image_alt) + "\">"@,
        "<meta name=\"twitter:card\" content=\"summary_large_image\">"@,
        "<meta name=\"twitter:image\" content=\""@ + escaped_attr(image_url) + "\">"@,
        "<meta name=\"twitter:image:alt\" content=\""@ + escaped_attr(image_alt) + "\">"@,
        "<link rel=\"icon\" href=\"/favicon.svg\" type=\"image/svg+xml\">"@,
        "<link rel=\"sitemap\" href=\"/sitemap.xml\" type=\"application/xml\" title=\"Sitemap\">"@,
    ]
}

/// The exact tags a page head must carry once each.
pub open spec fn social_needles(e: ExpectedSocialMetadata) -> Seq<Seq<char>> {
    social_needles_of(e.canonical@, e.image_url@, e.image_type@, e.image_alt@)
}

/// The Open Graph and Twitter forms of one value agree, are present once
/// each, and are not empty.
pub open spec fn social_pair_ok(doc: Seq<char>, first: Seq<char>, second: Seq<char>) -> bool {
    &&& quoted_value(doc, first) is Some
    &&& quoted_value(doc, first)->0.len() > 0
    &&& quoted_value(doc, first) == quoted_value(doc, second)
    &&& matches_from(doc, first, 0) == 1
    &&& matches_from(doc, second, 0) == 1
}

/// The page head carries its discovery metadata for the given canonical URL
/// and social image exactly once each, with the social title and
/// description agreeing.
#[verifier::opaque]
pub open spec fn social_head_ok_of(
    doc: Seq<char>,
    canonical: Seq<char>,
    image_url: Seq<char>,
    image_type: Seq<char>,
    image_alt: Seq<char>,
) -> bool {
    &&& forall|k: int|
        0 <= k < social_needles_of(canonical, image_url, image_type, image_alt).len() ==> matches_from(
            doc,
            #[trigger] social_needles_of(canonical, image_url, image_type, image_alt)[k],
            0,
        ) == 1
    &&& social_pair_ok(doc, "<meta property=\"og:title\" content=\""@, "<meta name=\"twitter:title\" content=\""@)
    &&& social_pair_ok(doc, "<meta property=\"og:description\" content=\""@, "<meta name=\"twitter:description\" content=\""@)
}

/// The page head carries its discovery metadata exactly once each, with the
/// social title and description agreeing.
pub open spec fn social_head_ok(doc: Seq<char>, e: ExpectedSocialMetadata) -> bool {
    social_head_ok_of(doc, e.canonical@, e.image_url@, e.image_type@, e.image_alt@)
}

/// The names of the head tags, in the order they are checked.
pub open spec fn needle_names() -> Seq<Seq<char>> {
    seq![
        "canonical URL"@,
        "Open Graph type"@,
        "Open Graph site name"@,
        "Open Graph URL"@,
        "Open Graph image"@,
        "Open Graph image type"@,
        "Open Graph image alt"@,
        "Twitter card"@,
        "Twitter image"@,
        "Twitter image alt"@,
        "favicon"@,
        "sitemap link"@,
    ]
}

/// The message for a head tag that is not present exactly once.
#[verifier::opaque]
pub open spec fn tag_finding(doc: Seq<char>, label: Seq<char>, name: Seq<char>, needle: Seq<char>) -> Seq<Seq<char>> {
    flag(matches_from(doc, needle, 0) != 1, label + " has invalid "@ + name + " metadata"@)
}

/// The message for head tag `k`, where it is not present exactly once.
pub open spec fn needle_finding(doc: Seq<char>, label: Seq<char>, ns: Seq<Seq<char>>, k: int) -> Seq<Seq<char>> {
    tag_finding(doc, label, needle_names()[k], ns[k])
}

/// The message for a social value whose two forms disagree.
#[verifier::opaque]
pub open spec fn pair_finding(doc: Seq<char>, label: Seq<char>, name: Seq<char>, first: Seq<char>, second: Seq<char>) -> Seq<Seq<char>> {
    flag(!social_pair_ok(doc, first, second), label + " has invalid social "@ + name + " metadata"@)
}

/// What the check of a page head records, in order: one message per head
/// tag that is not present exactly once, then one per social value whose two
/// forms disagree.
#[verifier::opaque]
pub open spec fn social_findings_of(
    doc: Seq<char>,
    label: Seq<char>,
    canonical: Seq<char>,
    image_url: Seq<char>,
    image_type: Seq<char>,
    image_alt: Seq<char>,
) -> Seq<Seq<char>> {
    let ns = social_needles_of(canonical, image_url, image_type, image_alt);
    needle_finding(doc, label, ns, 0) + needle_finding(doc, label, ns, 1) + needle_finding(doc, label, ns, 2)
        + needle_finding(doc, label, ns, 3) + needle_finding(doc, label, ns, 4) + needle_finding(doc, label, ns, 5)
        + needle_finding(doc, label, ns, 6) + needle_finding(doc, label, ns, 7) + needle_finding(doc, label, ns, 8)
        + needle_finding(doc, label, ns, 9) + needle_finding(doc, label, ns, 10) + needle_finding(doc, label, ns, 11)
        + pair_finding(doc, label, "title"@, "<meta property=\"og:title\" content=\""@, "<meta name=\"twitter:title\" content=\""@)
        + pair_finding(
        doc,
        label,
        "description"@,
        "<meta property=\"og:description\" content=\""@,
        "<meta name=\"twitter:description\" content=\""@,
    )
}

/// What the check of a page head records.
pub open spec fn social_findings(doc: Seq<char>, label: Seq<char>, e: ExpectedSocialMetadata) -> Seq<Seq<char>> {
    social_findings_of(doc, label, e.canonical@, e.image_url@, e.image_type@, e.image_alt@)
}

/// The head check records nothing exactly when the head is in order.
pub proof fn lemma_social_findings_empty(
    doc: Seq<char>,
    label: Seq<char>,
    canonical: Seq<char>,
    image_url: Seq<char>,
    image_type: Seq<char>,
    image_alt: Seq<char>,
)
    ensures
        (social_findings_of(doc, label, canonical, image_url, image_type, image_alt).len() == 0) == social_head_ok_of(
            doc,
            canonical,
            image_url,
            image_type,
            image_alt,
        ),
{
    reveal(tag_finding);
    reveal(pair_finding);
    reveal(social_findings_of);
    reveal(social_head_ok_of);
    let ns = social_needles_of(canonical, image_url, image_type, image_alt);
    if forall|k: int| 0 <= k < ns.len() ==> matches_from(doc, #[trigger] ns[k], 0) == 1 {
        assert(matches_from(doc, ns[0], 0) == 1);
        assert(matches_from(doc, ns[1], 0) == 1);
        assert(matches_from(doc, ns[2], 0) == 1);
        assert(matches_from(doc, ns[3], 0) == 1);
        assert(matches_from(doc, ns[4], 0) == 1);
        assert(matches_from(doc, ns[5], 0) == 1);
        assert(matches_from(doc, ns[6], 0) == 1);
        assert(matches_from(doc, ns[7], 0) == 1);
        assert(matches_from(doc, ns[8], 0) == 1);
        assert(matches_from(doc, ns[9], 0) == 1);
        assert(matches_from(doc, ns[10], 0) == 1);
        assert(matches_from(doc, ns[11], 0) == 1);
    } else {
        let k = choose|k: int| 0 <= k < ns.len() && matches_from(doc, #[trigger] ns[k], 0) != 1;
        assert(needle_finding(doc, label, ns, k).len() == 1);
    }
}

/// Records whether the head carries `needle` exactly once.
fn check_needle(document: &str, label: &str, name: &str, needle: String, errors: &mut Vec<String>)
    ensures
        views(final(errors)@) == views(old(errors)@) + tag_finding(document@, label@, name@, needle@),
{
    reveal(tag_finding);
    let bad = count_matches(document, needle.as_str()) != 1;
    let tail = cat2(name, " metadata");
    let msg = cat3(label, " has invalid ", tail.as_str());
    proof {
        assert(msg@ =~= label@ + " has invalid "@ + name@ + " metadata"@);
    }
    flag_if(errors, bad, msg);
}

/// Records whether the two forms of one social value agree.
fn check_pair(document: &str, label: &str, name: &str, first: &str, second: &str, errors: &mut Vec<String>)
    ensures
        views(final(errors)@) == views(old(errors)@) + pair_finding(document@, label@, name@, first@, second@),
{
    reveal(pair_finding);
    let first_value = quoted_attribute_value(document, first);
    let second_value = quoted_attribute_value(document, second);
    let same = match (&first_value, &second_value) {
        (Some(a), Some(b)) => str_eq(a.as_str(), b.as_str()),
        (None, None) => true,
        _ => false,
    };
    let present = match &first_value {
        Some(a) => !crate::text::blank_free(a.as_str()),
        None => false,
    };
    let bad = !present || !same || count_matches(document, first) != 1 || count_matches(document, second) != 1;
    let tail = cat2(name, " metadata");
    let msg = cat3(label, " has invalid social ", tail.as_str());
    proof {
        assert(msg@ =~= label@ + " has invalid social "@ + name@ + " metadata"@);
    }
    flag_if(errors, bad, msg);
}

/// Wraps an escaped value in a fixed tag prefix and `">`.
fn tag_with(prefix: &str, value: &str) -> (r: String)
    ensures
        r@ == prefix@ + escaped_attr(value@) + "\">"@,
{
    let escaped = escape_attr(value);
    cat3(prefix, escaped.as_str(), "\">")
}

/// Checks the discovery metadata of a page head, recording one message per
/// tag or social value that is amiss.
#[verifier::rlimit(30)]
pub fn validate_social_head(document: &str, label: &str, expected: &ExpectedSocialMetadata, errors: &mut Vec<String>)
    ensures
        views(final(errors)@) == views(old(errors)@) + social_findings(document@, label@, *expected),
        grew(old(errors)@, final(errors)@, social_head_ok(document@, *expected)),
{
    let ghost before = views(errors@);
    let ghost ns = social_needles(*expected);
    let ghost mut acc: Seq<Seq<char>> = Seq::empty();
    proof {
        reveal_strlit("\">");
    }
    check_needle(document, label, "canonical URL", tag_with("<link rel=\"canonical\" href=\"", expected.canonical), errors);
    proof {
        acc = needle_finding(document@, label@, ns, 0);
        assert(views(errors@) =~= before + acc);
    }
    check_needle(document, label, "Open Graph type", String::from_str("<meta property=\"og:type\" content=\"website\">"), errors);
    proof {
        let prior = acc;
        acc = prior + needle_finding(document@, label@, ns, 1);
        assert(views(errors@) =~= before + acc);
    }
    check_needle(document, label, "Open Graph site name", String::from_str("<meta property=\"og:site_name\" content=\"Merely\">"), errors);
    proof {
        let prior = acc;
        acc = prior + needle_finding(document@, label@, ns, 2);
        assert(views(errors@) =~= before + acc);
    }
    check_needle(document, label, "Open Graph URL", tag_with("<meta property=\"og:url\" content=\"", expected.canonical), errors);
    proof {
        let prior = acc;
        acc = prior + needle_finding(document@, label@, ns, 3);
        assert(views(errors@) =~= before + acc);
    }
    check_needle(document, label, "Open Graph image", tag_with("<meta property=\"og:image\" content=\"", expected.image_url), errors);
    proof {
        let prior = acc;
        acc = prior + needle_finding(document@, label@, ns, 4);
        assert(views(errors@) =~= before + acc);
    }
    check_needle(
        document,
        label,
        "Open Graph image type",
        tag_with("<meta property=\"og:image:type\" content=\"", expected.image_type),
        errors,
    );
    proof {
        let prior = acc;
        acc = prior + needle_finding(document@, label@, ns, 5);
        assert(views(errors@) =~= before + acc);
    }
    check_needle(
        document,
        label,
        "Open Graph image alt",
        tag_with("<meta property=\"og:image:alt\" content=\"", expected.image_alt),
        errors,
    );
    proof {
        let prior = acc;
        acc = prior + needle_finding(document@, label@, ns, 6);
        assert(views(errors@) =~= before + acc);
    }
    check_needle(
        document,
        label,
        "Twitter card",
        String::from_str("<meta name=\"twitter:card\" content=\"summary_large_image\">"),
        errors,
    );
    proof {
        let prior = acc;
        acc = prior + needle_finding(document@, label@, ns, 7);
        assert(views(errors@) =~= before + acc);
    }
    check_needle(document, label, "Twitter image", tag_with("<meta name=\"twitter:image\" content=\"", expected.image_url), errors);
    proof {
        let prior = acc;
        acc = prior + needle_finding(document@, label@, ns, 8);
        assert(views(errors@) =~= before + acc);
    }
    check_needle(
        document,
        label,
        "Twitter image alt",
        tag_with("<meta name=\"twitter:image:alt\" content=\"", expected.image_alt),
        errors,
    );
    proof {
        let prior = acc;
        acc = prior + needle_finding(document@, label@, ns, 9);
        assert(views(errors@) =~= before + acc);
    }
    check_needle(document, label, "favicon", String::from_str("<link rel=\"icon\" href=\"/favicon.svg\" type=\"image/svg+xml\">"), errors);
    proof {
        let prior = acc;
        acc = prior + needle_finding(document@, label@, ns, 10);
        assert(views(errors@) =~= before + acc);
    }
    check_needle(
        document,
        label,
        "sitemap link",
        String::from_str("<link rel=\"sitemap\" href=\"/sitemap.xml\" type=\"application/xml\" title=\"Sitemap\">"),
        errors,
    );
    proof {
        let prior = acc;
        acc = prior + needle_finding(document@, label@, ns, 11);
        assert(views(errors@) =~= before + acc);
    }
    proof {
        reveal_strlit("<meta property=\"og:title\" content=\"");
        reveal_strlit("<meta name=\"twitter:title\" content=\"");
        reveal_strlit("<meta property=\"og:description\" content=\"");
        reveal_strlit("<meta name=\"twitter:description\" content=\"");
    }
    check_pair(document, label, "title", "<meta property=\"og:title\" content=\"", "<meta name=\"twitter:title\" content=\"", errors);
    proof {
        let prior = acc;
        acc = prior + pair_finding(document@, label@, "title"@, "<meta property=\"og:title\" content=\""@, "<meta name=\"twitter:title\" content=\""@);
        assert(views(errors@) =~= before + acc);
    }
    check_pair(
        document,
        label,
        "description",
        "<meta property=\"og:description\" content=\"",
        "<meta name=\"twitter:description\" content=\"",
        errors,
    );
    proof {
        let prior = acc;
        acc = prior + pair_finding(document@, label@, "description"@, "<meta property=\"og:description\" content=\""@, "<meta name=\"twitter:description\" content=\""@);
        assert(views(errors@) =~= before + acc);
    }
    proof {
        reveal(social_findings_of);
        assert(acc == social_findings(document@, label@, *expected));
        lemma_social_findings_empty(
            document@,
            label@,
            expected.canonical@,
            expected.image_url@,
            expected.image_type@,
            expected.image_alt@,
        );
        crate::text::lemma_views_len(errors@);
        crate::text::lemma_views_len(old(errors)@);
    }
}

/// The test for being the text `x`.
pub open spec fn is_text(x: Seq<char>) -> spec_fn(Seq<char>) -> bool {
    |y: Seq<char>| y == x
}

/// How many times `x` occurs in `s`.
pub open spec fn occurrences(s: Seq<Seq<char>>, x: Seq<char>) -> nat {
    s.filter(is_text(x)).len()
}

/// The ids of the public repositories.
pub open spec fn public_ids(rs: Seq<RepositoryRecord>) -> Seq<Seq<char>> {
    rs.filter(|r: RepositoryRecord| r.public).map_values(|r: RepositoryRecord| r.id@)
}

/// The number of times `x` occurs in `v`.
fn count_of(v: &[String], x: &str) -> (r: usize)
    ensures
        r == occurrences(views(v@), x@),
{
    let ghost vs = views(v@);
    let ghost pred = is_text(x@);
    let mut count: usize = 0;
    let mut i: usize = 0;
    while i < v.len()
        invariant
            i <= v@.len(),
            vs == views(v@),
            pred == is_text(x@),
            count == vs.take(i as int).filter(pred).len(),
            count <= i,
        decreases v@.len() - i,
    {
        proof {
            crate::text::lemma_filter_take_step(vs, pred, i as int);
        }
        if str_eq(v[i].as_str(), x) {
            count = count + 1;
        }
        i = i + 1;
    }
    assert(vs.take(v@.len() as int) =~= vs);
    count
}

/// Whether `x` is one of `v`.
fn holds(v: &[String], x: &str) -> (r: bool)
    ensures
        r == views(v@).contains(x@),
{
    let ghost vs = views(v@);
    let mut i: usize = 0;
    while i < v.len()
        invariant
            i <= v@.len(),
            vs == views(v@),
            forall|k: int| 0 <= k < i ==> vs[k] != x@,
        decreases v@.len() - i,
    {
        if str_eq(v[i].as_str(), x) {
            assert(vs[i as int] == x@);
            return true;
        }
        i = i + 1;
    }
    false
}

/// Each id of `expected` occurs exactly `times` times in `actual`, and no
/// other id occurs there.
pub open spec fn counts_match(actual: Seq<Seq<char>>, expected: Seq<Seq<char>>, times: nat) -> bool {
    forall|x: Seq<char>| #[trigger] occurrences(actual, x) == (if expected.contains(x) { times } else { 0 })
}

proof fn lemma_occurrences_contains(s: Seq<Seq<char>>, x: Seq<char>)
    ensures
        (occurrences(s, x) > 0) == s.contains(x),
{
    let pred = is_text(x);
    if s.contains(x) {
        let k = choose|k: int| 0 <= k < s.len() && s[k] == x;
        s.lemma_filter_contains(pred, k);
        let j = choose|j: int| 0 <= j < s.filter(pred).len() && s.filter(pred)[j] == s[k];
    }
    if occurrences(s, x) > 0 {
        s.lemma_filter_pred(pred, 0);
        assert(s.filter(pred)[0] == x);
        assert(s.filter(pred).contains(x));
        s.lemma_filter_contains_rev(pred, x);
    }
}

/// Whether each id of `expected` occurs exactly `times` times in `actual`
/// and no other id occurs there.
fn ids_counted(actual: &[String], expected: &[String], times: usize) -> (r: bool)
    requires
        times > 0,
    ensures
        r == counts_match(views(actual@), views(expected@), times as nat),
{
    let ghost av = views(actual@);
    let ghost ev = views(expected@);
    let mut i: usize = 0;
    while i < actual.len()
        invariant
            i <= actual@.len(),
            av == views(actual@),
            ev == views(expected@),
            forall|k: int| 0 <= k < i ==> ev.contains(#[trigger] av[k]) && occurrences(av, av[k]) == times,
        decreases actual@.len() - i,
    {
        let x = actual[i].as_str();
        assert(av[i as int] == x@);
        if !holds(expected, x) || count_of(actual, x) != times {
            proof {
                assert(av.contains(x@));
                lemma_occurrences_contains(av, x@);
                if ev.contains(x@) {
                    assert(occurrences(av, x@) != times);
                }
                assert(!(occurrences(av, x@) == (if ev.contains(x@) { times as nat } else { 0 })));
            }
            return false;
        }
        i = i + 1;
    }
    let mut j: usize = 0;
    while j < expected.len()
        invariant
            j <= expected@.len(),
            av == views(actual@),
            ev == views(expected@),
            forall|k: int| 0 <= k < actual@.len() ==> ev.contains(#[trigger] av[k]) && occurrences(av, av[k]) == times,
            forall|k: int| 0 <= k < j ==> av.contains(#[trigger] ev[k]),
            times > 0,
        decreases expected@.len() - j,
    {
        let y = expected[j].as_str();
        assert(ev[j as int] == y@);
        if !holds(actual, y) {
            proof {
                lemma_occurrences_contains(av, y@);
                assert(ev.contains(y@));
                assert(!(occurrences(av, y@) == times));
            }
            return false;
        }
        j = j + 1;
    }
    proof {
        assert forall|x: Seq<char>| #[trigger] occurrences(av, x) == (if ev.contains(x) { times as nat } else { 0 }) by {
            lemma_occurrences_contains(av, x);
            if av.contains(x) {
                let k = choose|k: int| 0 <= k < av.len() && av[k] == x;
                assert(ev.contains(av[k]));
            } else if ev.contains(x) {
                let k = choose|k: int| 0 <= k < ev.len() && ev[k] == x;
                assert(av.contains(ev[k]));
            }
        }
    }
    true
}


/// The ids of the public repositories, as strings.
pub(crate) fn public_id_list(rs: &Vec<RepositoryRecord>) -> (r: Vec<String>)
    ensures
        views(r@) == public_ids(rs@),
{
    let ghost pred = |r: RepositoryRecord| r.public;
    let mut out: Vec<String> = Vec::new();
    let mut i: usize = 0;
    while i < rs.len()
        invariant
            i <= rs@.len(),
            pred == (|r: RepositoryRecord| r.public),
            views(out@) == rs@.take(i as int).filter(pred).map_values(|r: RepositoryRecord| r.id@),
        decreases rs@.len() - i,
    {
        proof {
            crate::text::lemma_filter_take_step(rs@, pred, i as int);
        }
        if rs[i].public {
            let ghost before = out@;
            let id = rs[i].id.clone();
            out.push(id);
            proof {
                crate::text::lemma_views_push(before, id);
                assert(views(out@) =~= rs@.take(i + 1).filter(pred).map_values(|r: RepositoryRecord| r.id@));
            }
        }
        i = i + 1;
    }
    assert(rs@.take(rs@.len() as int) =~= rs@);
    out
}

/// The ids of the relations, as strings.
fn relation_id_list(rels: &Vec<RelationRecord>) -> (r: Vec<String>)
    ensures
        views(r@) == relation_ids(rels@),
{
    let mut out: Vec<String> = Vec::new();
    let mut i: usize = 0;
    while i < rels.len()
        invariant
            i <= rels@.len(),
            views(out@) == relation_ids(rels@).take(i as int),
        decreases rels@.len() - i,
    {
        let ghost before = out@;
        let id = rels[i].id.clone();
        out.push(id);
        proof {
            crate::text::lemma_views_push(before, id);
        }
        assert(views(out@) =~= relation_ids(rels@).take(i + 1));
        i = i + 1;
    }
    assert(relation_ids(rels@).take(rels@.len() as int) =~= relation_ids(rels@));
    out
}

/// The page lists each public repository once and nothing else.
pub open spec fn repository_ids_listed(actual: Seq<Seq<char>>, a: Authority) -> bool {
    &&& crate::text::distinct_upto(actual, actual.len() as int)
    &&& forall|x: Seq<char>| #[trigger] actual.contains(x) <==> public_ids(a.repositories.repository@).contains(x)
}

/// Whether each public repository is listed once and nothing else is.
fn ids_listed_once(actual: &[String], expected: &Vec<String>) -> (r: bool)
    ensures
        r == (crate::text::distinct_upto(views(actual@), actual@.len() as int) && forall|x: Seq<char>|
            #[trigger] views(actual@).contains(x) <==> views(expected@).contains(x)),
{
    let ghost av = views(actual@);
    let ghost ev = views(expected@);
    let mut i: usize = 0;
    while i < actual.len()
        invariant
            i <= actual@.len(),
            av == views(actual@),
            ev == views(expected@),
            crate::text::distinct_upto(av, i as int),
            forall|k: int| 0 <= k < i ==> ev.contains(#[trigger] av[k]),
        decreases actual@.len() - i,
    {
        let x = actual[i].as_str();
        assert(av[i as int] == x@);
        if count_of(actual, x) != 1 {
            proof {
                crate::text::lemma_distinct_step(av, i as int);
                assert(av.contains(x@));
                lemma_occurrences_contains(av, x@);
                lemma_distinct_count(av, x@);
            }
            return false;
        }
        if !holds(expected, x) {
            proof {
                assert(av.contains(x@));
            }
            return false;
        }
        proof {
            lemma_distinct_count(av, x@);
            assert forall|k: int| 0 <= k < i implies av[k] != av[i as int] by {
                if av[k] == av[i as int] {
                    lemma_two_occurrences(av, k, i as int);
                }
            }
        }
        i = i + 1;
    }
    let mut j: usize = 0;
    while j < expected.len()
        invariant
            j <= expected@.len(),
            av == views(actual@),
            ev == views(expected@),
            forall|k: int| 0 <= k < j ==> av.contains(#[trigger] ev[k]),
        decreases expected@.len() - j,
    {
        let y = expected[j].as_str();
        assert(ev[j as int] == y@);
        if !holds(actual, y) {
            return false;
        }
        j = j + 1;
    }
    proof {
        assert forall|x: Seq<char>| #[trigger] av.contains(x) <==> ev.contains(x) by {
            if av.contains(x) {
                let k = choose|k: int| 0 <= k < av.len() && av[k] == x;
                assert(ev.contains(av[k]));
            }
            if ev.contains(x) {
                let k = choose|k: int| 0 <= k < ev.len() && ev[k] == x;
                assert(av.contains(ev[k]));
            }
        }
    }
    true
}

/// In a sequence without repeats, an item occurs at most once.
proof fn lemma_distinct_count(s: Seq<Seq<char>>, x: Seq<char>)
    ensures
        crate::text::distinct_upto(s, s.len() as int) ==> occurrences(s, x) <= 1,
{
    if crate::text::distinct_upto(s, s.len() as int) && occurrences(s, x) > 1 {
        let f = s.filter(is_text(x));
        s.lemma_filter_pred(is_text(x), 0);
        s.lemma_filter_pred(is_text(x), 1);
        lemma_filter_positions(s, is_text(x));
        let a = choose|a: int| 0 <= a < s.len() && s[a] == x && a != (choose|b: int| 0 <= b < s.len() && s[b] == x);
        let b = choose|b: int| 0 <= b < s.len() && s[b] == x;
        if a < b {
            assert(s[a] != s[b]);
        } else {
            assert(s[b] != s[a]);
        }
    }
}

/// Two positions holding the same item make it occur at least twice.
proof fn lemma_two_occurrences(s: Seq<Seq<char>>, a: int, b: int)
    requires
        0 <= a < b < s.len(),
        s[a] == s[b],
    ensures
        occurrences(s, s[a]) >= 2,
{
    let x = s[a];
    let p = is_text(x);
    assert(s =~= s.take(b) + s.skip(b));
    Seq::filter_distributes_over_add(s.take(b), s.skip(b), p);
    assert(s.take(b)[a] == x);
    s.take(b).lemma_filter_contains(p, a);
    assert(s.skip(b)[0] == x);
    s.skip(b).lemma_filter_contains(p, 0);
}

/// More than one occurrence means two positions hold the item.
proof fn lemma_filter_positions(s: Seq<Seq<char>>, p: spec_fn(Seq<char>) -> bool)
    requires
        s.filter(p).len() > 1,
    ensures
        exists|a: int, b: int| 0 <= a < b < s.len() && p(s[a]) && p(s[b]),
    decreases s.len(),
{
    reveal(Seq::filter);
    let rest = s.drop_last();
    if p(s.last()) {
        assert(rest.filter(p).len() >= 1);
        rest.lemma_filter_pred(p, 0);
        assert(rest.filter(p).contains(rest.filter(p)[0]));
        rest.lemma_filter_contains_rev(p, rest.filter(p)[0]);
        let a = choose|a: int| 0 <= a < rest.len() && rest[a] == rest.filter(p)[0];
        assert(s[a] == rest[a]);
        assert(0 <= a < s.len() - 1 && p(s[a]) && p(s[s.len() - 1]));
    } else {
        lemma_filter_positions(rest, p);
        let (a, b) = choose|a: int, b: int| 0 <= a < b < rest.len() && p(rest[a]) && p(rest[b]);
        assert(s[a] == rest[a] && s[b] == rest[b]);
    }
}

/// The static page projects each public repository once and each relation
/// twice, and nothing else.
pub open spec fn static_authority_ok(repository_ids: Seq<Seq<char>>, relation_text_ids: Seq<Seq<char>>, a: Authority) -> bool {
    repository_ids_listed(repository_ids, a) && counts_match(relation_text_ids, relation_ids(a.relations.relation@), 2)
}

/// What the check of the static page's ids records, in order.
pub open spec fn static_authority_findings(repository_ids: Seq<Seq<char>>, relation_text_ids: Seq<Seq<char>>, a: Authority) -> Seq<Seq<char>> {
    flag(!repository_ids_listed(repository_ids, a), "public artifact repository ids differ from authority"@) + flag(
        !counts_match(relation_text_ids, relation_ids(a.relations.relation@), 2),
        "public artifact relation text ids differ from authority"@,
    )
}

/// Checks the ids the static repository page projects against the authority.
pub fn validate_static_authority(repository_ids: &[String], relation_text_ids: &[String], authority: &Authority, errors: &mut Vec<String>)
    ensures
        views(final(errors)@) == views(old(errors)@) + static_authority_findings(
            views(repository_ids@),
            views(relation_text_ids@),
            *authority,
        ),
{
    let ghost before = views(errors@);
    let public = public_id_list(&authority.repositories.repository);
    let listed = ids_listed_once(repository_ids, &public);
    flag_if(errors, !listed, String::from_str("public artifact repository ids differ from authority"));
    let relations = relation_id_list(&authority.relations.relation);
    let counted = ids_counted(relation_text_ids, &relations, 2);
    flag_if(errors, !counted, String::from_str("public artifact relation text ids differ from authority"));
    proof {
        assert(views(errors@) =~= before + static_authority_findings(views(repository_ids@), views(relation_text_ids@), *authority));
    }
}

/// What the check of the project pages' ids records, in order.
pub open spec fn project_authority_findings(project_ids: Seq<Seq<char>>, relation_text_ids: Seq<Seq<char>>, a: Authority) -> Seq<Seq<char>> {
    flag(!counts_match(project_ids, public_ids(a.repositories.repository@), 1), "project profile ids differ from repository authority"@)
        + flag(
        !counts_match(relation_text_ids, relation_ids(a.relations.relation@), 2),
        "project profile relation ids differ from relation authority"@,
    )
}

/// Checks the ids the project pages project against the authority.
pub fn validate_project_authority(project_ids: &[String], relation_text_ids: &[String], authority: &Authority, errors: &mut Vec<String>)
    ensures
        views(final(errors)@) == views(old(errors)@) + project_authority_findings(
            views(project_ids@),
            views(relation_text_ids@),
            *authority,
        ),
{
    let ghost before = views(errors@);
    let public = public_id_list(&authority.repositories.repository);
    let projects = ids_counted(project_ids, &public, 1);
    flag_if(errors, !projects, String::from_str("project profile ids differ from repository authority"));
    let relations = relation_id_list(&authority.relations.relation);
    let counted = ids_counted(relation_text_ids, &relations, 2);
    flag_if(errors, !counted, String::from_str("project profile relation ids differ from relation authority"));
    proof {
        assert(views(errors@) =~= before + project_authority_findings(views(project_ids@), views(relation_text_ids@), *authority));
    }
}

/// The path lies at or below the root: it is the root, or continues it after
/// a separator.
pub open spec fn below_root(root: Seq<char>, path: Seq<char>) -> bool {
    &&& has_prefix(path, root)
    &&& (path.len() == root.len() || (root.len() > 0 && root.last() == '/') || path[root.len() as int] == '/')
}

/// The text after the leading separators.
pub open spec fn without_leading_separators(s: Seq<char>) -> Seq<char>
    decreases s.len(),
{
    if s.len() > 0 && s[0] == '/' {
        without_leading_separators(s.drop_first())
    } else {
        s
    }
}

/// Backslashes turned into slashes.
pub open spec fn forward_slashes(s: Seq<char>) -> Seq<char> {
    s.map_values(|c: char| if c == '\\' { '/' } else { c })
}

/// The path of a file relative to the artifact root, with forward slashes;
/// a path that does not lie below the root is kept whole.
pub open spec fn relative_to(root: Seq<char>, path: Seq<char>) -> Seq<char> {
    if below_root(root, path) {
        forward_slashes(without_leading_separators(path.skip(root.len() as int)))
    } else {
        forward_slashes(path)
    }
}

/// The path of an artifact file relative to the artifact root, with forward
/// slashes.
pub fn artifact_relative_path(root: &str, path: &str) -> (r: String)
    ensures
        r@ == relative_to(root@, path@),
{
    let rs = chars_of(root);
    let ps = chars_of(path);
    let below = crate::text::starts_with(path, root) && (ps.len() == rs.len() || (rs.len() > 0 && rs[rs.len() - 1] == '/')
        || ps[rs.len()] == '/');
    let mut start: usize = 0;
    if below {
        start = rs.len();
        proof {
            assert(path@.skip(rs.len() as int) =~= path@.subrange(rs.len() as int, path@.len() as int));
        }
        while start < ps.len() && ps[start] == '/'
            invariant
                rs.len() <= start <= ps@.len(),
                ps@ == path@,
                without_leading_separators(path@.skip(rs@.len() as int)) == without_leading_separators(
                    path@.subrange(start as int, path@.len() as int),
                ),
            decreases ps.len() - start,
        {
            proof {
                let t = path@.subrange(start as int, path@.len() as int);
                assert(t.drop_first() =~= path@.subrange(start + 1, path@.len() as int));
            }
            start = start + 1;
        }
    }
    let ghost kept = path@.subrange(start as int, path@.len() as int);
    proof {
        if below {
            if start < ps@.len() {
                assert(kept[0] != '/');
            }
            assert(without_leading_separators(kept) == kept);
        } else {
            assert(kept =~= path@);
        }
    }
    let mut out: Vec<char> = Vec::new();
    let mut i: usize = start;
    while i < ps.len()
        invariant
            start <= i <= ps@.len(),
            ps@ == path@,
            kept == path@.subrange(start as int, path@.len() as int),
            out@ =~= forward_slashes(kept).take(i - start),
        decreases ps.len() - i,
    {
        let c = ps[i];
        if c == '\\' {
            out.push('/');
        } else {
            out.push(c);
        }
        i = i + 1;
    }
    proof {
        assert(forward_slashes(kept).take(kept.len() as int) =~= forward_slashes(kept));
    }
    crate::text::string_of(&out)
}

/// The files of a complete artifact besides the project and device pages
/// and the showcase images.
pub open spec fn base_files() -> Seq<Seq<char>> {
    seq![
        "CNAME"@,
        "devices.css"@,
        "favicon.svg"@,
        "graph-sandbox.js"@,
        "devices/index.html"@,
        "index.html"@,
        "message-path-lab.js"@,
        "mer3ly_repo_graph.js"@,
        "mer3ly_repo_graph_bg.wasm"@,
        "og.jpg"@,
        "projection-proof.js"@,
        "projection-scene.json"@,
        "radio.html"@,
        "radio-simulator.js"@,
        "repos/index.html"@,
        "robots.txt"@,
        "sitemap.xml"@,
        "site.css"@,
    ]
}

/// The profile page of a project.
pub open spec fn project_page(id: Seq<char>) -> Seq<char> {
    "projects/"@ + id + "/index.html"@
}

/// The profile page of a device.
pub open spec fn device_page(id: Seq<char>) -> Seq<char> {
    "devices/"@ + id + "/index.html"@
}

/// Every file a complete artifact holds: the base files, a profile for each
/// public repository and each device, and each showcase image.
pub open spec fn expected_paths(a: Authority, s: ShowcaseManifest, d: DeviceCatalog) -> Seq<Seq<char>> {
    base_files() + public_ids(a.repositories.repository@).map_values(|id: Seq<char>| project_page(id))
        + d.device@.map_values(|x: DeviceRecord| device_page(x.id@)) + s.showcase@.map_values(
        |x: ShowcaseRecord| x.image@,
    )
}

/// Appends one string per item, each `prefix + item + suffix`.
pub(crate) fn push_framed(out: &mut Vec<String>, items: &Vec<String>, prefix: &str, suffix: &str)
    ensures
        views(final(out)@) == views(old(out)@) + views(items@).map_values(|x: Seq<char>| prefix@ + x + suffix@),
{
    let ghost before = views(out@);
    let mut i: usize = 0;
    while i < items.len()
        invariant
            i <= items@.len(),
            views(out@) == before + views(items@).take(i as int).map_values(|x: Seq<char>| prefix@ + x + suffix@),
        decreases items.len() - i,
    {
        let ghost prior = out@;
        out.push(cat3(prefix, items[i].as_str(), suffix));
        proof {
            crate::text::lemma_views_push(prior, out@.last());
            assert(views(items@).take(i + 1) =~= views(items@).take(i as int).push(items@[i as int]@));
            assert(views(out@) =~= before + views(items@).take(i + 1).map_values(|x: Seq<char>| prefix@ + x + suffix@));
        }
        i = i + 1;
    }
    proof {
        assert(views(items@).take(items@.len() as int) =~= views(items@));
    }
}

/// The files a complete artifact holds.
pub fn expected_artifact_paths(authority: &Authority, showcases: &ShowcaseManifest, devices: &DeviceCatalog) -> (r: Vec<String>)
    ensures
        views(r@) == expected_paths(*authority, *showcases, *devices),
{
    let mut out: Vec<String> = Vec::new();
    out.push(String::from_str("CNAME"));
    out.push(String::from_str("devices.css"));
    out.push(String::from_str("favicon.svg"));
    out.push(String::from_str("graph-sandbox.js"));
    out.push(String::from_str("devices/index.html"));
    out.push(String::from_str("index.html"));
    out.push(String::from_str("message-path-lab.js"));
    out.push(String::from_str("mer3ly_repo_graph.js"));
    out.push(String::from_str("mer3ly_repo_graph_bg.wasm"));
    out.push(String::from_str("og.jpg"));
    out.push(String::from_str("projection-proof.js"));
    out.push(String::from_str("projection-scene.json"));
    out.push(String::from_str("radio.html"));
    out.push(String::from_str("radio-simulator.js"));
    out.push(String::from_str("repos/index.html"));
    out.push(String::from_str("robots.txt"));
    out.push(String::from_str("sitemap.xml"));
    out.push(String::from_str("site.css"));
    proof {
        assert(views(out@) =~= base_files());
    }
    let public = public_id_list(&authority.repositories.repository);
    push_framed(&mut out, &public, "projects/", "/index.html");
    proof {
        assert(views(public@).map_values(|x: Seq<char>| "projects/"@ + x + "/index.html"@) =~= public_ids(
            authority.repositories.repository@,
        ).map_values(|id: Seq<char>| project_page(id)));
    }
    let ghost mid = views(out@);
    let ds = &devices.device;
    let mut i: usize = 0;
    while i < ds.len()
        invariant
            i <= ds@.len(),
            views(out@) == mid + ds@.take(i as int).map_values(|x: DeviceRecord| device_page(x.id@)),
        decreases ds.len() - i,
    {
        let ghost prior = out@;
        out.push(cat3("devices/", ds[i].id.as_str(), "/index.html"));
        proof {
            crate::text::lemma_views_push(prior, out@.last());
            assert(ds@.take(i + 1) =~= ds@.take(i as int).push(ds@[i as int]));
            assert(views(out@) =~= mid + ds@.take(i + 1).map_values(|x: DeviceRecord| device_page(x.id@)));
        }
        i = i + 1;
    }
    proof {
        assert(ds@.take(ds@.len() as int) =~= ds@);
    }
    let ghost mid2 = views(out@);
    let ss = &showcases.showcase;
    let mut j: usize = 0;
    while j < ss.len()
        invariant
            j <= ss@.len(),
            views(out@) == mid2 + ss@.take(j as int).map_values(|x: ShowcaseRecord| x.image@),
        decreases ss.len() - j,
    {
        let ghost prior = out@;
        out.push(ss[j].image.clone());
        proof {
            crate::text::lemma_views_push(prior, out@.last());
            assert(ss@.take(j + 1) =~= ss@.take(j as int).push(ss@[j as int]));
            assert(views(out@) =~= mid2 + ss@.take(j + 1).map_values(|x: ShowcaseRecord| x.image@));
        }
        j = j + 1;
    }
    proof {
        assert(ss@.take(ss@.len() as int) =~= ss@);
        assert(views(out@) =~= expected_paths(*authority, *showcases, *devices));
    }
    out
}

/// Records whether the artifact holds exactly the expected files.
pub fn validate_file_set(actual: &[String], expected: &Vec<String>, errors: &mut Vec<String>)
    ensures
        noted(
            old(errors)@,
            final(errors)@,
            views(actual@).to_set() != views(expected@).to_set(),
            "public artifact file set differs from the approved shape"@,
        ),
{
    let ghost av = views(actual@);
    let ghost ev = views(expected@);
    let mut same = true;
    let mut i: usize = 0;
    while i < actual.len()
        invariant
            i <= actual@.len(),
            av == views(actual@),
            ev == views(expected@),
            same ==> forall|k: int| 0 <= k < i ==> ev.contains(#[trigger] av[k]),
            !same ==> exists|k: int| 0 <= k < actual@.len() && !ev.contains(#[trigger] av[k]),
        decreases actual@.len() - i,
    {
        assert(av[i as int] == actual@[i as int]@);
        if same && !holds(expected, actual[i].as_str()) {
            same = false;
        }
        i = i + 1;
    }
    let mut j: usize = 0;
    while j < expected.len()
        invariant
            j <= expected@.len(),
            av == views(actual@),
            ev == views(expected@),
            same ==> forall|k: int| 0 <= k < actual@.len() ==> ev.contains(#[trigger] av[k]),
            same ==> forall|k: int| 0 <= k < j ==> av.contains(#[trigger] ev[k]),
            !same ==> (exists|k: int| 0 <= k < actual@.len() && !ev.contains(#[trigger] av[k])) || (exists|k: int|
                0 <= k < expected@.len() && !av.contains(#[trigger] ev[k])),
        decreases expected@.len() - j,
    {
        assert(ev[j as int] == expected@[j as int]@);
        if same && !holds(actual, expected[j].as_str()) {
            same = false;
        }
        j = j + 1;
    }
    proof {
        if same {
            assert forall|x: Seq<char>| av.to_set().contains(x) <==> ev.to_set().contains(x) by {
                if av.contains(x) {
                    let k = choose|k: int| 0 <= k < av.len() && av[k] == x;
                    assert(ev.contains(av[k]));
                }
                if ev.contains(x) {
                    let k = choose|k: int| 0 <= k < ev.len() && ev[k] == x;
                    assert(av.contains(ev[k]));
                }
            }
            assert(av.to_set() =~= ev.to_set());
        } else {
            if exists|k: int| 0 <= k < actual@.len() && !ev.contains(#[trigger] av[k]) {
                let k = choose|k: int| 0 <= k < actual@.len() && !ev.contains(#[trigger] av[k]);
                assert(av.to_set().contains(av[k]));
                assert(!ev.to_set().contains(av[k]));
            } else {
                let k = choose|k: int| 0 <= k < expected@.len() && !av.contains(#[trigger] ev[k]);
                assert(ev.to_set().contains(ev[k]));
                assert(!av.to_set().contains(ev[k]));
            }
        }
    }
    note(errors, !same, String::from_str("public artifact file set differs from the approved shape"));
}

/// Whether two byte strings are equal.
pub fn bytes_eq(a: &Vec<u8>, b: &Vec<u8>) -> (r: bool)
    ensures
        r == (a@ == b@),
{
    if a.len() != b.len() {
        return false;
    }
    let mut i: usize = 0;
    while i < a.len()
        invariant
            a@.len() == b@.len(),
            i <= a@.len(),
            forall|k: int| 0 <= k < i ==> a@[k] == b@[k],
        decreases a.len() - i,
    {
        if a[i] != b[i] {
            return false;
        }
        i = i + 1;
    }
    assert(a@ =~= b@);
    true
}

/// The message a copied file earns: none where the artifact's copy and its
/// approved source are both there and equal.
pub open spec fn copy_finding(artifact: Option<Vec<u8>>, source: Option<Vec<u8>>, differs: Seq<char>, missing: Seq<char>) -> Seq<Seq<char>> {
    match (artifact, source) {
        (Some(a), Some(b)) => flag(a@ != b@, differs),
        _ => seq![missing],
    }
}

/// Compares a copied file with its approved source.
fn compare_copy(artifact: &Option<Vec<u8>>, source: &Option<Vec<u8>>, differs: String, missing: String, errors: &mut Vec<String>)
    ensures
        views(final(errors)@) == views(old(errors)@) + copy_finding(*artifact, *source, differs@, missing@),
{
    match (artifact, source) {
        (Some(a), Some(b)) => {
            let same = bytes_eq(a, b);
            flag_if(errors, !same, differs);
        },
        _ => {
            flag_if(errors, true, missing);
        },
    }
}

/// Checks that a file the artifact copies equals its approved source; a
/// file that could not be read is `None`.
pub fn validate_copied_asset(artifact: &Option<Vec<u8>>, source: &Option<Vec<u8>>, label: &str, errors: &mut Vec<String>)
    ensures
        views(final(errors)@) == views(old(errors)@) + copy_finding(
            *artifact,
            *source,
            label@ + " artifact differs from its approved source"@,
            label@ + " artifact or approved source is missing"@,
        ),
{
    compare_copy(
        artifact,
        source,
        cat2(label, " artifact differs from its approved source"),
        cat2(label, " artifact or approved source is missing"),
        errors,
    );
}

/// Checks that a showcase image in the artifact equals its approved source.
pub fn validate_showcase_image(artifact: &Option<Vec<u8>>, source: &Option<Vec<u8>>, repository: &str, errors: &mut Vec<String>)
    ensures
        views(final(errors)@) == views(old(errors)@) + copy_finding(
            *artifact,
            *source,
            "showcase "@ + repository@ + " artifact image differs from its approved source"@,
            "showcase "@ + repository@ + " artifact or approved source image is missing"@,
        ),
{
    compare_copy(
        artifact,
        source,
        cat3("showcase ", repository, " artifact image differs from its approved source"),
        cat3("showcase ", repository, " artifact or approved source image is missing"),
        errors,
    );
}

/// The bytes begin with the WebAssembly magic number.
pub open spec fn wasm_magic(bytes: Seq<u8>) -> bool {
    bytes.len() >= 4 && bytes[0] == 0u8 && bytes[1] == 97u8 && bytes[2] == 115u8 && bytes[3] == 109u8
}

/// Whether the bytes begin with the WebAssembly magic number `\0asm`.
pub fn wasm_header_ok(bytes: &Vec<u8>) -> (r: bool)
    ensures
        r == wasm_magic(bytes@),
{
    bytes.len() >= 4 && bytes[0] == 0u8 && bytes[1] == 97u8 && bytes[2] == 115u8 && bytes[3] == 109u8
}

/// The sentence the repository page shows for a metadata timestamp.
pub open spec fn refresh_statement(generated: Seq<char>) -> Seq<char> {
    "Refreshed "@ + crate::page_text::timestamp_text(generated) + "."@
}

/// Checks that the repository page shows when the metadata was refreshed.
pub fn validate_refresh_statement(repositories: &str, generated_at_utc: &str, errors: &mut Vec<String>)
    requires
        crate::page_text::timestamp_sliceable(generated_at_utc@),
    ensures
        noted(
            old(errors)@,
            final(errors)@,
            !has_infix(repositories@, refresh_statement(generated_at_utc@)),
            "repository page does not display the validated metadata timestamp"@,
        ),
{
    let timestamp = crate::page_text::format_timestamp(generated_at_utc);
    let statement = cat3("Refreshed ", timestamp.as_str(), ".");
    let shown = contains_str(repositories, statement.as_str());
    note(errors, !shown, String::from_str("repository page does not display the validated metadata timestamp"));
}

/// The repository graph carried by the repository page.
pub struct GraphPayload {
    pub schema: String,
    pub nodes: Vec<GraphNode>,
    pub edges: Vec<GraphEdge>,
}

/// A node of the carried repository graph.
pub struct GraphNode {
    pub id: String,
}

/// An edge of the carried repository graph.
pub struct GraphEdge {
    pub id: String,
    pub source: String,
    pub target: String,
}

/// The schema the carried repository graph names.
pub const GRAPH_SCHEMA: &'static str = "mer3ly.repo-graph/v1";

/// The node ids of the carried graph.
pub open spec fn payload_node_ids(p: GraphPayload) -> Seq<Seq<char>> {
    p.nodes@.map_values(|n: GraphNode| n.id@)
}

/// The edge ids of the carried graph.
pub open spec fn payload_edge_ids(p: GraphPayload) -> Seq<Seq<char>> {
    p.edges@.map_values(|e: GraphEdge| e.id@)
}

/// Some edge of the carried graph names a node the graph lacks.
pub open spec fn payload_dangling(p: GraphPayload) -> bool {
    exists|i: int|
        0 <= i < p.edges@.len() && (!payload_node_ids(p).contains((#[trigger] p.edges@[i]).source@)
            || !payload_node_ids(p).contains(p.edges@[i].target@))
}

/// What the check of the carried graph records, in order.
pub open spec fn payload_findings(p: GraphPayload, a: Authority) -> Seq<Seq<char>> {
    flag(p.schema@ != GRAPH_SCHEMA@, "repository graph authority schema is not approved"@) + flag(
        payload_node_ids(p).to_set() != public_ids(a.repositories.repository@).to_set(),
        "repository graph node ids differ from authority"@,
    ) + flag(
        payload_edge_ids(p).to_set() != relation_ids(a.relations.relation@).to_set(),
        "repository graph edge ids differ from authority"@,
    ) + flag(payload_dangling(p), "repository graph contains an edge with an unknown endpoint"@)
}

/// Whether two lists hold the same set of texts.
fn same_text_set(a: &Vec<String>, b: &Vec<String>) -> (r: bool)
    ensures
        r == (views(a@).to_set() == views(b@).to_set()),
{
    let mut scratch: Vec<String> = Vec::new();
    validate_file_set(a.as_slice(), b, &mut scratch);
    scratch.len() == 0
}

/// Checks the repository graph the page carries against the authority.
pub fn validate_graph_payload(payload: &GraphPayload, authority: &Authority, errors: &mut Vec<String>)
    ensures
        views(final(errors)@) == views(old(errors)@) + payload_findings(*payload, *authority),
{
    let ghost before = views(errors@);
    let schema = str_eq(payload.schema.as_str(), GRAPH_SCHEMA);
    flag_if(errors, !schema, String::from_str("repository graph authority schema is not approved"));
    let mut node_ids: Vec<String> = Vec::new();
    let mut i: usize = 0;
    while i < payload.nodes.len()
        invariant
            i <= payload.nodes@.len(),
            views(node_ids@) == payload_node_ids(*payload).take(i as int),
        decreases payload.nodes.len() - i,
    {
        let ghost prior = node_ids@;
        node_ids.push(payload.nodes[i].id.clone());
        proof {
            crate::text::lemma_views_push(prior, node_ids@.last());
            assert(views(node_ids@) =~= payload_node_ids(*payload).take(i + 1));
        }
        i = i + 1;
    }
    proof {
        assert(payload_node_ids(*payload).take(payload.nodes@.len() as int) =~= payload_node_ids(*payload));
    }
    let public = public_id_list(&authority.repositories.repository);
    flag_if(errors, !same_text_set(&node_ids, &public), String::from_str("repository graph node ids differ from authority"));
    let mut edge_ids: Vec<String> = Vec::new();
    let mut dangling = false;
    let mut j: usize = 0;
    while j < payload.edges.len()
        invariant
            j <= payload.edges@.len(),
            views(node_ids@) == payload_node_ids(*payload),
            views(edge_ids@) == payload_edge_ids(*payload).take(j as int),
            dangling == exists|k: int|
                0 <= k < j && (!payload_node_ids(*payload).contains((#[trigger] payload.edges@[k]).source@)
                    || !payload_node_ids(*payload).contains(payload.edges@[k].target@)),
        decreases payload.edges.len() - j,
    {
        let ghost prior = edge_ids@;
        let e = &payload.edges[j];
        edge_ids.push(e.id.clone());
        proof {
            crate::text::lemma_views_push(prior, edge_ids@.last());
            assert(views(edge_ids@) =~= payload_edge_ids(*payload).take(j + 1));
        }
        let known = holds(node_ids.as_slice(), e.source.as_str()) && holds(node_ids.as_slice(), e.target.as_str());
        if !known {
            dangling = true;
        }
        proof {
            if !known {
                assert(!payload_node_ids(*payload).contains(payload.edges@[j as int].source@)
                    || !payload_node_ids(*payload).contains(payload.edges@[j as int].target@));
            }
        }
        j = j + 1;
    }
    proof {
        assert(payload_edge_ids(*payload).take(payload.edges@.len() as int) =~= payload_edge_ids(*payload));
    }
    let relations = relation_id_list(&authority.relations.relation);
    flag_if(errors, !same_text_set(&edge_ids, &relations), String::from_str("repository graph edge ids differ from authority"));
    flag_if(errors, dangling, String::from_str("repository graph contains an edge with an unknown endpoint"));
    proof {
        assert(views(errors@) =~= before + payload_findings(*payload, *authority));
    }
}

/// The opening tag of the repository page's graph data.
pub open spec fn graph_data_marker() -> Seq<char> {
    "<script id=\"repository-graph-data\" type=\"application/json\">"@
}

/// The text of the repository page's graph data, or why it cannot be read.
pub open spec fn graph_data_text(doc: Seq<char>) -> Result<Seq<char>, Seq<char>> {
    let marker = graph_data_marker();
    if !occurs_after(doc, marker, 0) {
        Err("repository page is missing graph authority data"@)
    } else {
        let start = (choose|i: int| #[trigger] first_occurrence(doc, marker, 0, i)) + marker.len();
        if !occurs_after(doc, "</script>"@, start) {
            Err("repository graph authority data is not terminated"@)
        } else {
            let end = choose|e: int| #[trigger] first_occurrence(doc, "</script>"@, start, e);
            Ok(doc.subrange(start, end))
        }
    }
}

/// The JSON text of the graph the repository page carries.
pub fn graph_payload_text(document: &str) -> (r: Result<String, String>)
    ensures
        match r {
            Ok(t) => graph_data_text(document@) == Ok::<Seq<char>, Seq<char>>(t@),
            Err(e) => graph_data_text(document@) == Err::<Seq<char>, Seq<char>>(e@),
        },
{
    let cs = chars_of(document);
    let ms = chars_of("<script id=\"repository-graph-data\" type=\"application/json\">");
    let close = chars_of("</script>");
    match find_first(&cs, &ms, 0) {
        None => Err(String::from_str("repository page is missing graph authority data")),
        Some(i) => {
            assert(occurs_at(cs@, ms@, i as int));
            let n = cs.len();
            let m = ms.len();
            assert(i + m <= n);
            let start = i + m;
            match find_first(&cs, &close, start) {
                None => Err(String::from_str("repository graph authority data is not terminated")),
                Some(e) => Ok(text_between(&cs, start, e)),
            }
        },
    }
}

} // verus!
