//! Checks on each generated page of the public artifact: the fixed pages,
//! the repository index, every project profile and every device profile.

use vstd::prelude::*;

use crate::artifact::{
    project_authority_findings, validate_project_authority, inline_json, inline_text, social_findings, social_findings_of, social_head_ok_of, static_authority_findings,
    static_authority_ok, validate_static_authority,
};
use crate::devices::{DeviceCatalog, DeviceRecord, DeviceStatus, device_orders};
use crate::text::stable_by_key;
use crate::public_text::{attribute_pattern, attribute_values, group_values, regex_accepts, regex_captures};
use crate::repositories::{Authority, PublicMetadataCache, RepositoryRecord, ShowcaseManifest, ShowcaseRecord};
use crate::site::{DEFAULT_SOCIAL_IMAGE_ALT, DEFAULT_SOCIAL_IMAGE_URL};
use crate::structured_data::{
    base_record_ok, device_record_findings, device_record_ok, evidence_link, fixed_record_findings, project_record_findings,
    project_record_ok, validate_device_metadata, validate_fixed_metadata, validate_project_metadata,
};
use crate::artifact::ExpectedSocialMetadata;
use crate::text::{cat2, cat3, contains_str, flag, flag_if, grew, has_infix, has_prefix, note, starts_with, str_eq, views};

verus! {

/// The start of every complete page.
pub open spec fn doctype() -> Seq<char> {
    "<!doctype html>"@
}

/// The fixed pages carry their heads, their structured data, their modules
/// and landmarks, and the approved robots policy.
pub open spec fn fixed_pages_ok(
    home: Seq<char>,
    radio: Seq<char>,
    repositories: Seq<char>,
    device_index: Seq<char>,
    robots: Seq<char>,
    approved_robots: Seq<char>,
) -> bool {
    let image = DEFAULT_SOCIAL_IMAGE_URL@;
    let alt = DEFAULT_SOCIAL_IMAGE_ALT@;
    &&& has_prefix(home, doctype()) && has_prefix(radio, doctype())
    &&& social_head_ok_of(home, "https://mer3ly.net/"@, image, "image/jpeg"@, alt) && base_record_ok(home)
    &&& social_head_ok_of(radio, "https://mer3ly.net/radio.html"@, image, "image/jpeg"@, alt) && base_record_ok(radio)
    &&& has_infix(radio, "<script type=\"module\" src=\"/message-path-lab.js?v="@)
    &&& has_infix(radio, "data-message-path-lab"@)
    &&& social_head_ok_of(repositories, "https://mer3ly.net/repos/"@, image, "image/jpeg"@, alt) && base_record_ok(repositories)
    &&& social_head_ok_of(device_index, "https://mer3ly.net/devices/"@, image, "image/jpeg"@, alt) && base_record_ok(device_index)
    &&& has_infix(device_index, "href=\"/devices.css?v="@)
    &&& has_infix(home, "href=\"/devices/\""@)
    &&& robots == approved_robots
}

/// What the check of one fixed page's head and structured data records.
#[verifier::opaque]
pub open spec fn fixed_page_findings(doc: Seq<char>, canonical: Seq<char>) -> Seq<Seq<char>> {
    social_findings_of(doc, "fixed page"@, canonical, DEFAULT_SOCIAL_IMAGE_URL@, "image/jpeg"@, DEFAULT_SOCIAL_IMAGE_ALT@)
        + fixed_record_findings(doc, "fixed page"@)
}

/// What the check of the home and community-radio pages records, in order.
pub open spec fn radio_pages_findings(home: Seq<char>, radio: Seq<char>) -> Seq<Seq<char>> {
    flag(
        !(has_prefix(home, doctype()) && has_prefix(radio, doctype())),
        "home or community-radio output is not a complete HTML document"@,
    ) + fixed_page_findings(home, "https://mer3ly.net/"@) + fixed_page_findings(radio, "https://mer3ly.net/radio.html"@)
        + flag(
        !has_infix(radio, "<script type=\"module\" src=\"/message-path-lab.js?v="@),
        "community-radio output is missing its message path lab module"@,
    ) + flag(!has_infix(radio, "data-message-path-lab"@), "community-radio output is missing its message path lab landmark"@)
}

/// What the check of the index pages and the robots policy records, in order.
pub open spec fn index_pages_findings(
    home: Seq<char>,
    repositories: Seq<char>,
    device_index: Seq<char>,
    robots: Seq<char>,
    approved_robots: Seq<char>,
) -> Seq<Seq<char>> {
    fixed_page_findings(repositories, "https://mer3ly.net/repos/"@) + fixed_page_findings(
        device_index,
        "https://mer3ly.net/devices/"@,
    ) + flag(!has_infix(device_index, "href=\"/devices.css?v="@), "device index is missing its content-addressed stylesheet"@)
        + flag(!has_infix(home, "href=\"/devices/\""@), "home page is missing the hardware catalog link"@) + flag(
        robots != approved_robots,
        "robots policy differs from the approved public policy"@,
    )
}

/// What the check of the fixed pages records, in order.
pub open spec fn fixed_pages_findings(
    home: Seq<char>,
    radio: Seq<char>,
    repositories: Seq<char>,
    device_index: Seq<char>,
    robots: Seq<char>,
    approved_robots: Seq<char>,
) -> Seq<Seq<char>> {
    radio_pages_findings(home, radio) + index_pages_findings(home, repositories, device_index, robots, approved_robots)
}

/// Checks the head and structured data of one fixed page.
fn check_fixed_page(document: &str, canonical: &str, errors: &mut Vec<String>)
    ensures
        grew(
            old(errors)@,
            final(errors)@,
            social_head_ok_of(document@, canonical@, DEFAULT_SOCIAL_IMAGE_URL@, "image/jpeg"@, DEFAULT_SOCIAL_IMAGE_ALT@)
                && base_record_ok(document@),
        ),
        views(final(errors)@) == views(old(errors)@) + fixed_page_findings(document@, canonical@),
{
    proof {
        reveal(fixed_page_findings);
    }
    validate_fixed_metadata(document, canonical, DEFAULT_SOCIAL_IMAGE_URL, "image/jpeg", DEFAULT_SOCIAL_IMAGE_ALT, errors);
}

/// Checks the home and community-radio pages.
fn check_radio_pages(home: &str, radio: &str, errors: &mut Vec<String>)
    ensures
        grew(
            old(errors)@,
            final(errors)@,
            has_prefix(home@, doctype()) && has_prefix(radio@, doctype()) && social_head_ok_of(
                home@,
                "https://mer3ly.net/"@,
                DEFAULT_SOCIAL_IMAGE_URL@,
                "image/jpeg"@,
                DEFAULT_SOCIAL_IMAGE_ALT@,
            ) && base_record_ok(home@) && social_head_ok_of(
                radio@,
                "https://mer3ly.net/radio.html"@,
                DEFAULT_SOCIAL_IMAGE_URL@,
                "image/jpeg"@,
                DEFAULT_SOCIAL_IMAGE_ALT@,
            ) && base_record_ok(radio@) && has_infix(radio@, "<script type=\"module\" src=\"/message-path-lab.js?v="@)
                && has_infix(radio@, "data-message-path-lab"@),
        ),
        views(final(errors)@) == views(old(errors)@) + radio_pages_findings(home@, radio@),
{
    let ghost before = views(errors@);
    let complete = starts_with(home, "<!doctype html>") && starts_with(radio, "<!doctype html>");
    flag_if(errors, !complete, String::from_str("home or community-radio output is not a complete HTML document"));
    check_fixed_page(home, "https://mer3ly.net/", errors);
    check_fixed_page(radio, "https://mer3ly.net/radio.html", errors);
    let module = contains_str(radio, "<script type=\"module\" src=\"/message-path-lab.js?v=");
    flag_if(errors, !module, String::from_str("community-radio output is missing its message path lab module"));
    let landmark = contains_str(radio, "data-message-path-lab");
    flag_if(errors, !landmark, String::from_str("community-radio output is missing its message path lab landmark"));
    proof {
        assert(views(errors@) =~= before + radio_pages_findings(home@, radio@));
    }
}

/// Checks the repository and device index pages and the robots policy.
fn check_index_pages(
    home: &str,
    repositories: &str,
    device_index: &str,
    robots: &str,
    approved_robots: &str,
    errors: &mut Vec<String>,
)
    ensures
        grew(
            old(errors)@,
            final(errors)@,
            social_head_ok_of(
                repositories@,
                "https://mer3ly.net/repos/"@,
                DEFAULT_SOCIAL_IMAGE_URL@,
                "image/jpeg"@,
                DEFAULT_SOCIAL_IMAGE_ALT@,
            ) && base_record_ok(repositories@) && social_head_ok_of(
                device_index@,
                "https://mer3ly.net/devices/"@,
                DEFAULT_SOCIAL_IMAGE_URL@,
                "image/jpeg"@,
                DEFAULT_SOCIAL_IMAGE_ALT@,
            ) && base_record_ok(device_index@) && has_infix(device_index@, "href=\"/devices.css?v="@) && has_infix(
                home@,
                "href=\"/devices/\""@,
            ) && robots@ == approved_robots@,
        ),
        views(final(errors)@) == views(old(errors)@) + index_pages_findings(
            home@,
            repositories@,
            device_index@,
            robots@,
            approved_robots@,
        ),
{
    let ghost before = views(errors@);
    check_fixed_page(repositories, "https://mer3ly.net/repos/", errors);
    check_fixed_page(device_index, "https://mer3ly.net/devices/", errors);
    let stylesheet = contains_str(device_index, "href=\"/devices.css?v=");
    flag_if(errors, !stylesheet, String::from_str("device index is missing its content-addressed stylesheet"));
    let catalog = contains_str(home, "href=\"/devices/\"");
    flag_if(errors, !catalog, String::from_str("home page is missing the hardware catalog link"));
    let policy = str_eq(robots, approved_robots);
    flag_if(errors, !policy, String::from_str("robots policy differs from the approved public policy"));
    proof {
        assert(views(errors@) =~= before + index_pages_findings(
            home@,
            repositories@,
            device_index@,
            robots@,
            approved_robots@,
        ));
    }
}

/// Checks the home, community-radio, repository and device index pages and
/// the robots policy.
pub fn validate_fixed_pages(
    home: &str,
    radio: &str,
    repositories: &str,
    device_index: &str,
    robots: &str,
    approved_robots: &str,
    errors: &mut Vec<String>,
)
    ensures
        grew(
            old(errors)@,
            final(errors)@,
            fixed_pages_ok(home@, radio@, repositories@, device_index@, robots@, approved_robots@),
        ),
        views(final(errors)@) == views(old(errors)@) + fixed_pages_findings(
            home@,
            radio@,
            repositories@,
            device_index@,
            robots@,
            approved_robots@,
        ),
{
    let ghost before = views(errors@);
    check_radio_pages(home, radio, errors);
    check_index_pages(home, repositories, device_index, robots, approved_robots, errors);
    proof {
        assert(views(errors@) =~= before + fixed_pages_findings(
            home@,
            radio@,
            repositories@,
            device_index@,
            robots@,
            approved_robots@,
        ));
    }
}

/// The ids the repository page projects.
pub struct RepositoryIndexIds {
    pub repository_ids: Vec<String>,
    pub relation_ids: Vec<String>,
}

/// The values of `attribute` in the document, as the regex finds them.
pub open spec fn projected(document: Seq<char>, attribute: Seq<char>) -> Seq<Seq<char>> {
    group_values(regex_captures(attribute_pattern(attribute), document), 1)
}

/// The repository page projects the authority and carries the sandbox.
pub open spec fn repository_index_ok(document: Seq<char>, a: Authority) -> bool {
    &&& static_authority_ok(projected(document, "data-repository-id"@), projected(document, "data-relation-id"@), a)
    &&& has_infix(document, "<script type=\"module\" src=\"/graph-sandbox.js?v="@)
    &&& has_infix(document, "data-graph-sandbox"@)
    &&& has_infix(document, "id=\"graph-sandbox-data\""@)
}

/// What the check of the repository page records, in order.
pub open spec fn repository_index_findings(document: Seq<char>, a: Authority) -> Seq<Seq<char>> {
    static_authority_findings(projected(document, "data-repository-id"@), projected(document, "data-relation-id"@), a) + flag(
        !has_infix(document, "<script type=\"module\" src=\"/graph-sandbox.js?v="@),
        "repository page is missing the Graphshell sandbox module"@,
    ) + flag(
        !(has_infix(document, "data-graph-sandbox"@) && has_infix(document, "id=\"graph-sandbox-data\""@)),
        "repository page is missing the Graphshell sandbox landmark or data"@,
    )
}

/// Checks the ids the repository page projects and its sandbox; hands back
/// the ids. `None` where the regex crate refuses an attribute pattern.
pub fn validate_repository_index(document: &str, authority: &Authority, errors: &mut Vec<String>) -> (r: Option<RepositoryIndexIds>)
    ensures
        r is Some == (regex_accepts(attribute_pattern("data-repository-id"@)) && regex_accepts(
            attribute_pattern("data-relation-id"@),
        )),
        r is None ==> final(errors)@ == old(errors)@,
        r matches Some(ids) ==> {
            &&& views(ids.repository_ids@) == projected(document@, "data-repository-id"@)
            &&& views(ids.relation_ids@) == projected(document@, "data-relation-id"@)
            &&& grew(old(errors)@, final(errors)@, repository_index_ok(document@, *authority))
            &&& views(final(errors)@) == views(old(errors)@) + repository_index_findings(document@, *authority)
        },
{
    let ghost before = views(errors@);
    let repository_ids = match attribute_values(document, "data-repository-id") {
        Some(v) => v,
        None => return None,
    };
    let relation_ids = match attribute_values(document, "data-relation-id") {
        Some(v) => v,
        None => return None,
    };
    validate_static_authority(repository_ids.as_slice(), relation_ids.as_slice(), authority, errors);
    let module = contains_str(document, "<script type=\"module\" src=\"/graph-sandbox.js?v=");
    flag_if(errors, !module, String::from_str("repository page is missing the Graphshell sandbox module"));
    let landmark = contains_str(document, "data-graph-sandbox") && contains_str(document, "id=\"graph-sandbox-data\"");
    flag_if(errors, !landmark, String::from_str("repository page is missing the Graphshell sandbox landmark or data"));
    proof {
        assert(views(errors@) =~= before + repository_index_findings(document@, *authority));
        let f = static_authority_findings(projected(document@, "data-repository-id"@), projected(document@, "data-relation-id"@), *authority);
        assert((f.len() == 0) == static_authority_ok(projected(document@, "data-repository-id"@), projected(document@, "data-relation-id"@), *authority));
        crate::text::lemma_views_len(errors@);
        crate::text::lemma_views_len(old(errors)@);
    }
    Some(RepositoryIndexIds { repository_ids, relation_ids })
}

/// Position `k` holds the first showcase of the repository.
pub open spec fn first_showcase(s: Seq<ShowcaseRecord>, id: Seq<char>, k: int) -> bool {
    &&& 0 <= k < s.len()
    &&& s[k].repository@ == id
    &&& forall|j: int| 0 <= j < k ==> (#[trigger] s[j]).repository@ != id
}

/// The first showcase of the repository, if any.
pub open spec fn showcase_for(s: Seq<ShowcaseRecord>, id: Seq<char>) -> Option<ShowcaseRecord> {
    if exists|k: int| #[trigger] first_showcase(s, id, k) {
        Some(s[choose|k: int| #[trigger] first_showcase(s, id, k)])
    } else {
        None
    }
}

/// The first showcase of the repository.
fn showcase_of<'a>(showcases: &'a ShowcaseManifest, id: &str) -> (r: Option<&'a ShowcaseRecord>)
    ensures
        match r {
            Some(x) => showcase_for(showcases.showcase@, id@) == Some(*x),
            None => showcase_for(showcases.showcase@, id@) is None,
        },
{
    let r = showcases.for_repository(id);
    proof {
        let s = showcases.showcase@;
        match r {
            Some(x) => {
                let k = choose|k: int|
                    0 <= k < s.len() && *x == s[k] && x.repository@ == id@ && forall|j: int|
                        0 <= j < k ==> (#[trigger] s[j]).repository@ != id@;
                assert(first_showcase(s, id@, k));
                let c = choose|c: int| #[trigger] first_showcase(s, id@, c);
                if c < k {
                    assert(s[c].repository@ != id@);
                } else if c > k {
                    assert(s[k].repository@ != id@);
                }
            },
            None => {
                assert forall|k: int| !#[trigger] first_showcase(s, id@, k) by {
                    if 0 <= k < s.len() {
                        assert(s[k].repository@ != id@);
                    }
                }
            },
        }
    }
    r
}

/// The canonical URL of a project profile.
pub open spec fn project_canonical(id: Seq<char>) -> Seq<char> {
    "https://mer3ly.net/projects/"@ + id + "/"@
}

/// The social image of a project profile: its showcase image, else the
/// site's default.
pub open spec fn project_image(s: Option<ShowcaseRecord>) -> Seq<char> {
    match s {
        Some(x) => "https://mer3ly.net/"@ + x.image@,
        None => DEFAULT_SOCIAL_IMAGE_URL@,
    }
}

/// The media type of a project profile's social image.
pub open spec fn project_image_type(s: Option<ShowcaseRecord>) -> Seq<char> {
    if s is Some {
        "image/png"@
    } else {
        "image/jpeg"@
    }
}

/// The alternative text of a project profile's social image.
pub open spec fn project_image_alt(s: Option<ShowcaseRecord>) -> Seq<char> {
    match s {
        Some(x) => x.alt@,
        None => DEFAULT_SOCIAL_IMAGE_ALT@,
    }
}

/// The profile shows its showcase image, the image's source and its
/// alternative text.
pub open spec fn showcase_evidence_ok(doc: Seq<char>, s: ShowcaseRecord) -> bool {
    &&& has_infix(doc, "src=\"/"@ + s.image@ + "\""@)
    &&& has_infix(doc, s.source_url@)
    &&& has_infix(doc, s.alt@)
}

/// Only Mere's profile carries the portable projection proof, and it
/// carries the public projection artifact verbatim.
pub open spec fn projection_proof_ok(doc: Seq<char>, id: Seq<char>, scene: Seq<char>) -> bool {
    if id == "mere"@ {
        &&& has_infix(doc, "data-projection-proof"@)
        &&& has_infix(doc, "<script type=\"module\" src=\"/projection-proof.js?v="@)
        &&& inline_text(doc, "mere-projection-artifact"@) == Some(scene)
    } else {
        !has_infix(doc, "data-projection-proof"@) && !has_infix(doc, "/projection-proof.js?v="@)
    }
}

/// Everything a project profile, the home page and the repository page owe
/// the repository.
pub open spec fn project_profile_ok(
    doc: Seq<char>,
    r: RepositoryRecord,
    m: PublicMetadataCache,
    sc: ShowcaseManifest,
    home: Seq<char>,
    repositories: Seq<char>,
    scene: Seq<char>,
) -> bool {
    let s = showcase_for(sc.showcase@, r.id@);
    let canonical = project_canonical(r.id@);
    &&& has_prefix(doc, doctype())
    &&& social_head_ok_of(doc, canonical, project_image(s), project_image_type(s), project_image_alt(s))
    &&& project_record_ok(doc, r, m, canonical)
    &&& (s is Some ==> has_infix(home, "/projects/"@ + r.id@ + "/"@))
    &&& has_infix(repositories, "data-project-href=\"/projects/"@ + r.id@ + "/\""@)
    &&& (s matches Some(x) ==> showcase_evidence_ok(doc, x))
    &&& projection_proof_ok(doc, r.id@, scene)
}

/// What the checks of a project profile's links, showcase evidence and
/// projection proof record, in order.
pub open spec fn project_links_findings(
    doc: Seq<char>,
    id: Seq<char>,
    s: Option<ShowcaseRecord>,
    home: Seq<char>,
    repositories: Seq<char>,
    scene: Seq<char>,
) -> Seq<Seq<char>> {
    flag(s is Some && !has_infix(home, "/projects/"@ + id + "/"@), "home page is missing showcased project profile "@ + id)
        + flag(
        !has_infix(repositories, "data-project-href=\"/projects/"@ + id + "/\""@),
        "repository page is missing project profile link "@ + id,
    ) + showcase_evidence_findings(doc, s, id) + projection_proof_findings(doc, id, scene)
}

/// What the check of a project profile records, in order.
pub open spec fn project_profile_findings(
    doc: Seq<char>,
    r: RepositoryRecord,
    m: PublicMetadataCache,
    sc: ShowcaseManifest,
    home: Seq<char>,
    repositories: Seq<char>,
    scene: Seq<char>,
) -> Seq<Seq<char>> {
    let id = r.id@;
    let s = showcase_for(sc.showcase@, id);
    let canonical = project_canonical(id);
    let label = "project profile "@ + id;
    flag(!has_prefix(doc, doctype()), "project profile "@ + id + " is not a complete HTML document"@)
        + social_findings_of(doc, label, canonical, project_image(s), project_image_type(s), project_image_alt(s))
        + project_record_findings(doc, label, r, m, canonical) + project_links_findings(doc, id, s, home, repositories, scene)
}

/// Checks the links to a project profile, its showcase evidence and its
/// projection proof.
fn check_project_links(
    project: &str,
    id: &str,
    showcase: Option<&ShowcaseRecord>,
    home: &str,
    repositories: &str,
    projection_scene: &str,
    errors: &mut Vec<String>,
)
    ensures
        ({
            let s = match showcase {
                Some(x) => Some(*x),
                None => None,
            };
            &&& grew(
                old(errors)@,
                final(errors)@,
                (s is Some ==> has_infix(home@, "/projects/"@ + id@ + "/"@)) && has_infix(
                    repositories@,
                    "data-project-href=\"/projects/"@ + id@ + "/\""@,
                ) && (s matches Some(x) ==> showcase_evidence_ok(project@, x)) && projection_proof_ok(
                    project@,
                    id@,
                    projection_scene@,
                ),
            )
            &&& views(final(errors)@) == views(old(errors)@) + project_links_findings(
                project@,
                id@,
                s,
                home@,
                repositories@,
                projection_scene@,
            )
        }),
{
    let ghost before = views(errors@);
    let profile_href = cat3("/projects/", id, "/");
    let linked = contains_str(home, profile_href.as_str());
    flag_if(errors, !linked && showcase.is_some(), cat2("home page is missing showcased project profile ", id));
    let listing = cat3("data-project-href=\"", profile_href.as_str(), "\"");
    let listed = contains_str(repositories, listing.as_str());
    flag_if(errors, !listed, cat2("repository page is missing project profile link ", id));
    check_showcase_evidence(project, showcase, id, errors);
    check_projection_proof(project, id, projection_scene, errors);
    proof {
        reveal_strlit("data-project-href=\"");
        reveal_strlit("/projects/");
        reveal_strlit("/");
        reveal_strlit("\"");
        reveal_strlit("data-project-href=\"/projects/");
        reveal_strlit("/\"");
        assert(listing@ =~= "data-project-href=\"/projects/"@ + id@ + "/\""@);
        let s = match showcase {
            Some(x) => Some(*x),
            None => None,
        };
        assert(views(errors@) =~= before + project_links_findings(
            project@,
            id@,
            s,
            home@,
            repositories@,
            projection_scene@,
        ));
    }
}

/// What a project profile projects, and which of its metadata held.
pub struct ProjectProfileReport {
    pub project_ids: Vec<String>,
    pub relation_ids: Vec<String>,
    pub social_valid: bool,
    pub structured_valid: bool,
}

/// What the check of the showcase evidence records.
pub open spec fn showcase_evidence_findings(doc: Seq<char>, s: Option<ShowcaseRecord>, id: Seq<char>) -> Seq<Seq<char>> {
    match s {
        Some(x) => flag(!showcase_evidence_ok(doc, x), "project profile "@ + id + " is missing approved showcase evidence"@),
        None => Seq::empty(),
    }
}

/// What the check of the projection proof records, in order.
pub open spec fn projection_proof_findings(doc: Seq<char>, id: Seq<char>, scene: Seq<char>) -> Seq<Seq<char>> {
    if id == "mere"@ {
        flag(
            !(has_infix(doc, "data-projection-proof"@) && has_infix(
                doc,
                "<script type=\"module\" src=\"/projection-proof.js?v="@,
            )),
            "Mere project profile is missing its portable projection proof"@,
        ) + match inline_text(doc, "mere-projection-artifact"@) {
            Some(embedded) => flag(embedded != scene, "Mere project profile and public projection artifact differ"@),
            None => seq!["Mere project profile is missing its serialized projection artifact"@],
        }
    } else {
        flag(
            has_infix(doc, "data-projection-proof"@) || has_infix(doc, "/projection-proof.js?v="@),
            "project profile "@ + id + " unexpectedly includes the Mere projection proof"@,
        )
    }
}

/// Checks the showcase evidence on a project profile.
fn check_showcase_evidence(project: &str, showcase: Option<&ShowcaseRecord>, id: &str, errors: &mut Vec<String>)
    ensures
        grew(
            old(errors)@,
            final(errors)@,
            match showcase {
                Some(x) => showcase_evidence_ok(project@, *x),
                None => true,
            },
        ),
        views(final(errors)@) == views(old(errors)@) + showcase_evidence_findings(
            project@,
            match showcase {
                Some(x) => Some(*x),
                None => None,
            },
            id@,
        ),
{
    match showcase {
        Some(x) => {
            let image = cat3("src=\"/", x.image.as_str(), "\"");
            let shown = contains_str(project, image.as_str()) && contains_str(project, x.source_url.as_str()) && contains_str(
                project,
                x.alt.as_str(),
            );
            proof {
                reveal_strlit("src=\"/");
                reveal_strlit("\"");
            }
            flag_if(errors, !shown, cat3("project profile ", id, " is missing approved showcase evidence"));
        },
        None => {
            assert(views(errors@) =~= views(errors@) + Seq::<Seq<char>>::empty());
        },
    }
}

/// Checks that only Mere's profile carries the projection proof.
fn check_projection_proof(project: &str, id: &str, projection_scene: &str, errors: &mut Vec<String>)
    ensures
        grew(old(errors)@, final(errors)@, projection_proof_ok(project@, id@, projection_scene@)),
        views(final(errors)@) == views(old(errors)@) + projection_proof_findings(project@, id@, projection_scene@),
{
    let ghost before = views(errors@);
    if str_eq(id, "mere") {
        let proof_present = contains_str(project, "data-projection-proof") && contains_str(
            project,
            "<script type=\"module\" src=\"/projection-proof.js?v=",
        );
        flag_if(errors, !proof_present, String::from_str("Mere project profile is missing its portable projection proof"));
        match inline_json(project, "mere-projection-artifact") {
            Some(embedded) => {
                let same = str_eq(embedded.as_str(), projection_scene);
                flag_if(errors, !same, String::from_str("Mere project profile and public projection artifact differ"));
            },
            None => {
                flag_if(errors, true, String::from_str("Mere project profile is missing its serialized projection artifact"));
            },
        }
        proof {
            assert(views(errors@) =~= before + projection_proof_findings(project@, id@, projection_scene@));
        }
    } else {
        let carries = contains_str(project, "data-projection-proof") || contains_str(project, "/projection-proof.js?v=");
        flag_if(errors, carries, cat3("project profile ", id, " unexpectedly includes the Mere projection proof"));
    }
}

/// Checks one project profile against its repository, the public metadata,
/// the showcases, the home page and the repository page; hands back what it
/// projects. `None` where the regex crate refuses an attribute pattern.
pub fn validate_project_profile(
    project: &str,
    repository: &RepositoryRecord,
    metadata: &PublicMetadataCache,
    showcases: &ShowcaseManifest,
    home: &str,
    repositories: &str,
    projection_scene: &str,
    errors: &mut Vec<String>,
) -> (r: Option<ProjectProfileReport>)
    ensures
        r is Some == (regex_accepts(attribute_pattern("data-project-id"@)) && regex_accepts(
            attribute_pattern("data-relation-id"@),
        )),
        r is None ==> views(final(errors)@) == views(old(errors)@) + flag(
            !has_prefix(project@, doctype()),
            "project profile "@ + repository.id@ + " is not a complete HTML document"@,
        ),
        r matches Some(rep) ==> {
            let s = showcase_for(showcases.showcase@, repository.id@);
            let canonical = project_canonical(repository.id@);
            &&& views(rep.project_ids@) == projected(project@, "data-project-id"@)
            &&& views(rep.relation_ids@) == projected(project@, "data-relation-id"@)
            &&& rep.social_valid == social_head_ok_of(
                project@,
                canonical,
                project_image(s),
                project_image_type(s),
                project_image_alt(s),
            )
            &&& rep.structured_valid == project_record_ok(project@, *repository, *metadata, canonical)
            &&& grew(
                old(errors)@,
                final(errors)@,
                project_profile_ok(project@, *repository, *metadata, *showcases, home@, repositories@, projection_scene@),
            )
            &&& views(final(errors)@) == views(old(errors)@) + project_profile_findings(
                project@,
                *repository,
                *metadata,
                *showcases,
                home@,
                repositories@,
                projection_scene@,
            )
        },
{
    let ghost before = views(errors@);
    let id = repository.id.as_str();
    let complete = starts_with(project, "<!doctype html>");
    flag_if(errors, !complete, cat3("project profile ", id, " is not a complete HTML document"));
    let project_ids = match attribute_values(project, "data-project-id") {
        Some(v) => v,
        None => return None,
    };
    let relation_ids = match attribute_values(project, "data-relation-id") {
        Some(v) => v,
        None => return None,
    };
    let canonical = cat3("https://mer3ly.net/projects/", id, "/");
    let showcase = showcase_of(showcases, id);
    let image = match showcase {
        Some(x) => cat2("https://mer3ly.net/", x.image.as_str()),
        None => String::from_str(DEFAULT_SOCIAL_IMAGE_URL),
    };
    let image_type = match showcase {
        Some(_) => "image/png",
        None => "image/jpeg",
    };
    let image_alt = match showcase {
        Some(x) => x.alt.as_str(),
        None => DEFAULT_SOCIAL_IMAGE_ALT,
    };
    let expected = ExpectedSocialMetadata {
        canonical: canonical.as_str(),
        image_url: image.as_str(),
        image_type,
        image_alt,
    };
    let (social_valid, structured_valid) = validate_project_metadata(project, repository, metadata, &expected, errors);
    let ghost mid = views(errors@);
    check_project_links(project, id, showcase, home, repositories, projection_scene, errors);
    proof {
        let s = showcase_for(showcases.showcase@, repository.id@);
        assert(s == match showcase {
            Some(x) => Some(*x),
            None => None,
        });
        assert(views(errors@) =~= before + project_profile_findings(
            project@,
            *repository,
            *metadata,
            *showcases,
            home@,
            repositories@,
            projection_scene@,
        ));
    }
    Some(ProjectProfileReport { project_ids, relation_ids, social_valid, structured_valid })
}

/// The canonical URL of a device profile.
pub open spec fn device_canonical(id: Seq<char>) -> Seq<char> {
    "https://mer3ly.net/devices/"@ + id + "/"@
}

/// The device offers a final purchase link.
pub open spec fn device_sellable(d: DeviceRecord) -> bool {
    d.status == DeviceStatus::Sellable && d.sale.purchase_url is Some
}

/// A sellable device's profile links its purchase; any other profile says
/// purchase is unavailable and shows no purchase button.
pub open spec fn purchase_control_ok(doc: Seq<char>, d: DeviceRecord) -> bool {
    if device_sellable(d) {
        &&& has_infix(doc, "href=\""@ + d.sale.purchase_url->0@ + "\""@)
        &&& has_infix(doc, "class=\"button button-primary purchase-link\""@)
    } else {
        &&& has_infix(doc, "data-purchase-status=\"unavailable\""@)
        &&& !has_infix(doc, "class=\"button button-primary purchase-link\""@)
    }
}

/// Everything a device profile and the device index owe the device.
pub open spec fn device_profile_ok(doc: Seq<char>, d: DeviceRecord, device_index: Seq<char>) -> bool {
    let canonical = device_canonical(d.id@);
    &&& has_prefix(doc, doctype())
    &&& has_infix(doc, "href=\"/devices.css?v="@)
    &&& (d.id@ == "v4-desktop-radio"@ ==> has_infix(doc, "<script type=\"module\" src=\"/radio-simulator.js?v="@))
    &&& (d.id@ != "v4-desktop-radio"@ ==> !has_infix(doc, "data-radio-simulator"@))
    &&& projected(doc, "data-device-id"@) == seq![d.id@]
    &&& social_head_ok_of(doc, canonical, DEFAULT_SOCIAL_IMAGE_URL@, "image/jpeg"@, DEFAULT_SOCIAL_IMAGE_ALT@)
    &&& device_record_ok(doc, d, canonical)
    &&& has_infix(device_index, "data-device-id=\""@ + d.id@ + "\""@)
    &&& has_infix(doc, evidence_link(d))
    &&& purchase_control_ok(doc, d)
}

/// What the check of a device profile's purchase control records.
pub open spec fn purchase_control_findings(doc: Seq<char>, d: DeviceRecord) -> Seq<Seq<char>> {
    if device_sellable(d) {
        flag(!purchase_control_ok(doc, d), "sellable device profile "@ + d.id@ + " is missing its final purchase link"@)
    } else {
        flag(!purchase_control_ok(doc, d), "non-sellable device profile "@ + d.id@ + " has an invalid purchase control"@)
    }
}

/// What the checks of a device profile's page shell record, in order.
pub open spec fn device_shell_findings(doc: Seq<char>, id: Seq<char>) -> Seq<Seq<char>> {
    flag(!has_prefix(doc, doctype()), "device profile "@ + id + " is not a complete HTML document"@) + flag(
        !has_infix(doc, "href=\"/devices.css?v="@),
        "device profile "@ + id + " is missing its content-addressed stylesheet"@,
    ) + flag(
        id == "v4-desktop-radio"@ && !has_infix(doc, "<script type=\"module\" src=\"/radio-simulator.js?v="@),
        "V4 device profile is missing its radio simulator module"@,
    ) + flag(
        id != "v4-desktop-radio"@ && has_infix(doc, "data-radio-simulator"@),
        "device profile "@ + id + " unexpectedly includes the V4 radio simulator"@,
    )
}

/// What the checks of a device's catalog record, evidence link and
/// purchase control record, in order.
pub open spec fn device_links_findings(doc: Seq<char>, d: DeviceRecord, device_index: Seq<char>) -> Seq<Seq<char>> {
    flag(
        !has_infix(device_index, "data-device-id=\""@ + d.id@ + "\""@),
        "device index is missing catalog record "@ + d.id@,
    ) + flag(!has_infix(doc, evidence_link(d)), "device profile "@ + d.id@ + " is missing its public evidence link"@)
        + purchase_control_findings(doc, d)
}

/// Regrouping five findings appended one after another.
proof fn lemma_append_five(
    before: Seq<Seq<char>>,
    a: Seq<Seq<char>>,
    b: Seq<Seq<char>>,
    c: Seq<Seq<char>>,
    d: Seq<Seq<char>>,
    e: Seq<Seq<char>>,
)
    ensures
        before + (a + b + c + d + e) == before + a + b + c + d + e,
{
    assert(before + (a + b + c + d + e) =~= before + a + b + c + d + e);
}

/// What the check of a device profile records, in order.
pub open spec fn device_profile_findings(doc: Seq<char>, d: DeviceRecord, device_index: Seq<char>) -> Seq<Seq<char>> {
    let id = d.id@;
    let canonical = device_canonical(id);
    let label = "device profile "@ + id;
    device_shell_findings(doc, id) + flag(
        projected(doc, "data-device-id"@) != seq![id],
        "device profile "@ + id + " does not project its exact authority id"@,
    ) + social_findings_of(doc, label, canonical, DEFAULT_SOCIAL_IMAGE_URL@, "image/jpeg"@, DEFAULT_SOCIAL_IMAGE_ALT@)
        + device_record_findings(doc, label, d, canonical) + device_links_findings(doc, d, device_index)
}

/// What a device profile projects, whether its metadata held, and whether
/// it offers a purchase.
pub struct DeviceProfileReport {
    pub device_ids: Vec<String>,
    pub structured_valid: bool,
    pub sellable: bool,
}

/// Whether the ids are exactly the one given.
fn just(ids: &Vec<String>, id: &str) -> (r: bool)
    ensures
        r == (views(ids@) == seq![id@]),
{
    if ids.len() != 1 {
        proof {
            assert(views(ids@).len() != 1);
        }
        return false;
    }
    let same = str_eq(ids[0].as_str(), id);
    proof {
        if same {
            assert(views(ids@) =~= seq![id@]);
        } else {
            assert(views(ids@)[0] != seq![id@][0]);
        }
    }
    same
}

/// Checks the purchase control of a device profile.
fn check_purchase_control(document: &str, device: &DeviceRecord, errors: &mut Vec<String>) -> (sellable: bool)
    ensures
        sellable == device_sellable(*device),
        grew(old(errors)@, final(errors)@, purchase_control_ok(document@, *device)),
        views(final(errors)@) == views(old(errors)@) + purchase_control_findings(document@, *device),
{
    let id = device.id.as_str();
    if device.status == DeviceStatus::Sellable {
        match &device.sale.purchase_url {
            Some(url) => {
                let link = cat3("href=\"", url.as_str(), "\"");
                let ok = contains_str(document, link.as_str()) && contains_str(
                    document,
                    "class=\"button button-primary purchase-link\"",
                );
                proof {
                    reveal_strlit("href=\"");
                    reveal_strlit("\"");
                }
                flag_if(errors, !ok, cat3("sellable device profile ", id, " is missing its final purchase link"));
                return true;
            },
            None => {},
        }
    }
    let ok = contains_str(document, "data-purchase-status=\"unavailable\"") && !contains_str(
        document,
        "class=\"button button-primary purchase-link\"",
    );
    flag_if(errors, !ok, cat3("non-sellable device profile ", id, " has an invalid purchase control"));
    false
}

/// Checks the page shell of a device profile.
fn check_device_shell(document: &str, id: &str, errors: &mut Vec<String>)
    ensures
        grew(
            old(errors)@,
            final(errors)@,
            has_prefix(document@, doctype()) && has_infix(document@, "href=\"/devices.css?v="@) && (id@
                == "v4-desktop-radio"@ ==> has_infix(document@, "<script type=\"module\" src=\"/radio-simulator.js?v="@))
                && (id@ != "v4-desktop-radio"@ ==> !has_infix(document@, "data-radio-simulator"@)),
        ),
        views(final(errors)@) == views(old(errors)@) + device_shell_findings(document@, id@),
{
    let ghost before = views(errors@);
    let complete = starts_with(document, "<!doctype html>");
    flag_if(errors, !complete, cat3("device profile ", id, " is not a complete HTML document"));
    let stylesheet = contains_str(document, "href=\"/devices.css?v=");
    flag_if(errors, !stylesheet, cat3("device profile ", id, " is missing its content-addressed stylesheet"));
    let v4 = str_eq(id, "v4-desktop-radio");
    let simulator_module = contains_str(document, "<script type=\"module\" src=\"/radio-simulator.js?v=");
    flag_if(errors, v4 && !simulator_module, String::from_str("V4 device profile is missing its radio simulator module"));
    let simulator = contains_str(document, "data-radio-simulator");
    flag_if(errors, !v4 && simulator, cat3("device profile ", id, " unexpectedly includes the V4 radio simulator"));
    proof {
        assert(views(errors@) =~= before + device_shell_findings(document@, id@));
    }
}

/// Checks that the device index lists the device and that its profile
/// links its evidence and shows its purchase control.
fn check_device_links(document: &str, device: &DeviceRecord, device_index: &str, errors: &mut Vec<String>) -> (sellable:
    bool)
    ensures
        sellable == device_sellable(*device),
        grew(
            old(errors)@,
            final(errors)@,
            has_infix(device_index@, "data-device-id=\""@ + device.id@ + "\""@) && has_infix(
                document@,
                evidence_link(*device),
            ) && purchase_control_ok(document@, *device),
        ),
        views(final(errors)@) == views(old(errors)@) + device_links_findings(document@, *device, device_index@),
{
    let ghost before = views(errors@);
    let id = device.id.as_str();
    let record = cat3("data-device-id=\"", id, "\"");
    let indexed = contains_str(device_index, record.as_str());
    flag_if(errors, !indexed, cat2("device index is missing catalog record ", id));
    let evidence = cat3(device.source_repository.as_str(), "/blob/main/", device.source_document.as_str());
    let linked = contains_str(document, evidence.as_str());
    flag_if(errors, !linked, cat3("device profile ", id, " is missing its public evidence link"));
    let sellable = check_purchase_control(document, device, errors);
    proof {
        reveal_strlit("data-device-id=\"");
        reveal_strlit("\"");
        assert(record@ =~= "data-device-id=\""@ + device.id@ + "\""@);
        assert(views(errors@) =~= before + device_links_findings(document@, *device, device_index@));
    }
    sellable
}

/// Checks one device profile against the device and the device index; hands
/// back what it projects. `None` where the regex crate refuses the attribute
/// pattern.
pub fn validate_device_profile(document: &str, device: &DeviceRecord, device_index: &str, errors: &mut Vec<String>) -> (r: Option<
    DeviceProfileReport,
>)
    ensures
        r is Some == regex_accepts(attribute_pattern("data-device-id"@)),
        r is None ==> views(final(errors)@) == views(old(errors)@) + device_shell_findings(document@, device.id@),
        r matches Some(rep) ==> {
            &&& views(rep.device_ids@) == projected(document@, "data-device-id"@)
            &&& rep.structured_valid == (social_head_ok_of(
                document@,
                device_canonical(device.id@),
                DEFAULT_SOCIAL_IMAGE_URL@,
                "image/jpeg"@,
                DEFAULT_SOCIAL_IMAGE_ALT@,
            ) && device_record_ok(document@, *device, device_canonical(device.id@)))
            &&& rep.sellable == device_sellable(*device)
            &&& grew(old(errors)@, final(errors)@, device_profile_ok(document@, *device, device_index@))
            &&& views(final(errors)@) == views(old(errors)@) + device_profile_findings(document@, *device, device_index@)
        },
{
    let ghost before = views(errors@);
    let id = device.id.as_str();
    check_device_shell(document, id, errors);
    let device_ids = match attribute_values(document, "data-device-id") {
        Some(v) => v,
        None => return None,
    };
    let exact = just(&device_ids, id);
    flag_if(errors, !exact, cat3("device profile ", id, " does not project its exact authority id"));
    let canonical = cat3("https://mer3ly.net/devices/", id, "/");
    let expected = ExpectedSocialMetadata {
        canonical: canonical.as_str(),
        image_url: DEFAULT_SOCIAL_IMAGE_URL,
        image_type: "image/jpeg",
        image_alt: DEFAULT_SOCIAL_IMAGE_ALT,
    };
    proof {
        reveal_strlit("https://mer3ly.net/devices/");
        reveal_strlit("/");
        assert(canonical@ == device_canonical(device.id@));
    }
    let structured_valid = validate_device_metadata(document, device, &expected, errors);
    let sellable = check_device_links(document, device, device_index, errors);
    proof {
        let label = "device profile "@ + device.id@;
        lemma_append_five(
            before,
            device_shell_findings(document@, device.id@),
            flag(!exact, "device profile "@ + device.id@ + " does not project its exact authority id"@),
            social_findings(document@, label, expected),
            device_record_findings(document@, label, *device, canonical@),
            device_links_findings(document@, *device, device_index@),
        );
    }
    Some(DeviceProfileReport { device_ids, structured_valid, sellable })
}

/// The ids of the devices, in the order given.
pub open spec fn device_ids_of(ds: Seq<DeviceRecord>) -> Seq<Seq<char>> {
    ds.map_values(|d: DeviceRecord| d.id@)
}

/// The devices at the catalog positions `idx`, in that order.
pub open spec fn display_order(d: DeviceCatalog, idx: Seq<usize>) -> Seq<DeviceRecord> {
    idx.map_values(|k: usize| d.device@[k as int])
}

/// Whether the ids are those of the devices, one for one and in order.
fn ids_follow(device_ids: &Vec<String>, ordered: &Vec<&DeviceRecord>) -> (r: bool)
    ensures
        r == (views(device_ids@) == ordered@.map_values(|d: &DeviceRecord| d.id@)),
{
    let ghost expected = ordered@.map_values(|d: &DeviceRecord| d.id@);
    if device_ids.len() != ordered.len() {
        proof {
            assert(views(device_ids@).len() != expected.len());
        }
        return false;
    }
    let mut i: usize = 0;
    while i < ordered.len()
        invariant
            i <= ordered@.len(),
            device_ids@.len() == ordered@.len(),
            expected == ordered@.map_values(|d: &DeviceRecord| d.id@),
            forall|k: int| 0 <= k < i ==> device_ids@[k]@ == expected[k],
        decreases ordered.len() - i,
    {
        if !str_eq(device_ids[i].as_str(), ordered[i].id.as_str()) {
            proof {
                assert(views(device_ids@)[i as int] != expected[i as int]);
            }
            return false;
        }
        i = i + 1;
    }
    proof {
        assert(views(device_ids@) =~= expected);
    }
    true
}

/// The device profiles project the catalog's ids in catalog display order.
pub fn validate_device_ids(device_ids: &Vec<String>, devices: &DeviceCatalog, errors: &mut Vec<String>)
    ensures
        exists|idx: Seq<usize>|
            #[trigger] stable_by_key(device_orders(devices.device@), idx) && crate::text::noted(
                old(errors)@,
                final(errors)@,
                views(device_ids@) != device_ids_of(display_order(*devices, idx)),
                "device profile ids differ from catalog authority"@,
            ),
{
    let ordered = devices.ordered();
    let ghost idx = choose|idx: Seq<usize>|
        #[trigger] stable_by_key(device_orders(devices.device@), idx) && ordered@.len() == idx.len() && forall|k: int|
            0 <= k < idx.len() ==> *ordered@[k] == devices.device@[#[trigger] idx[k] as int];
    let same = ids_follow(device_ids, &ordered);
    proof {
        assert(ordered@.map_values(|d: &DeviceRecord| d.id@) =~= device_ids_of(display_order(*devices, idx)));
    }
    note(errors, !same, String::from_str("device profile ids differ from catalog authority"));
}

/// The values of `attribute` that the pages project, page after page.
pub open spec fn projected_all(pages: Seq<String>, attribute: Seq<char>) -> Seq<Seq<char>>
    decreases pages.len(),
{
    if pages.len() == 0 {
        Seq::empty()
    } else {
        projected_all(pages.drop_last(), attribute) + projected(pages.last()@, attribute)
    }
}

/// The public repositories, in authority order.
pub open spec fn public_records(a: Authority) -> Seq<RepositoryRecord> {
    a.repositories.repository@.filter(|r: RepositoryRecord| r.public)
}

/// What the checks of the project profiles record, page after page; page
/// `k` is the profile of the `k`-th repository of `rs`.
pub open spec fn project_profiles_findings(
    pages: Seq<String>,
    rs: Seq<RepositoryRecord>,
    m: PublicMetadataCache,
    sc: ShowcaseManifest,
    home: Seq<char>,
    repositories: Seq<char>,
    scene: Seq<char>,
) -> Seq<Seq<char>>
    decreases pages.len(),
{
    if pages.len() == 0 {
        Seq::empty()
    } else {
        project_profiles_findings(pages.drop_last(), rs, m, sc, home, repositories, scene) + project_profile_findings(
            pages.last()@,
            rs[pages.len() - 1],
            m,
            sc,
            home,
            repositories,
            scene,
        )
    }
}

/// The project profile carries the social head its showcase calls for.
pub open spec fn project_social_ok(doc: Seq<char>, r: RepositoryRecord, sc: ShowcaseManifest) -> bool {
    let s = showcase_for(sc.showcase@, r.id@);
    social_head_ok_of(doc, project_canonical(r.id@), project_image(s), project_image_type(s), project_image_alt(s))
}

/// How many of the pages carry the social head they owe.
pub open spec fn social_previews(pages: Seq<String>, rs: Seq<RepositoryRecord>, sc: ShowcaseManifest) -> nat
    decreases pages.len(),
{
    if pages.len() == 0 {
        0
    } else {
        social_previews(pages.drop_last(), rs, sc) + if project_social_ok(pages.last()@, rs[pages.len() - 1], sc) {
            1nat
        } else {
            0nat
        }
    }
}

/// How many of the pages carry the structured record they owe.
pub open spec fn project_records(pages: Seq<String>, rs: Seq<RepositoryRecord>, m: PublicMetadataCache) -> nat
    decreases pages.len(),
{
    if pages.len() == 0 {
        0
    } else {
        project_records(pages.drop_last(), rs, m) + if project_record_ok(
            pages.last()@,
            rs[pages.len() - 1],
            m,
            project_canonical(rs[pages.len() - 1].id@),
        ) {
            1nat
        } else {
            0nat
        }
    }
}

/// What the project profiles project, and how many of them carried their
/// social head and their structured record.
pub struct ProjectProfilesReport {
    pub project_ids: Vec<String>,
    pub relation_ids: Vec<String>,
    pub social_previews: usize,
    pub structured_records: usize,
}

/// Checks every public project profile, page `k` being the profile of the
/// `k`-th public repository, then checks the ids they project against the
/// authority. `None` where the regex crate refuses an attribute pattern.
#[verifier::spinoff_prover]
#[verifier::rlimit(50)]
pub fn validate_project_profiles(
    pages: &Vec<String>,
    authority: &Authority,
    metadata: &PublicMetadataCache,
    showcases: &ShowcaseManifest,
    home: &str,
    repositories: &str,
    projection_scene: &str,
    errors: &mut Vec<String>,
) -> (r: Option<ProjectProfilesReport>)
    requires
        pages@.len() == public_records(*authority).len(),
    ensures
        r is Some == (pages@.len() == 0 || (regex_accepts(attribute_pattern("data-project-id"@)) && regex_accepts(
            attribute_pattern("data-relation-id"@),
        ))),
        r is None ==> views(final(errors)@) == views(old(errors)@) + flag(
            !has_prefix(pages@[0]@, doctype()),
            "project profile "@ + public_records(*authority)[0].id@ + " is not a complete HTML document"@,
        ),
        r matches Some(rep) ==> {
            let rs = public_records(*authority);
            &&& views(rep.project_ids@) == projected_all(pages@, "data-project-id"@)
            &&& views(rep.relation_ids@) == projected_all(pages@, "data-relation-id"@)
            &&& rep.social_previews == social_previews(pages@, rs, *showcases)
            &&& rep.structured_records == project_records(pages@, rs, *metadata)
            &&& views(final(errors)@) == views(old(errors)@) + project_profiles_findings(
                pages@,
                rs,
                *metadata,
                *showcases,
                home@,
                repositories@,
                projection_scene@,
            ) + project_authority_findings(
                projected_all(pages@, "data-project-id"@),
                projected_all(pages@, "data-relation-id"@),
                *authority,
            )
        },
{
    let ghost before = views(errors@);
    let ghost all = authority.repositories.repository@;
    let ghost pred = |r: RepositoryRecord| r.public;
    let ghost rs = public_records(*authority);
    let mut project_ids: Vec<String> = Vec::new();
    let mut relation_ids: Vec<String> = Vec::new();
    let mut social: usize = 0;
    let mut structured: usize = 0;
    let mut j: usize = 0;
    let mut i: usize = 0;
    while i < authority.repositories.repository.len()
        invariant
            i <= all.len(),
            before == views(old(errors)@),
            all == authority.repositories.repository@,
            pred == (|r: RepositoryRecord| r.public),
            rs == all.filter(pred),
            pages@.len() == rs.len(),
            j == all.take(i as int).filter(pred).len(),
            j <= pages@.len(),
            social <= j,
            structured <= j,
            all.take(i as int).filter(pred) == rs.take(j as int),
            views(project_ids@) == projected_all(pages@.take(j as int), "data-project-id"@),
            views(relation_ids@) == projected_all(pages@.take(j as int), "data-relation-id"@),
            social == social_previews(pages@.take(j as int), rs, *showcases),
            structured == project_records(pages@.take(j as int), rs, *metadata),
            views(errors@) == before + project_profiles_findings(
                pages@.take(j as int),
                rs,
                *metadata,
                *showcases,
                home@,
                repositories@,
                projection_scene@,
            ),
            j > 0 ==> regex_accepts(attribute_pattern("data-project-id"@)) && regex_accepts(
                attribute_pattern("data-relation-id"@),
            ),
        decreases all.len() - i,
    {
        proof {
            crate::text::lemma_filter_take_step(all, pred, i as int);
        }
        let repository = &authority.repositories.repository[i];
        if repository.public {
            proof {
                let next = all.take(i + 1).filter(pred);
                assert(next == all.take(i as int).filter(pred).push(all[i as int]));
                assert(all.take(i + 1).is_prefix_of(all));
                all.take(i + 1).lemma_filter_monotone(all, pred);
                assert(next.is_prefix_of(rs));
                assert(next.len() == j + 1);
                assert(rs.take(j + 1) =~= next);
                assert(rs[j as int] == next[j as int]);
                assert(rs[j as int] == all[i as int]);
            }
            let report = match validate_project_profile(
                pages[j].as_str(),
                repository,
                metadata,
                showcases,
                home,
                repositories,
                projection_scene,
                errors,
            ) {
                Some(report) => report,
                None => {
                    proof {
                        assert(j == 0);
                        assert(pages@.take(0).len() == 0);
                        assert(before + project_profiles_findings(
                            pages@.take(0),
                            rs,
                            *metadata,
                            *showcases,
                            home@,
                            repositories@,
                            projection_scene@,
                        ) =~= before);
                    }
                    return None;
                },
            };
            let mut found = report.project_ids;
            let mut related = report.relation_ids;
            let ghost prior_ids = project_ids@;
            let ghost prior_relations = relation_ids@;
            let ghost found_ids = found@;
            let ghost found_relations = related@;
            project_ids.append(&mut found);
            relation_ids.append(&mut related);
            if report.social_valid {
                social = social + 1;
            }
            if report.structured_valid {
                structured = structured + 1;
            }
            proof {
                crate::text::lemma_views_add(prior_ids, found_ids);
                crate::text::lemma_views_add(prior_relations, found_relations);
                let next = pages@.take(j + 1);
                assert(next.drop_last() =~= pages@.take(j as int));
                assert(next.last() == pages@[j as int]);
            }
            j = j + 1;
        }
        i = i + 1;
    }
    proof {
        assert(all.take(all.len() as int) =~= all);
        assert(pages@.take(j as int) =~= pages@);
    }
    validate_project_authority(project_ids.as_slice(), relation_ids.as_slice(), authority, errors);
    Some(ProjectProfilesReport { project_ids, relation_ids, social_previews: social, structured_records: structured })
}

/// The device profile carries the social head and the structured record it
/// owes.
pub open spec fn device_structured_ok(doc: Seq<char>, d: DeviceRecord) -> bool {
    &&& social_head_ok_of(doc, device_canonical(d.id@), DEFAULT_SOCIAL_IMAGE_URL@, "image/jpeg"@, DEFAULT_SOCIAL_IMAGE_ALT@)
    &&& device_record_ok(doc, d, device_canonical(d.id@))
}

/// What the checks of the device profiles record, page after page; page
/// `k` is the profile of device `ds[k]`.
pub open spec fn device_profiles_findings(pages: Seq<String>, ds: Seq<DeviceRecord>, device_index: Seq<char>) -> Seq<
    Seq<char>,
>
    decreases pages.len(),
{
    if pages.len() == 0 {
        Seq::empty()
    } else {
        device_profiles_findings(pages.drop_last(), ds, device_index) + device_profile_findings(
            pages.last()@,
            ds[pages.len() - 1],
            device_index,
        )
    }
}

/// How many of the pages carry their structured record.
pub open spec fn device_records(pages: Seq<String>, ds: Seq<DeviceRecord>) -> nat
    decreases pages.len(),
{
    if pages.len() == 0 {
        0
    } else {
        device_records(pages.drop_last(), ds) + if device_structured_ok(pages.last()@, ds[pages.len() - 1]) {
            1nat
        } else {
            0nat
        }
    }
}

/// How many of the first `n` devices offer a purchase.
pub open spec fn sellable_devices(ds: Seq<DeviceRecord>, n: nat) -> nat
    decreases n,
{
    if n == 0 {
        0
    } else {
        sellable_devices(ds, (n - 1) as nat) + if device_sellable(ds[n - 1]) {
            1nat
        } else {
            0nat
        }
    }
}

/// What the device profiles project, and how many carried their structured
/// record and offer a purchase.
pub struct DeviceProfilesReport {
    pub device_ids: Vec<String>,
    pub structured_records: usize,
    pub sellable_devices: usize,
}

/// Checks every device profile, page `k` being the profile of the `k`-th
/// device in display order, then checks that together they project the
/// catalog's ids in that order. `None` where the regex crate refuses the
/// attribute pattern.
#[verifier::spinoff_prover]
#[verifier::rlimit(50)]
pub fn validate_device_profiles(
    pages: &Vec<String>,
    devices: &DeviceCatalog,
    device_index: &str,
    errors: &mut Vec<String>,
) -> (r: Option<DeviceProfilesReport>)
    requires
        pages@.len() == devices.device@.len(),
    ensures
        r is Some == (pages@.len() == 0 || regex_accepts(attribute_pattern("data-device-id"@))),
        exists|idx: Seq<usize>|
            #[trigger] stable_by_key(device_orders(devices.device@), idx) && (r is None ==> views(final(errors)@) == views(
                old(errors)@,
            ) + device_shell_findings(pages@[0]@, display_order(*devices, idx)[0].id@)) && (r matches Some(rep) ==> {
                let ds = display_order(*devices, idx);
                &&& views(rep.device_ids@) == projected_all(pages@, "data-device-id"@)
                &&& rep.structured_records == device_records(pages@, ds)
                &&& rep.sellable_devices == sellable_devices(ds, pages@.len())
                &&& views(final(errors)@) == views(old(errors)@) + device_profiles_findings(pages@, ds, device_index@)
                    + flag(
                    projected_all(pages@, "data-device-id"@) != device_ids_of(ds),
                    "device profile ids differ from catalog authority"@,
                )
            }),
{
    let ghost before = views(errors@);
    let ordered = devices.ordered();
    let ghost idx = choose|idx: Seq<usize>|
        #[trigger] stable_by_key(device_orders(devices.device@), idx) && ordered@.len() == idx.len() && forall|k: int|
            0 <= k < idx.len() ==> *ordered@[k] == devices.device@[#[trigger] idx[k] as int];
    let ghost ds = display_order(*devices, idx);
    proof {
        assert(idx.len() == devices.device@.len());
    }
    let mut device_ids: Vec<String> = Vec::new();
    let mut structured: usize = 0;
    let mut sellable: usize = 0;
    let mut k: usize = 0;
    while k < ordered.len()
        invariant
            k <= ordered@.len(),
            before == views(old(errors)@),
            ordered@.len() == idx.len(),
            pages@.len() == idx.len(),
            ds == display_order(*devices, idx),
            stable_by_key(device_orders(devices.device@), idx),
            forall|m: int| 0 <= m < idx.len() ==> *ordered@[m] == devices.device@[#[trigger] idx[m] as int],
            structured <= k,
            sellable <= k,
            views(device_ids@) == projected_all(pages@.take(k as int), "data-device-id"@),
            structured == device_records(pages@.take(k as int), ds),
            sellable == sellable_devices(ds, k as nat),
            views(errors@) == before + device_profiles_findings(pages@.take(k as int), ds, device_index@),
            k > 0 ==> regex_accepts(attribute_pattern("data-device-id"@)),
        decreases ordered.len() - k,
    {
        proof {
            assert(*ordered@[k as int] == ds[k as int]);
        }
        let report = match validate_device_profile(pages[k].as_str(), ordered[k], device_index, errors) {
            Some(report) => report,
            None => {
                proof {
                    assert(k == 0);
                    assert(pages@.take(0).len() == 0);
                    assert(before + device_profiles_findings(pages@.take(0), ds, device_index@) =~= before);
                }
                return None;
            },
        };
        let mut found = report.device_ids;
        let ghost prior_ids = device_ids@;
        let ghost found_ids = found@;
        device_ids.append(&mut found);
        if report.structured_valid {
            structured = structured + 1;
        }
        if report.sellable {
            sellable = sellable + 1;
        }
        proof {
            crate::text::lemma_views_add(prior_ids, found_ids);
            let next = pages@.take(k + 1);
            assert(next.drop_last() =~= pages@.take(k as int));
            assert(next.last() == pages@[k as int]);
        }
        k = k + 1;
    }
    proof {
        assert(pages@.take(k as int) =~= pages@);
    }
    let same = ids_follow(&device_ids, &ordered);
    proof {
        assert(ordered@.map_values(|d: &DeviceRecord| d.id@) =~= device_ids_of(ds));
    }
    flag_if(errors, !same, String::from_str("device profile ids differ from catalog authority"));
    Some(DeviceProfilesReport { device_ids, structured_records: structured, sellable_devices: sellable })
}

} // verus!
