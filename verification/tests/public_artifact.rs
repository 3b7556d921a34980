use mer3ly_site::artifact::{
    ExpectedSocialMetadata, GraphEdge, GraphNode, GraphPayload, artifact_relative_path, bytes_eq, expected_artifact_paths,
    graph_payload_text, validate_cname, validate_copied_asset, validate_file_set, validate_graph_payload,
    validate_refresh_statement, validate_showcase_image, wasm_header_ok,
};
use mer3ly_site::devices::{
    AuthorizationRecord, AuthorizationState, DeviceCatalog, DeviceEvidence, DeviceRecord, DeviceStatus, EvidenceState,
    FlashRecipe, NetworkSupport, NetworkSupportState, OpenRequirement, SaleRecord, SaleState,
};
use mer3ly_site::discovery::canonical_urls_from_authority_and_devices;
use mer3ly_site::public_pages::{
    validate_device_ids, validate_device_profile, validate_device_profiles, validate_fixed_pages, validate_project_profile,
    validate_project_profiles, validate_repository_index,
};
use mer3ly_site::public_text::{allowed_github_slugs, attribute_values, scan_public_text, validate_sitemap};
use mer3ly_site::repositories::{
    Authority, MigrationManifest, PublicMetadataCache, PublicRepositoryMetadata, RelationKind, RelationManifest,
    RelationProvenance, RelationRecord, RepositoryClass, RepositoryManifest, RepositoryRecord, RepositoryStatus,
    ShowcaseManifest, ShowcaseRecord,
};
use mer3ly_site::site::{DEFAULT_SOCIAL_IMAGE_ALT, DEFAULT_SOCIAL_IMAGE_URL, ORGANIZATION_ID, WEBSITE_ID};
use mer3ly_site::structured_data::{
    parse_json_ld, validate_device_metadata, validate_fixed_metadata, validate_project_metadata,
};

#[test]
fn public_text_scan_accepts_approved_github_links() {
    let allowed = vec!["merely-made/mere".to_owned()];
    let mut errors = Vec::new();
    assert!(scan_public_text(
        "index.html",
        "mailto:markik@mer3ly.net https://github.com/merely-made https://github.com/merely-made/mere",
        &allowed,
        &mut errors,
    ));
    assert!(errors.is_empty(), "{errors:?}");
}

#[test]
fn public_text_scan_rejects_private_boundaries_without_echoing_values() {
    let allowed = vec!["merely-made/mere".to_owned()];
    let mut errors = Vec::new();
    assert!(scan_public_text(
        "index.html",
        "C:\\Users\\person\\secret 192.168.1.4 person@example.com https://github.com/private-owner/private-repo",
        &allowed,
        &mut errors,
    ));
    assert!(errors.len() >= 4);
    let joined = errors.join("\n");
    assert!(!joined.contains("person"));
    assert!(!joined.contains("192.168.1.4"));
    assert!(!joined.contains("private-owner"));
}

fn scan(text: &str) -> Vec<String> {
    let allowed = vec!["merely-made/mere".to_owned()];
    let mut errors = Vec::new();
    assert!(scan_public_text("page.html", text, &allowed, &mut errors));
    errors
}

#[test]
fn the_username_marker_counts_only_at_a_word_start() {
    assert_eq!(scan("see mark_ik here"), vec!["page.html contains a forbidden public-data marker".to_owned()]);
    assert!(scan("SHELFMARK_SCHEMA").is_empty());
}

#[test]
fn each_kind_of_finding_is_reported_once_in_a_fixed_order() {
    let errors = scan("/home/x /Users/y http://build.internal/ 127.0.0.1 10.1.2.3");
    assert_eq!(
        errors,
        vec![
            "page.html contains a forbidden public-data marker".to_owned(),
            "page.html contains a private hostname".to_owned(),
            "page.html contains a private or local network address".to_owned(),
        ]
    );
}

#[test]
fn public_addresses_and_octal_looking_quads_are_not_private() {
    assert!(scan("8.8.8.8 172.32.0.1 169.253.0.1").is_empty());
    assert!(scan("010.0.0.1").is_empty());
    assert_eq!(scan("0.0.0.0"), vec!["page.html contains a private or local network address".to_owned()]);
    assert_eq!(scan("172.16.0.1"), vec!["page.html contains a private or local network address".to_owned()]);
}

#[test]
fn the_contact_address_is_compared_without_ascii_case() {
    assert!(scan("write to MARKIK@MER3LY.NET").is_empty());
    assert_eq!(scan("write to someone@mer3ly.net"), vec!["page.html contains an unapproved contact address".to_owned()]);
}

#[test]
fn github_links_name_the_organization_and_its_public_repositories() {
    assert!(scan("https://github.com/Merely-Made/MERE.git").is_empty());
    assert_eq!(
        scan("https://github.com/merely-made/private"),
        vec!["page.html contains an unapproved GitHub repository link".to_owned()]
    );
    assert_eq!(
        scan("https://github.com/someone"),
        vec!["page.html contains an unapproved GitHub repository link".to_owned()]
    );
}

#[test]
fn a_windows_user_path_is_an_absolute_path() {
    assert_eq!(
        scan("built at D:/code/site"),
        vec!["page.html contains an absolute or network filesystem path".to_owned()]
    );
}

#[test]
fn attribute_values_are_found_in_order() {
    let values = attribute_values("<a data-id=\"one\"></a><b data-id=\"two\"></b><c data-id=\"\"></c>", "data-id");
    assert_eq!(values, Some(vec!["one".to_owned(), "two".to_owned()]));
}

fn sitemap(urls: &[&str]) -> String {
    let mut out = String::from("<?xml version=\"1.0\" encoding=\"UTF-8\"?>\n");
    out.push_str("<urlset xmlns=\"http://www.sitemaps.org/schemas/sitemap/0.9\">\n");
    for url in urls {
        out.push_str(&format!("  <url><loc>{url}</loc></url>\n"));
    }
    out.push_str("</urlset>\n");
    out
}

#[test]
fn a_sitemap_of_exactly_the_canonical_urls_passes() {
    let expected = vec!["https://mer3ly.net/".to_owned(), "https://mer3ly.net/repos/".to_owned()];
    let mut errors = Vec::new();
    let count = validate_sitemap(&sitemap(&["https://mer3ly.net/", "https://mer3ly.net/repos/"]), &expected, &mut errors);
    assert_eq!(count, Some(2));
    assert!(errors.is_empty(), "{errors:?}");
}

#[test]
fn a_sitemap_with_freshness_and_a_foreign_url_fails_twice() {
    let expected = vec!["https://mer3ly.net/".to_owned()];
    let mut errors = Vec::new();
    let text = sitemap(&["https://example.com/"]).replace("</url>", "<lastmod>2026-01-01</lastmod></url>");
    let count = validate_sitemap(&text, &expected, &mut errors);
    assert_eq!(count, Some(1));
    assert_eq!(
        errors,
        vec![
            "sitemap contains unsupported freshness metadata".to_owned(),
            "sitemap URLs differ from canonical public authority".to_owned(),
        ]
    );
}

#[test]
fn artifact_paths_are_relative_with_forward_slashes() {
    assert_eq!(artifact_relative_path("/out/html", "/out/html/projects/mere/index.html"), "projects/mere/index.html");
    assert_eq!(artifact_relative_path("/out/html/", "/out/html/CNAME"), "CNAME");
    assert_eq!(artifact_relative_path("C:\\out", "C:\\out\\site.css"), "C:/out/site.css");
    assert_eq!(artifact_relative_path("/out/html", "/out/html2/x"), "/out/html2/x");
    assert_eq!(artifact_relative_path("/out", "/out"), "");
}

#[test]
fn the_domain_file_names_the_public_domain() {
    let mut errors = Vec::new();
    validate_cname("CNAME", "mer3ly.net\n", &mut errors);
    assert!(errors.is_empty());
    validate_cname("CNAME", "example.net", &mut errors);
    assert_eq!(errors, vec!["CNAME does not name the approved public domain".to_owned()]);
}

fn repository(id: &str) -> RepositoryRecord {
    RepositoryRecord {
        id: id.to_owned(),
        github_slug: format!("merely-made/{id}"),
        name: id.to_owned(),
        summary: format!("The {id} repository."),
        class: RepositoryClass::Platform,
        status: RepositoryStatus::Active,
        license: "MIT".to_owned(),
        homepage: format!("https://github.com/merely-made/{id}"),
        public: true,
    }
}

fn authority() -> Authority {
    let mut private = repository("hidden");
    private.public = false;
    Authority {
        repositories: RepositoryManifest { repository: vec![repository("mere"), repository("graphshell"), private] },
        relations: RelationManifest {
            relation: vec![RelationRecord {
                id: "graphshell-uses-mere".to_owned(),
                source: "graphshell".to_owned(),
                target: "mere".to_owned(),
                kind: RelationKind::DependsOn,
                provenance: RelationProvenance::Curated,
                evidence: "Cargo manifest dependency.".to_owned(),
                verified_on: "2026-09-05".to_owned(),
            }],
        },
        migration: MigrationManifest {
            inventory_receipt: "docs/receipts/org-transfer/2026-09-05_p6_platform_topology.md".to_owned(),
            publication_gate_receipt: None,
            fork_review_receipt: None,
            migration: vec![],
            unresolved_product: vec![],
        },
    }
}

fn showcases() -> ShowcaseManifest {
    ShowcaseManifest {
        showcase: vec![ShowcaseRecord {
            repository: "mere".to_owned(),
            order: 1,
            headline: "Mere".to_owned(),
            copy: "A shared surface.".to_owned(),
            image: "showcase/mere.png".to_owned(),
            alt: "The Mere canvas".to_owned(),
            caption: "Mere".to_owned(),
            source_url: "https://github.com/merely-made/mere".to_owned(),
            source_license: "MIT".to_owned(),
        }],
    }
}

fn device(id: &str, order: u32) -> DeviceRecord {
    DeviceRecord {
        id: id.to_owned(),
        order,
        name: "Bench radio".to_owned(),
        role: "A radio for bench work".to_owned(),
        summary: "A checked development specimen.".to_owned(),
        status: DeviceStatus::DevelopmentSpecimen,
        form: "desktop".to_owned(),
        board: "Example board".to_owned(),
        processor: "Example processor".to_owned(),
        radio: "Example radio".to_owned(),
        interaction: "One button".to_owned(),
        power: "USB bench power".to_owned(),
        antenna: "Open".to_owned(),
        enclosure: "Open".to_owned(),
        recipe_state: "Incomplete".to_owned(),
        source_repository: "https://github.com/merely-made/retinue".to_owned(),
        source_document: "firmware/example/README.md".to_owned(),
        network_support: vec![NetworkSupport {
            name: "Reticulum".to_owned(),
            state: NetworkSupportState::Demonstrated,
            note: "Bench proof only.".to_owned(),
        }],
        flash_recipe: vec![FlashRecipe { package_id: "retinue.test".to_owned(), name: "Retinue".to_owned() }],
        authorization: AuthorizationRecord {
            state: AuthorizationState::Open,
            device: "Grant review open".to_owned(),
            antenna: "Antenna review open".to_owned(),
            operating_envelope: "Operating envelope review open".to_owned(),
            note: "Authorization must be reviewed before sale.".to_owned(),
        },
        sale: SaleRecord { state: SaleState::NotOffered, note: "Development specimen only.".to_owned(), purchase_url: None },
        evidence: vec![DeviceEvidence {
            label: "Radio carriage".to_owned(),
            state: EvidenceState::Partial,
            note: "One hop only.".to_owned(),
        }],
        open_requirement: vec![OpenRequirement { label: "Enclosure".to_owned(), note: "Not yet printed.".to_owned() }],
    }
}

fn catalog() -> DeviceCatalog {
    DeviceCatalog {
        schema: "mer3ly.device-catalog/v2".to_owned(),
        device: vec![device("second-radio", 2), device("bench-radio", 1)],
    }
}

#[test]
fn the_expected_file_set_covers_public_profiles_devices_and_showcases() {
    let paths = expected_artifact_paths(&authority(), &showcases(), &catalog());
    assert_eq!(paths.len(), 18 + 2 + 2 + 1);
    assert!(paths.contains(&"projects/graphshell/index.html".to_owned()));
    assert!(!paths.contains(&"projects/hidden/index.html".to_owned()));
    assert!(paths.contains(&"devices/bench-radio/index.html".to_owned()));
    assert!(paths.contains(&"showcase/mere.png".to_owned()));
    let mut errors = Vec::new();
    let mut actual = paths.clone();
    actual.reverse();
    validate_file_set(&actual, &paths, &mut errors);
    assert!(errors.is_empty());
    actual.push("stray.txt".to_owned());
    validate_file_set(&actual, &paths, &mut errors);
    assert_eq!(errors, vec!["public artifact file set differs from the approved shape".to_owned()]);
}

#[test]
fn copied_files_must_equal_their_sources() {
    let mut errors = Vec::new();
    validate_copied_asset(&Some(vec![1, 2]), &Some(vec![1, 2]), "favicon", &mut errors);
    assert!(errors.is_empty());
    validate_copied_asset(&Some(vec![1, 2]), &Some(vec![1, 3]), "favicon", &mut errors);
    validate_copied_asset(&None, &Some(vec![1]), "favicon", &mut errors);
    validate_showcase_image(&Some(vec![9]), &None, "mere", &mut errors);
    assert_eq!(
        errors,
        vec![
            "favicon artifact differs from its approved source".to_owned(),
            "favicon artifact or approved source is missing".to_owned(),
            "showcase mere artifact or approved source image is missing".to_owned(),
        ]
    );
    assert!(bytes_eq(&vec![4, 5], &vec![4, 5]));
}

#[test]
fn the_wasm_module_starts_with_its_magic_number() {
    assert!(wasm_header_ok(&b"\0asm\x01\0\0\0".to_vec()));
    assert!(!wasm_header_ok(&b"\0as".to_vec()));
    assert!(!wasm_header_ok(&b"<html>".to_vec()));
}

#[test]
fn the_repository_page_shows_the_refresh_time() {
    let mut errors = Vec::new();
    validate_refresh_statement("<p>Refreshed 2026-09-05 12:00 UTC.</p>", "2026-09-05T12:00:00Z", &mut errors);
    assert!(errors.is_empty());
    validate_refresh_statement("<p>Refreshed 2026-09-05 12:01 UTC.</p>", "2026-09-05T12:00:00Z", &mut errors);
    assert_eq!(errors, vec!["repository page does not display the validated metadata timestamp".to_owned()]);
}

fn payload(nodes: &[&str], edges: &[(&str, &str, &str)]) -> GraphPayload {
    GraphPayload {
        schema: "mer3ly.repo-graph/v1".to_owned(),
        nodes: nodes.iter().map(|id| GraphNode { id: (*id).to_owned() }).collect(),
        edges: edges
            .iter()
            .map(|(id, source, target)| GraphEdge {
                id: (*id).to_owned(),
                source: (*source).to_owned(),
                target: (*target).to_owned(),
            })
            .collect(),
    }
}

#[test]
fn the_carried_graph_is_the_public_authority() {
    let mut errors = Vec::new();
    validate_graph_payload(
        &payload(&["graphshell", "mere"], &[("graphshell-uses-mere", "graphshell", "mere")]),
        &authority(),
        &mut errors,
    );
    assert!(errors.is_empty(), "{errors:?}");
    let mut bad = payload(&["mere", "hidden"], &[("other", "graphshell", "mere")]);
    bad.schema = "other".to_owned();
    validate_graph_payload(&bad, &authority(), &mut errors);
    assert_eq!(
        errors,
        vec![
            "repository graph authority schema is not approved".to_owned(),
            "repository graph node ids differ from authority".to_owned(),
            "repository graph edge ids differ from authority".to_owned(),
            "repository graph contains an edge with an unknown endpoint".to_owned(),
        ]
    );
}

#[test]
fn the_graph_data_is_read_from_its_script_element() {
    let page = "<script id=\"repository-graph-data\" type=\"application/json\">{\"a\":1}</script>";
    assert_eq!(graph_payload_text(page), Ok("{\"a\":1}".to_owned()));
    assert_eq!(graph_payload_text("<p></p>"), Err("repository page is missing graph authority data".to_owned()));
    assert_eq!(
        graph_payload_text("<script id=\"repository-graph-data\" type=\"application/json\">{"),
        Err("repository graph authority data is not terminated".to_owned())
    );
}

fn attr(value: &str) -> String {
    value.replace('&', "&amp;").replace('<', "&lt;").replace('>', "&gt;").replace('"', "&quot;")
}

fn head(canonical: &str, image: &str, image_type: &str, alt: &str) -> String {
    let mut out = String::new();
    out.push_str(&format!("<link rel=\"canonical\" href=\"{}\">", attr(canonical)));
    out.push_str("<meta property=\"og:type\" content=\"website\">");
    out.push_str("<meta property=\"og:site_name\" content=\"Merely\">");
    out.push_str(&format!("<meta property=\"og:url\" content=\"{}\">", attr(canonical)));
    out.push_str(&format!("<meta property=\"og:image\" content=\"{}\">", attr(image)));
    out.push_str(&format!("<meta property=\"og:image:type\" content=\"{}\">", attr(image_type)));
    out.push_str(&format!("<meta property=\"og:image:alt\" content=\"{}\">", attr(alt)));
    out.push_str("<meta name=\"twitter:card\" content=\"summary_large_image\">");
    out.push_str(&format!("<meta name=\"twitter:image\" content=\"{}\">", attr(image)));
    out.push_str(&format!("<meta name=\"twitter:image:alt\" content=\"{}\">", attr(alt)));
    out.push_str("<link rel=\"icon\" href=\"/favicon.svg\" type=\"image/svg+xml\">");
    out.push_str("<link rel=\"sitemap\" href=\"/sitemap.xml\" type=\"application/xml\" title=\"Sitemap\">");
    out.push_str("<meta property=\"og:title\" content=\"Title\">");
    out.push_str("<meta name=\"twitter:title\" content=\"Title\">");
    out.push_str("<meta property=\"og:description\" content=\"About\">");
    out.push_str("<meta name=\"twitter:description\" content=\"About\">");
    out
}

fn base_nodes() -> Vec<serde_json::Value> {
    let mut organization = serde_json::Map::new();
    organization.insert("@id".to_owned(), ORGANIZATION_ID.into());
    organization.insert("@type".to_owned(), "Organization".into());
    organization.insert("name".to_owned(), "Merely LLC".into());
    let mut publisher = serde_json::Map::new();
    publisher.insert("@id".to_owned(), ORGANIZATION_ID.into());
    let mut website = serde_json::Map::new();
    website.insert("@id".to_owned(), WEBSITE_ID.into());
    website.insert("@type".to_owned(), "WebSite".into());
    website.insert("publisher".to_owned(), serde_json::Value::Object(publisher));
    vec![serde_json::Value::Object(organization), serde_json::Value::Object(website)]
}

fn reference(id: &str) -> serde_json::Value {
    let mut map = serde_json::Map::new();
    map.insert("@id".to_owned(), id.into());
    serde_json::Value::Object(map)
}

fn web_page(canonical: &str, about: &str) -> serde_json::Value {
    let mut page = serde_json::Map::new();
    page.insert("@id".to_owned(), canonical.into());
    page.insert("@type".to_owned(), "WebPage".into());
    page.insert("about".to_owned(), reference(about));
    page.insert("isPartOf".to_owned(), reference(WEBSITE_ID));
    serde_json::Value::Object(page)
}

fn json_ld(nodes: Vec<serde_json::Value>) -> String {
    let mut record = serde_json::Map::new();
    record.insert("@context".to_owned(), "https://schema.org".into());
    record.insert("@graph".to_owned(), serde_json::Value::Array(nodes));
    format!(
        "<script type=\"application/ld+json\">{}</script>",
        serde_json::to_string(&serde_json::Value::Object(record)).expect("JSON-LD")
    )
}

fn device_nodes(canonical: &str, offers: bool) -> Vec<serde_json::Value> {
    let mut nodes = base_nodes();
    let article_id = format!("{canonical}#recipe");
    nodes.push(web_page(canonical, &article_id));
    let mut article = serde_json::Map::new();
    article.insert("@id".to_owned(), article_id.as_str().into());
    article.insert("@type".to_owned(), "TechArticle".into());
    article.insert("url".to_owned(), canonical.into());
    article.insert("publisher".to_owned(), reference(ORGANIZATION_ID));
    article.insert(
        "isBasedOn".to_owned(),
        "https://github.com/merely-made/retinue/blob/main/firmware/example/README.md".into(),
    );
    if offers {
        article.insert("offers".to_owned(), reference("offer"));
    }
    nodes.push(serde_json::Value::Object(article));
    nodes
}

fn device_page(id: &str, offers: bool) -> String {
    let canonical = format!("https://mer3ly.net/devices/{id}/");
    let mut page = String::from("<!doctype html><html><head>");
    page.push_str(&head(&canonical, DEFAULT_SOCIAL_IMAGE_URL, "image/jpeg", DEFAULT_SOCIAL_IMAGE_ALT));
    page.push_str("<link rel=\"stylesheet\" href=\"/devices.css?v=0123456789ab\">");
    page.push_str(&json_ld(device_nodes(&canonical, offers)));
    page.push_str(&format!("</head><body><article data-device-id=\"{id}\">"));
    page.push_str("<a href=\"https://github.com/merely-made/retinue/blob/main/firmware/example/README.md\">evidence</a>");
    page.push_str("<p data-purchase-status=\"unavailable\">Not offered.</p></article></body></html>");
    page
}

#[test]
fn a_device_profile_with_exact_metadata_passes() {
    let record = device("bench-radio", 1);
    let canonical = "https://mer3ly.net/devices/bench-radio/";
    let expected = ExpectedSocialMetadata {
        canonical,
        image_url: DEFAULT_SOCIAL_IMAGE_URL,
        image_type: "image/jpeg",
        image_alt: DEFAULT_SOCIAL_IMAGE_ALT,
    };
    let mut errors = Vec::new();
    assert!(validate_device_metadata(&device_page("bench-radio", false), &record, &expected, &mut errors));
    assert!(errors.is_empty(), "{errors:?}");
}

#[test]
fn a_non_sellable_device_may_not_publish_an_offer() {
    let record = device("bench-radio", 1);
    let expected = ExpectedSocialMetadata {
        canonical: "https://mer3ly.net/devices/bench-radio/",
        image_url: DEFAULT_SOCIAL_IMAGE_URL,
        image_type: "image/jpeg",
        image_alt: DEFAULT_SOCIAL_IMAGE_ALT,
    };
    let mut errors = Vec::new();
    assert!(!validate_device_metadata(&device_page("bench-radio", true), &record, &expected, &mut errors));
    assert_eq!(errors, vec!["device profile bench-radio publishes an Offer for a non-sellable device".to_owned()]);
}

#[test]
fn a_json_ld_record_must_parse() {
    let mut errors = Vec::new();
    let value = parse_json_ld("<script type=\"application/ld+json\">{not json</script>", "page", &mut errors);
    assert!(value.is_none());
    assert_eq!(errors, vec!["page JSON-LD record is invalid".to_owned()]);
    let mut errors = Vec::new();
    assert!(parse_json_ld("<p></p>", "page", &mut errors).is_none());
    assert_eq!(errors, vec!["page does not have exactly one JSON-LD record".to_owned()]);
}

#[test]
fn a_fixed_page_carries_the_base_schema() {
    let mut page = String::from("<!doctype html>");
    page.push_str(&head("https://mer3ly.net/", DEFAULT_SOCIAL_IMAGE_URL, "image/jpeg", DEFAULT_SOCIAL_IMAGE_ALT));
    page.push_str(&json_ld(base_nodes()));
    let mut errors = Vec::new();
    validate_fixed_metadata(&page, "https://mer3ly.net/", DEFAULT_SOCIAL_IMAGE_URL, "image/jpeg", DEFAULT_SOCIAL_IMAGE_ALT, &mut errors);
    assert!(errors.is_empty(), "{errors:?}");
    let broken = page.replace("Merely LLC", "Someone Else");
    validate_fixed_metadata(&broken, "https://mer3ly.net/", DEFAULT_SOCIAL_IMAGE_URL, "image/jpeg", DEFAULT_SOCIAL_IMAGE_ALT, &mut errors);
    assert_eq!(errors, vec!["fixed page has invalid organization structured data".to_owned()]);
}

fn metadata() -> PublicMetadataCache {
    let record = |id: &str| PublicRepositoryMetadata {
        id: id.to_owned(),
        github_slug: format!("merely-made/{id}"),
        name: id.to_owned(),
        description: format!("The {id} repository."),
        homepage: None,
        license: Some("MIT".to_owned()),
        updated_at: "2026-09-01T00:00:00Z".to_owned(),
        pushed_at: "2026-09-01T00:00:00Z".to_owned(),
        primary_language: Some("Rust".to_owned()),
        stargazer_count: 1,
        archived: false,
        fork: false,
        topics: vec!["rust".to_owned()],
    };
    PublicMetadataCache {
        schema: "mer3ly.github-organization/v2".to_owned(),
        organization: "merely-made".to_owned(),
        generated_at_utc: "2026-09-05T12:00:00Z".to_owned(),
        repository: vec![record("mere"), record("graphshell")],
        event: vec![],
    }
}

fn project_nodes(id: &str, keywords: &[&str]) -> Vec<serde_json::Value> {
    let canonical = format!("https://mer3ly.net/projects/{id}/");
    let entity_id = format!("{canonical}#repository");
    let url = format!("https://github.com/merely-made/{id}");
    let mut nodes = base_nodes();
    nodes.push(web_page(&canonical, &entity_id));
    let mut entity = serde_json::Map::new();
    entity.insert("@id".to_owned(), entity_id.as_str().into());
    entity.insert("@type".to_owned(), "SoftwareSourceCode".into());
    entity.insert("url".to_owned(), canonical.as_str().into());
    entity.insert("publisher".to_owned(), reference(ORGANIZATION_ID));
    entity.insert("sameAs".to_owned(), serde_json::Value::Array(vec![url.as_str().into()]));
    entity.insert("codeRepository".to_owned(), url.as_str().into());
    entity.insert("programmingLanguage".to_owned(), "Rust".into());
    entity.insert(
        "keywords".to_owned(),
        serde_json::Value::Array(keywords.iter().map(|k| serde_json::Value::from(*k)).collect()),
    );
    nodes.push(serde_json::Value::Object(entity));
    nodes
}

fn project_page(id: &str, keywords: &[&str]) -> String {
    let canonical = format!("https://mer3ly.net/projects/{id}/");
    let mut page = String::from("<!doctype html><html><head>");
    page.push_str(&head(&canonical, DEFAULT_SOCIAL_IMAGE_URL, "image/jpeg", DEFAULT_SOCIAL_IMAGE_ALT));
    page.push_str(&json_ld(project_nodes(id, keywords)));
    page.push_str(&format!("</head><body><article data-project-id=\"{id}\"></article></body></html>"));
    page
}

#[test]
fn a_project_profile_names_its_source_language_and_topics() {
    let record = repository("graphshell");
    let canonical = "https://mer3ly.net/projects/graphshell/";
    let expected = ExpectedSocialMetadata {
        canonical,
        image_url: DEFAULT_SOCIAL_IMAGE_URL,
        image_type: "image/jpeg",
        image_alt: DEFAULT_SOCIAL_IMAGE_ALT,
    };
    let mut errors = Vec::new();
    assert_eq!(
        validate_project_metadata(&project_page("graphshell", &["rust"]), &record, &metadata(), &expected, &mut errors),
        (true, true)
    );
    assert!(errors.is_empty(), "{errors:?}");
    assert_eq!(
        validate_project_metadata(&project_page("graphshell", &["go"]), &record, &metadata(), &expected, &mut errors),
        (true, false)
    );
    assert_eq!(errors, vec!["project profile graphshell has invalid topic structured data".to_owned()]);
}

#[test]
fn a_project_profile_is_checked_against_the_home_and_repository_pages() {
    let record = repository("graphshell");
    let mut errors = Vec::new();
    let report = validate_project_profile(
        &project_page("graphshell", &["rust"]),
        &record,
        &metadata(),
        &showcases(),
        "<a href=\"/\">home</a>",
        "<a data-project-href=\"/projects/graphshell/\">graphshell</a>",
        "{}",
        &mut errors,
    )
    .expect("patterns accepted");
    assert!(errors.is_empty(), "{errors:?}");
    assert_eq!(report.project_ids, vec!["graphshell".to_owned()]);
    assert!(report.relation_ids.is_empty());
    assert!(report.social_valid && report.structured_valid);
    validate_project_profile(
        &project_page("graphshell", &["rust"]).replace("</body>", "<div data-projection-proof></div></body>"),
        &record,
        &metadata(),
        &showcases(),
        "",
        "",
        "{}",
        &mut errors,
    );
    assert_eq!(
        errors,
        vec![
            "repository page is missing project profile link graphshell".to_owned(),
            "project profile graphshell unexpectedly includes the Mere projection proof".to_owned(),
        ]
    );
}

#[test]
fn a_device_profile_projects_exactly_its_authority_id() {
    let record = device("bench-radio", 1);
    let mut errors = Vec::new();
    let report = validate_device_profile(
        &device_page("bench-radio", false),
        &record,
        "<li data-device-id=\"bench-radio\"></li>",
        &mut errors,
    )
    .expect("pattern accepted");
    assert!(errors.is_empty(), "{errors:?}");
    assert_eq!(report.device_ids, vec!["bench-radio".to_owned()]);
    assert!(report.structured_valid);
    assert!(!report.sellable);
    validate_device_profile(&device_page("bench-radio", false), &record, "", &mut errors);
    assert_eq!(errors, vec!["device index is missing catalog record bench-radio".to_owned()]);
}

#[test]
fn device_profiles_follow_the_catalog_order() {
    let mut errors = Vec::new();
    validate_device_ids(&vec!["bench-radio".to_owned(), "second-radio".to_owned()], &catalog(), &mut errors);
    assert!(errors.is_empty());
    validate_device_ids(&vec!["second-radio".to_owned(), "bench-radio".to_owned()], &catalog(), &mut errors);
    assert_eq!(errors, vec!["device profile ids differ from catalog authority".to_owned()]);
}

#[test]
fn the_repository_index_projects_the_authority() {
    let page = "<script type=\"module\" src=\"/graph-sandbox.js?v=1\"></script><div data-graph-sandbox></div>\
<script id=\"graph-sandbox-data\"></script><li data-repository-id=\"mere\"></li><li data-repository-id=\"graphshell\"></li>\
<p data-relation-id=\"graphshell-uses-mere\"></p><p data-relation-id=\"graphshell-uses-mere\"></p>";
    let mut errors = Vec::new();
    let ids = validate_repository_index(page, &authority(), &mut errors).expect("patterns accepted");
    assert!(errors.is_empty(), "{errors:?}");
    assert_eq!(ids.repository_ids.len(), 2);
    assert_eq!(ids.relation_ids.len(), 2);
    let slugs = allowed_github_slugs(&authority());
    assert_eq!(slugs, vec!["merely-made/mere".to_owned(), "merely-made/graphshell".to_owned()]);
}

#[test]
fn fixed_pages_name_their_modules_and_the_robots_policy() {
    let page = |canonical: &str, extra: &str| {
        let mut out = String::from("<!doctype html>");
        out.push_str(&head(canonical, DEFAULT_SOCIAL_IMAGE_URL, "image/jpeg", DEFAULT_SOCIAL_IMAGE_ALT));
        out.push_str(&json_ld(base_nodes()));
        out.push_str(extra);
        out
    };
    let home = page("https://mer3ly.net/", "<a href=\"/devices/\">devices</a>");
    let radio = page(
        "https://mer3ly.net/radio.html",
        "<script type=\"module\" src=\"/message-path-lab.js?v=1\"></script><div data-message-path-lab></div>",
    );
    let repositories = page("https://mer3ly.net/repos/", "");
    let devices = page("https://mer3ly.net/devices/", "<link href=\"/devices.css?v=1\">");
    let mut errors = Vec::new();
    validate_fixed_pages(&home, &radio, &repositories, &devices, "policy", "policy", &mut errors);
    assert!(errors.is_empty(), "{errors:?}");
    validate_fixed_pages(&home, &radio, &repositories, &devices, "other", "policy", &mut errors);
    assert_eq!(errors, vec!["robots policy differs from the approved public policy".to_owned()]);
}

#[test]
fn canonical_urls_list_fixed_pages_public_projects_then_devices_in_display_order() {
    let urls = canonical_urls_from_authority_and_devices(&authority(), &catalog());
    assert_eq!(
        urls,
        vec![
            "https://mer3ly.net/".to_owned(),
            "https://mer3ly.net/radio.html".to_owned(),
            "https://mer3ly.net/repos/".to_owned(),
            "https://mer3ly.net/devices/".to_owned(),
            "https://mer3ly.net/projects/mere/".to_owned(),
            "https://mer3ly.net/projects/graphshell/".to_owned(),
            "https://mer3ly.net/devices/bench-radio/".to_owned(),
            "https://mer3ly.net/devices/second-radio/".to_owned(),
        ]
    );
}

#[test]
fn device_profiles_are_checked_in_display_order_and_counted() {
    let index = "<li data-device-id=\"bench-radio\"></li><li data-device-id=\"second-radio\"></li>";
    let pages = vec![device_page("bench-radio", false), device_page("second-radio", false)];
    let mut errors = Vec::new();
    let report = validate_device_profiles(&pages, &catalog(), index, &mut errors).expect("pattern accepted");
    assert!(errors.is_empty(), "{errors:?}");
    assert_eq!(report.device_ids, vec!["bench-radio".to_owned(), "second-radio".to_owned()]);
    assert_eq!(report.structured_records, 2);
    assert_eq!(report.sellable_devices, 0);
    let swapped = vec![device_page("second-radio", false), device_page("bench-radio", false)];
    let mut errors = Vec::new();
    let report = validate_device_profiles(&swapped, &catalog(), index, &mut errors).expect("pattern accepted");
    assert_eq!(report.structured_records, 0);
    assert_eq!(errors.last(), Some(&"device profile ids differ from catalog authority".to_owned()));
}

#[test]
fn project_profiles_are_checked_against_the_public_repositories() {
    let mut single = authority();
    single.repositories.repository.remove(0);
    single.relations.relation.clear();
    let listing = "<a data-project-href=\"/projects/graphshell/\">graphshell</a>";
    let pages = vec![project_page("graphshell", &["rust"])];
    let mut errors = Vec::new();
    let report = validate_project_profiles(&pages, &single, &metadata(), &showcases(), "", listing, "{}", &mut errors)
        .expect("patterns accepted");
    assert!(errors.is_empty(), "{errors:?}");
    assert_eq!(report.project_ids, vec!["graphshell".to_owned()]);
    assert!(report.relation_ids.is_empty());
    assert_eq!((report.social_previews, report.structured_records), (1, 1));
    let unmarked = vec![project_page("graphshell", &["go"]).replace("data-project-id", "data-other")];
    let mut errors = Vec::new();
    let report = validate_project_profiles(&unmarked, &single, &metadata(), &showcases(), "", listing, "{}", &mut errors)
        .expect("patterns accepted");
    assert_eq!((report.social_previews, report.structured_records), (1, 0));
    assert_eq!(
        errors,
        vec![
            "project profile graphshell has invalid topic structured data".to_owned(),
            "project profile ids differ from repository authority".to_owned(),
        ]
    );
}
