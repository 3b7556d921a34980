use mer3ly_site::artifact::ExpectedSocialMetadata;
use mer3ly_site::devices::{
    AuthorizationRecord, AuthorizationState, DeviceRecord, DeviceStatus, SaleRecord, SaleState,
};
use mer3ly_site::graph_reading::authority_identity;
use mer3ly_site::repositories::{
    PublicMetadataCache, PublicRepositoryMetadata, RepositoryClass, RepositoryRecord, RepositoryStatus,
};
use mer3ly_site::schema::{base_schema_graph, device_json_ld_record, project_json_ld_record, site_json_ld_record};
use mer3ly_site::site::{DEFAULT_SOCIAL_IMAGE_ALT, DEFAULT_SOCIAL_IMAGE_URL, escape_json_for_script};
use mer3ly_site::structured_data::{JsonValue, validate_device_metadata, validate_project_metadata};

fn to_serde(value: &JsonValue) -> serde_json::Value {
    match value {
        JsonValue::Null => serde_json::Value::Null,
        JsonValue::Bool(b) => serde_json::Value::Bool(*b),
        JsonValue::Number(n) => serde_json::from_str(n).expect("number"),
        JsonValue::Text(s) => serde_json::Value::String(s.clone()),
        JsonValue::Array(items) => serde_json::Value::Array(items.iter().map(to_serde).collect()),
        JsonValue::Object(fields) => {
            let mut map = serde_json::Map::new();
            for (key, value) in fields {
                map.insert(key.clone(), to_serde(value));
            }
            serde_json::Value::Object(map)
        }
    }
}

fn script(value: &JsonValue) -> String {
    let text = serde_json::to_string_pretty(&to_serde(value)).expect("serializable");
    format!("<script type=\"application/ld+json\">{}</script>", escape_json_for_script(&text))
}

fn attr(value: &str) -> String {
    value.replace('&', "&amp;").replace('<', "&lt;").replace('>', "&gt;").replace('"', "&quot;")
}

fn head(canonical: &str) -> String {
    let image = DEFAULT_SOCIAL_IMAGE_URL;
    let alt = DEFAULT_SOCIAL_IMAGE_ALT;
    let mut out = String::new();
    out.push_str(&format!("<link rel=\"canonical\" href=\"{}\">", attr(canonical)));
    out.push_str("<meta property=\"og:type\" content=\"website\">");
    out.push_str("<meta property=\"og:site_name\" content=\"Merely\">");
    out.push_str(&format!("<meta property=\"og:url\" content=\"{}\">", attr(canonical)));
    out.push_str(&format!("<meta property=\"og:image\" content=\"{}\">", attr(image)));
    out.push_str("<meta property=\"og:image:type\" content=\"image/jpeg\">");
    out.push_str(&format!("<meta property=\"og:image:alt\" content=\"{}\">", attr(alt)));
    out.push_str("<meta name=\"twitter:card\" content=\"summary_large_image\">");
    out.push_str(&format!("<meta name=\"twitter:image\" content=\"{}\">", attr(image)));
    out.push_str(&format!("<meta name=\"twitter:image:alt\" content=\"{}\">", attr(alt)));
    out.push_str("<link rel=\"icon\" href=\"/favicon.svg\" type=\"image/svg+xml\">");
    out.push_str("<link rel=\"sitemap\" href=\"/sitemap.xml\" type=\"application/xml\" title=\"Sitemap\">");
    out.push_str("<meta property=\"og:title\" content=\"Title\">");
    out.push_str("<meta name=\"twitter:title\" content=\"Title\">");
    out.push_str("<meta property=\"og:description\" content=\"About\">");
    out.push_str("<meta name=\"twitter:description\" content=\"About\">");
    out
}

fn expected(canonical: &str) -> ExpectedSocialMetadata<'_> {
    ExpectedSocialMetadata {
        canonical,
        image_url: DEFAULT_SOCIAL_IMAGE_URL,
        image_type: "image/jpeg",
        image_alt: DEFAULT_SOCIAL_IMAGE_ALT,
    }
}

fn device() -> DeviceRecord {
    DeviceRecord {
        id: "bench-radio".to_owned(),
        order: 1,
        name: "Bench <radio> & co".to_owned(),
        role: "A radio for bench work".to_owned(),
        summary: "A checked development specimen.".to_owned(),
        status: DeviceStatus::DevelopmentSpecimen,
        form: "desktop".to_owned(),
        board: "Example board".to_owned(),
        processor: "Example processor".to_owned(),
        radio: "Example radio".to_owned(),
        interaction: "One button".to_owned(),
        power: "USB bench power".to_owned(),
        antenna: "Open".to_owned(),
        enclosure: "Open".to_owned(),
        recipe_state: "Incomplete".to_owned(),
        source_repository: "https://github.com/merely-made/retinue".to_owned(),
        source_document: "firmware/example/README.md".to_owned(),
        network_support: vec![],
        flash_recipe: vec![],
        authorization: AuthorizationRecord {
            state: AuthorizationState::Open,
            device: "Grant review open".to_owned(),
            antenna: "Antenna review open".to_owned(),
            operating_envelope: "Operating envelope review open".to_owned(),
            note: "Authorization must be reviewed before sale.".to_owned(),
        },
        sale: SaleRecord { state: SaleState::NotOffered, note: "Development specimen only.".to_owned(), purchase_url: None },
        evidence: vec![],
        open_requirement: vec![],
    }
}

fn repository(id: &str) -> RepositoryRecord {
    RepositoryRecord {
        id: id.to_owned(),
        github_slug: format!("merely-made/{id}"),
        name: id.to_owned(),
        summary: format!("The {id} repository."),
        class: RepositoryClass::Platform,
        status: RepositoryStatus::Active,
        license: "MIT".to_owned(),
        homepage: format!("https://github.com/merely-made/{id}"),
        public: true,
    }
}

fn metadata(id: &str, language: Option<&str>, topics: &[&str]) -> PublicRepositoryMetadata {
    PublicRepositoryMetadata {
        id: id.to_owned(),
        github_slug: format!("merely-made/{id}"),
        name: id.to_owned(),
        description: format!("The {id} repository."),
        homepage: None,
        license: Some("MIT".to_owned()),
        updated_at: "2026-09-01T00:00:00Z".to_owned(),
        pushed_at: "2026-09-01T00:00:00Z".to_owned(),
        primary_language: language.map(str::to_owned),
        stargazer_count: 1,
        archived: false,
        fork: false,
        topics: topics.iter().map(|t| (*t).to_owned()).collect(),
    }
}

fn cache(records: Vec<PublicRepositoryMetadata>) -> PublicMetadataCache {
    PublicMetadataCache {
        schema: "mer3ly.github-organization/v2".to_owned(),
        organization: "merely-made".to_owned(),
        generated_at_utc: "2026-09-05T12:00:00Z".to_owned(),
        repository: records,
        event: vec![],
    }
}

#[test]
fn the_base_graph_names_the_organization_and_the_website() {
    let graph: Vec<serde_json::Value> = base_schema_graph().iter().map(to_serde).collect();
    assert_eq!(graph.len(), 2);
    assert_eq!(graph[0]["@type"], "Organization");
    assert_eq!(graph[0]["name"], "Merely LLC");
    assert_eq!(graph[0]["email"], "markik@mer3ly.net");
    assert_eq!(graph[0]["sameAs"][0], "https://github.com/merely-made");
    assert_eq!(graph[0]["address"]["addressRegion"], "KY");
    assert_eq!(graph[1]["@type"], "WebSite");
    assert_eq!(graph[1]["publisher"]["@id"], "https://mer3ly.net/#organization");
    let site = to_serde(&site_json_ld_record());
    assert_eq!(site["@context"], "https://schema.org");
    assert_eq!(site["@graph"].as_array().map(Vec::len), Some(2));
}

#[test]
fn a_published_device_record_passes_the_device_check() {
    let record = device();
    let canonical = "https://mer3ly.net/devices/bench-radio/";
    let value = device_json_ld_record(&record, canonical);
    let serde = to_serde(&value);
    assert_eq!(serde["@graph"][3]["isBasedOn"], "https://github.com/merely-made/retinue/blob/main/firmware/example/README.md");
    assert_eq!(serde["@graph"][3]["articleSection"].as_array().map(Vec::len), Some(7));
    assert!(serde["@graph"].as_array().expect("graph").iter().all(|node| node.get("offers").is_none()));
    let page = format!("<!doctype html><head>{}{}</head>", head(canonical), script(&value));
    assert!(!page.contains("Bench <radio>"));
    let mut errors = Vec::new();
    assert!(validate_device_metadata(&page, &record, &expected(canonical), &mut errors));
    assert!(errors.is_empty(), "{errors:?}");
}

#[test]
fn a_published_project_record_passes_the_project_check() {
    let record = repository("graphshell");
    let canonical = "https://mer3ly.net/projects/graphshell/";
    let md = metadata("graphshell", Some("Rust"), &["rust", "graph"]);
    let value = project_json_ld_record(&record, Some(&md), canonical);
    let serde = to_serde(&value);
    assert_eq!(serde["@graph"][3]["@type"], "SoftwareSourceCode");
    assert_eq!(serde["@graph"][3]["codeRepository"], "https://github.com/merely-made/graphshell");
    assert_eq!(serde["@graph"][3]["programmingLanguage"], "Rust");
    assert_eq!(serde["@graph"][3]["keywords"][1], "graph");
    let page = format!("<!doctype html><head>{}{}</head>", head(canonical), script(&value));
    let mut errors = Vec::new();
    assert_eq!(
        validate_project_metadata(&page, &record, &cache(vec![md]), &expected(canonical), &mut errors),
        (true, true)
    );
    assert!(errors.is_empty(), "{errors:?}");
}

#[test]
fn the_organization_profile_is_a_creative_work_without_source_fields() {
    let record = repository("org-profile");
    let canonical = "https://mer3ly.net/projects/org-profile/";
    let value = to_serde(&project_json_ld_record(&record, None, canonical));
    let entity = &value["@graph"][3];
    assert_eq!(entity["@type"], "CreativeWork");
    assert!(entity.get("codeRepository").is_none());
    assert!(entity.get("programmingLanguage").is_none());
    assert!(entity.get("keywords").is_none());
    assert_eq!(entity["@id"], "https://mer3ly.net/projects/org-profile/#repository");
}

#[test]
fn a_project_without_topics_publishes_no_keywords() {
    let record = repository("mere");
    let md = metadata("mere", None, &[]);
    let value = to_serde(&project_json_ld_record(&record, Some(&md), "https://mer3ly.net/projects/mere/"));
    let entity = &value["@graph"][3];
    assert_eq!(entity["@type"], "SoftwareSourceCode");
    assert!(entity.get("programmingLanguage").is_none());
    assert!(entity.get("keywords").is_none());
}

#[test]
fn the_authority_identity_is_the_digest_and_its_leading_eight_bytes() {
    let (digest, generation) = authority_identity(b"abc");
    assert_eq!(digest, "ba7816bf8f01cfea414140de5dae2223b00361a396177a9cb410ff61f20015ad");
    assert_eq!(generation, 13436514500253700074);
}
