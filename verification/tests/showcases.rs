use mer3ly_site::repositories::{
    Authority, MigrationManifest, PngVerdict, RelationManifest, RepositoryClass, RepositoryManifest, RepositoryRecord,
    RepositoryStatus, ShowcaseManifest, ShowcaseRecord, validate_showcase_png,
};

fn repository(id: &str) -> RepositoryRecord {
    RepositoryRecord {
        id: id.to_owned(),
        github_slug: format!("merely-made/{id}"),
        name: id.to_owned(),
        summary: format!("The {id} repository."),
        class: RepositoryClass::Tool,
        status: RepositoryStatus::Active,
        license: "MIT".to_owned(),
        homepage: format!("https://github.com/merely-made/{id}"),
        public: true,
    }
}

fn authority() -> Authority {
    Authority {
        repositories: RepositoryManifest { repository: vec![repository("mere"), repository("retinue")] },
        relations: RelationManifest { relation: Vec::new() },
        migration: MigrationManifest {
            inventory_receipt: "docs/receipts/x.md".to_owned(),
            publication_gate_receipt: None,
            fork_review_receipt: None,
            migration: Vec::new(),
            unresolved_product: Vec::new(),
        },
    }
}

fn showcase(id: &str, order: u32) -> ShowcaseRecord {
    ShowcaseRecord {
        repository: id.to_owned(),
        order,
        headline: "Headline".to_owned(),
        copy: "Copy".to_owned(),
        image: format!("showcase/{id}.png"),
        alt: "Alt".to_owned(),
        caption: "Caption".to_owned(),
        source_url: format!("https://github.com/merely-made/{id}/blob/main/shot.png"),
        source_license: "MIT".to_owned(),
    }
}

fn chunk(kind: &[u8; 4], data: &[u8]) -> Vec<u8> {
    let mut out = (data.len() as u32).to_be_bytes().to_vec();
    out.extend_from_slice(kind);
    out.extend_from_slice(data);
    out.extend_from_slice(&[0, 0, 0, 0]);
    out
}

fn png(width: u32, height: u32, extra: Option<&[u8; 4]>) -> Vec<u8> {
    let mut bytes = b"\x89PNG\r\n\x1a\n".to_vec();
    let mut header = width.to_be_bytes().to_vec();
    header.extend_from_slice(&height.to_be_bytes());
    header.extend_from_slice(&[8, 6, 0, 0, 0]);
    bytes.extend(chunk(b"IHDR", &header));
    if let Some(kind) = extra {
        bytes.extend(chunk(kind, &[1, 2]));
    }
    bytes.extend(chunk(b"IDAT", &[1, 2, 3]));
    bytes.extend(chunk(b"IEND", &[]));
    bytes
}

#[test]
fn png_rules_accept_only_complete_normalized_images() {
    assert_eq!(validate_showcase_png(&png(640, 480, None)), PngVerdict::Complete);
    assert_eq!(validate_showcase_png(&png(640, 480, Some(b"sRGB"))), PngVerdict::Complete);
    assert_eq!(validate_showcase_png(&png(640, 480, Some(b"tEXt"))), PngVerdict::UnapprovedChunk);
    assert_eq!(validate_showcase_png(&png(640, 480, Some(&[0xff, 0xfe, 0x41, 0x42]))), PngVerdict::Incomplete);
    assert_eq!(validate_showcase_png(&png(640, 480, Some(&[0xc3, 0xa9, 0x41, 0x42]))), PngVerdict::UnapprovedChunk);
    assert_eq!(validate_showcase_png(&png(640, 480, Some(&[0xed, 0xa0, 0x80, 0x41]))), PngVerdict::Incomplete);
    assert_eq!(validate_showcase_png(&png(0, 480, None)), PngVerdict::BadDimensions);
    assert_eq!(validate_showcase_png(&png(5000, 10, None)), PngVerdict::BadDimensions);
    assert_eq!(validate_showcase_png(b"GIF89a"), PngVerdict::NotPng);
    let mut trailing = png(10, 10, None);
    trailing.push(0);
    assert_eq!(validate_showcase_png(&trailing), PngVerdict::Incomplete);
    let full = png(10, 10, None);
    assert_eq!(validate_showcase_png(&full[..full.len() - 12]), PngVerdict::Incomplete);
}

#[test]
fn showcases_validate_against_their_images_and_repositories() {
    let manifest = ShowcaseManifest { showcase: vec![showcase("mere", 1), showcase("retinue", 2)] };
    let images = vec![
        ("showcase/mere.png".to_owned(), png(100, 100, None)),
        ("showcase/retinue.png".to_owned(), png(100, 100, None)),
    ];
    assert!(manifest.validate(&images, &authority()).is_ok());

    let broken = ShowcaseManifest { showcase: vec![showcase("mere", 1), showcase("retinue", 1), showcase("ghost", 3)] };
    let errors = broken.validate(&images[..1].to_vec(), &authority()).expect_err("broken showcases");
    assert!(errors.iter().any(|e| e == "showcase retinue has a zero or duplicate order"));
    assert!(errors.iter().any(|e| e == "showcase retinue normalized image is missing"));
    assert!(errors.iter().any(|e| e == "showcase ghost does not name a public repository"));
    let mut sorted = errors.clone();
    sorted.sort();
    assert_eq!(errors, sorted);

    let empty = ShowcaseManifest { showcase: Vec::new() };
    assert_eq!(empty.validate(&images, &authority()).unwrap_err(), vec!["showcase authority has no records".to_owned()]);
}

#[test]
fn showcases_are_ordered_and_retained_by_roster() {
    let mut manifest = ShowcaseManifest { showcase: vec![showcase("retinue", 5), showcase("gone", 1), showcase("mere", 2)] };
    let ordered = manifest.ordered();
    assert_eq!(ordered.iter().map(|s| s.repository.as_str()).collect::<Vec<_>>(), vec!["gone", "mere", "retinue"]);
    assert_eq!(manifest.for_repository("mere").unwrap().order, 2);
    manifest.retain_live_repositories(&authority());
    assert_eq!(manifest.showcase.len(), 2);
    assert!(manifest.for_repository("gone").is_none());
}
