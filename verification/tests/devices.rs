use mer3ly_site::devices::{
    AuthorizationRecord, AuthorizationState, DeviceCatalog, DeviceEvidence, DeviceRecord, DeviceStatus, EvidenceState,
    FlashRecipe, NetworkSupport, NetworkSupportState, OpenRequirement, SaleRecord, SaleState,
};

fn bench_radio() -> DeviceRecord {
    DeviceRecord {
        id: "bench-radio".to_owned(),
        order: 1,
        name: "Bench radio".to_owned(),
        role: "A radio for bench work".to_owned(),
        summary: "A checked development specimen.".to_owned(),
        status: DeviceStatus::DevelopmentSpecimen,
        form: "desktop".to_owned(),
        board: "Example board".to_owned(),
        processor: "Example processor".to_owned(),
        radio: "Example radio".to_owned(),
        interaction: "One button".to_owned(),
        power: "USB bench power".to_owned(),
        antenna: "Open".to_owned(),
        enclosure: "Open".to_owned(),
        recipe_state: "Incomplete".to_owned(),
        source_repository: "https://github.com/merely-made/retinue".to_owned(),
        source_document: "firmware/example/README.md".to_owned(),
        network_support: vec![NetworkSupport {
            name: "Reticulum".to_owned(),
            state: NetworkSupportState::Demonstrated,
            note: "Bench proof only.".to_owned(),
        }],
        flash_recipe: vec![FlashRecipe { package_id: "retinue.test".to_owned(), name: "Retinue".to_owned() }],
        authorization: AuthorizationRecord {
            state: AuthorizationState::Open,
            device: "Grant review open".to_owned(),
            antenna: "Antenna review open".to_owned(),
            operating_envelope: "Operating envelope review open".to_owned(),
            note: "Authorization must be reviewed before sale.".to_owned(),
        },
        sale: SaleRecord { state: SaleState::NotOffered, note: "Development specimen only.".to_owned(), purchase_url: None },
        evidence: vec![DeviceEvidence {
            label: "Radio carriage".to_owned(),
            state: EvidenceState::Partial,
            note: "One hop only.".to_owned(),
        }],
        open_requirement: vec![OpenRequirement { label: "Enclosure".to_owned(), note: "Needs a checked print.".to_owned() }],
    }
}

fn catalog(device: DeviceRecord) -> DeviceCatalog {
    DeviceCatalog { schema: "mer3ly.device-catalog/v2".to_owned(), device: vec![device] }
}

fn failure(catalog: &DeviceCatalog) -> String {
    let errors = catalog.validate().expect_err("catalog must fail");
    format!("device catalog validation failed:\n{}", errors.join("\n"))
}

#[test]
fn valid_manifest_parses() {
    let catalog = catalog(bench_radio());
    assert!(catalog.validate().is_ok());
    assert_eq!(catalog.device.len(), 1);
}

#[test]
fn development_specimen_rejects_purchase_link() {
    let mut device = bench_radio();
    device.sale.purchase_url = Some("https://example.com/buy".to_owned());
    let error = failure(&catalog(device));
    assert!(error.contains("cannot have a purchase_url"));
}

#[test]
fn sellable_record_requires_purchase_link() {
    let mut device = bench_radio();
    device.status = DeviceStatus::Sellable;
    device.authorization.state = AuthorizationState::Reviewed;
    device.sale.state = SaleState::Available;
    device.open_requirement.clear();
    let error = failure(&catalog(device));
    assert!(error.contains("requires a purchase_url"));
}

#[test]
fn local_receipt_path_is_rejected() {
    let mut device = bench_radio();
    device.source_document = "C:/Users/person/private.txt".to_owned();
    let error = failure(&catalog(device));
    assert!(error.contains("private marker"));
    assert!(error.contains("device bench-radio source_document contains private marker \"c:\\\\users\\\\\""));
}

#[test]
fn a_sellable_device_with_everything_reviewed_passes() {
    let mut device = bench_radio();
    device.status = DeviceStatus::Sellable;
    device.authorization.state = AuthorizationState::Reviewed;
    device.sale.state = SaleState::Available;
    device.sale.purchase_url = Some("https://mer3ly.net/buy".to_owned());
    device.open_requirement.clear();
    assert!(catalog(device).validate().is_ok());
}

#[test]
fn catalog_errors_name_every_broken_rule() {
    let mut device = bench_radio();
    device.id = "Bench_Radio".to_owned();
    device.order = 0;
    device.network_support.push(NetworkSupport {
        name: "RETICULUM".to_owned(),
        state: NetworkSupportState::UpstreamSupported,
        note: "Seen at 192.168.1.4".to_owned(),
    });
    device.flash_recipe[0].package_id = ".hidden".to_owned();
    device.source_repository = "https://github.com/someone/retinue".to_owned();
    let mut catalog = catalog(device);
    catalog.schema = "mer3ly.device-catalog/v1".to_owned();
    let errors = catalog.validate().expect_err("broken catalog");
    for expected in [
        "device catalog schema must be mer3ly.device-catalog/v2, got mer3ly.device-catalog/v1",
        "device id must be a lowercase ASCII slug, got \"Bench_Radio\"",
        "device Bench_Radio order must be positive",
        "device Bench_Radio network RETICULUM note contains private marker \"192.168.\"",
        "device Bench_Radio repeats network support RETICULUM",
        "device Bench_Radio flash recipe package must be a lowercase package id, got \".hidden\"",
        "device Bench_Radio source_repository must be the public Retinue repository",
    ] {
        assert!(errors.iter().any(|error| error == expected), "missing {expected}: {errors:?}");
    }
}

#[test]
fn duplicate_devices_are_refused_and_order_sorts_the_rest() {
    let mut second = bench_radio();
    second.id = "field-radio".to_owned();
    second.order = 1;
    let catalog = DeviceCatalog { schema: "mer3ly.device-catalog/v2".to_owned(), device: vec![bench_radio(), second.clone(), bench_radio()] };
    let errors = catalog.validate().expect_err("duplicates");
    assert!(errors.iter().any(|e| e == "duplicate device id bench-radio"));
    assert!(errors.iter().any(|e| e == "duplicate device order 1"));

    let mut first = bench_radio();
    first.order = 7;
    second.order = 2;
    let ordered_catalog = DeviceCatalog { schema: "mer3ly.device-catalog/v2".to_owned(), device: vec![first, second] };
    let ordered = ordered_catalog.ordered();
    assert_eq!(ordered[0].id, "field-radio");
    assert_eq!(ordered[1].id, "bench-radio");
    assert_eq!(ordered_catalog.by_id("bench-radio").unwrap().order, 7);
    assert!(ordered_catalog.by_id("missing").is_none());
}

#[test]
fn device_labels_are_reader_facing() {
    assert_eq!(DeviceStatus::Sellable.label(), "available to buy");
    assert_eq!(DeviceStatus::DevelopmentSpecimen.label(), "development specimen");
    assert_eq!(NetworkSupportState::UpstreamSupported.label(), "upstream-supported");
    assert_eq!(AuthorizationState::Open.label(), "authorization record open");
    assert_eq!(SaleState::NotOffered.label(), "not offered for sale");
    assert_eq!(EvidenceState::Proven.label(), "proven");
}

#[test]
fn catalog_errors_come_in_the_order_the_checks_run() {
    let mut device = bench_radio();
    device.id = "Bench_Radio".to_owned();
    device.order = 0;
    device.source_repository = "https://github.com/someone/retinue".to_owned();
    device.authorization.note = "Reviewed on localhost".to_owned();
    let errors = catalog(device).validate().expect_err("broken device");
    assert_eq!(
        errors,
        vec![
            "device id must be a lowercase ASCII slug, got \"Bench_Radio\"".to_owned(),
            "device Bench_Radio order must be positive".to_owned(),
            "device Bench_Radio source_repository must be the public Retinue repository".to_owned(),
            "device Bench_Radio authorization note contains private marker \"localhost\"".to_owned(),
        ]
    );
}
