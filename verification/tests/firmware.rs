use mer3ly_site::devices::{
    AuthorizationRecord, AuthorizationState, DeviceCatalog, DeviceEvidence, DeviceRecord, DeviceStatus, EvidenceState,
    FlashRecipe, NetworkSupport, NetworkSupportState, OpenRequirement, SaleRecord, SaleState,
};
use mer3ly_site::firmware_catalog::{
    FirmwareCatalog, FirmwarePackage, FirmwareRecipeState, PackageIndex, PackageIndexSource, lower_hex, sha256_hex,
    PACKAGE_INDEX_SCHEMA, PACKAGE_INDEX_SOURCE_SCHEMA, RETINUE_PACKAGE_INDEX_URL,
};
use sha2::{Digest, Sha256};

const INDEX_BYTES: &[u8] = b"schema = \"retinue.package-index/v1\"\npublisher = \"Merely\"\nversion = \"1\"\n";

fn proven(id: &str) -> FirmwarePackage {
    FirmwarePackage {
        package_id: id.to_owned(),
        manifest: format!("firmware/packages/{id}.toml"),
        firmware_publisher: "Merely".to_owned(),
        state: FirmwareRecipeState::ProvenRecipe,
        instructions_url: "https://github.com/merely-made/retinue/blob/main/INSTALL.md".to_owned(),
        recovery_url: "https://github.com/merely-made/retinue/blob/main/RECOVERY.md".to_owned(),
        installer_receipts: vec!["https://github.com/merely-made/retinue/blob/main/receipts/install.md".to_owned()],
        recovery_receipts: vec!["https://github.com/merely-made/retinue/blob/main/receipts/recover.md".to_owned()],
        receipt_hosts: vec!["linux-x86_64".to_owned(), "windows-x86_64".to_owned()],
        purchase_url: None,
    }
}

fn partial(id: &str) -> FirmwarePackage {
    FirmwarePackage {
        state: FirmwareRecipeState::Partial,
        installer_receipts: Vec::new(),
        recovery_receipts: Vec::new(),
        receipt_hosts: Vec::new(),
        ..proven(id)
    }
}

fn index() -> PackageIndex {
    PackageIndex {
        schema: PACKAGE_INDEX_SCHEMA.to_owned(),
        publisher: "Merely".to_owned(),
        version: "1".to_owned(),
        packages: vec![proven("retinue.heltec-v4"), proven("retinue.t114"), partial("meshtastic.heltec-mesh-node-t114")],
    }
}

fn source(bytes: &[u8]) -> PackageIndexSource {
    PackageIndexSource {
        schema: PACKAGE_INDEX_SOURCE_SCHEMA.to_owned(),
        source_url: RETINUE_PACKAGE_INDEX_URL.to_owned(),
        source_sha256: format!("{:x}", Sha256::digest(bytes)),
    }
}

fn load() -> FirmwareCatalog {
    FirmwareCatalog::from_parts(index(), source(INDEX_BYTES), INDEX_BYTES).expect("firmware catalog")
}

#[test]
fn retained_index_has_exact_provenance_and_expected_states() {
    let catalog = load();
    assert_eq!(catalog.package("retinue.heltec-v4").unwrap().state, FirmwareRecipeState::ProvenRecipe);
    assert_eq!(catalog.package("retinue.t114").unwrap().state, FirmwareRecipeState::ProvenRecipe);
    assert_eq!(
        catalog.package("meshtastic.heltec-mesh-node-t114").unwrap().state,
        FirmwareRecipeState::Partial
    );
}

#[test]
fn tampered_retained_bytes_are_refused_before_site_generation() {
    let catalog = load();
    let error = catalog
        .validate(b"changed package-index bytes")
        .expect_err("changed bytes must not reach page rendering");

    assert!(error.to_string().contains("firmware index digest mismatch"));
}

#[test]
fn the_digest_is_lowercase_hex_of_sha256() {
    let expected = format!("{:x}", Sha256::digest(b"abc"));
    assert_eq!(sha256_hex(b"abc"), expected);
    assert_eq!(sha256_hex(b"abc"), "ba7816bf8f01cfea414140de5dae2223b00361a396177a9cb410ff61f20015ad");
    assert_eq!(lower_hex(&[0, 15, 16, 255]), "000f10ff");
}

#[test]
fn firmware_catalog_reports_where_the_index_came_from() {
    assert_eq!(load().source_url(), RETINUE_PACKAGE_INDEX_URL);
    assert!(load().package("retinue.unknown").is_none());
    assert_eq!(FirmwareRecipeState::Sellable.label(), "sellable firmware recipe");
    assert_eq!(FirmwareRecipeState::Partial.label(), "partial recipe");
}

#[test]
fn firmware_rules_refuse_each_overclaim() {
    let bytes = INDEX_BYTES;
    let mut wrong_schema = source(bytes);
    wrong_schema.schema = "other".to_owned();
    assert_eq!(
        FirmwareCatalog::from_parts(index(), wrong_schema, bytes).unwrap_err().to_string(),
        "firmware index source schema must be mer3ly.firmware-index-source/v1, got other"
    );
    let mut overclaim = index();
    overclaim.packages[2].purchase_url = Some("https://example.com/buy".to_owned());
    assert_eq!(
        FirmwareCatalog::from_parts(overclaim, source(bytes), bytes).unwrap_err().to_string(),
        "partial firmware package \"meshtastic.heltec-mesh-node-t114\" cannot claim receipt or purchase evidence"
    );
    let mut unsellable = index();
    unsellable.packages[0].state = FirmwareRecipeState::Sellable;
    assert_eq!(
        FirmwareCatalog::from_parts(unsellable, source(bytes), bytes).unwrap_err().to_string(),
        "sellable firmware package \"retinue.heltec-v4\" needs a purchase URL"
    );
    let mut odd_host = index();
    odd_host.packages[1].receipt_hosts.push("plan9-mips".to_owned());
    assert_eq!(
        FirmwareCatalog::from_parts(odd_host, source(bytes), bytes).unwrap_err().to_string(),
        "firmware package \"retinue.t114\" has unsupported receipt host \"plan9-mips\""
    );
    let mut repeated = index();
    repeated.packages[1].receipt_hosts.push("linux-x86_64".to_owned());
    assert_eq!(
        FirmwareCatalog::from_parts(repeated, source(bytes), bytes).unwrap_err().to_string(),
        "firmware package \"retinue.t114\" repeats receipt host \"linux-x86_64\""
    );
    let mut credential = index();
    credential.packages[0].recovery_url = "https://user@example.com".to_owned();
    assert_eq!(
        FirmwareCatalog::from_parts(credential, source(bytes), bytes).unwrap_err().to_string(),
        "firmware recovery_url must be a credential-free HTTPS URL"
    );
    let mut twice = index();
    twice.packages.push(partial("retinue.t114"));
    assert_eq!(
        FirmwareCatalog::from_parts(twice, source(bytes), bytes).unwrap_err().to_string(),
        "firmware index repeats package \"retinue.t114\""
    );
}

fn device(recipe: &str) -> DeviceRecord {
    DeviceRecord {
        id: "bench-radio".to_owned(),
        order: 1,
        name: "Bench radio".to_owned(),
        role: "A radio for bench work".to_owned(),
        summary: "A checked development specimen.".to_owned(),
        status: DeviceStatus::DevelopmentSpecimen,
        form: "desktop".to_owned(),
        board: "Example board".to_owned(),
        processor: "Example processor".to_owned(),
        radio: "Example radio".to_owned(),
        interaction: "One button".to_owned(),
        power: "USB bench power".to_owned(),
        antenna: "Open".to_owned(),
        enclosure: "Open".to_owned(),
        recipe_state: "Incomplete".to_owned(),
        source_repository: "https://github.com/merely-made/retinue".to_owned(),
        source_document: "firmware/example/README.md".to_owned(),
        network_support: vec![NetworkSupport {
            name: "Reticulum".to_owned(),
            state: NetworkSupportState::Demonstrated,
            note: "Bench proof only.".to_owned(),
        }],
        flash_recipe: vec![FlashRecipe { package_id: recipe.to_owned(), name: "Retinue".to_owned() }],
        authorization: AuthorizationRecord {
            state: AuthorizationState::Open,
            device: "Grant review open".to_owned(),
            antenna: "Antenna review open".to_owned(),
            operating_envelope: "Operating envelope review open".to_owned(),
            note: "Authorization must be reviewed before sale.".to_owned(),
        },
        sale: SaleRecord { state: SaleState::NotOffered, note: "Development specimen only.".to_owned(), purchase_url: None },
        evidence: vec![DeviceEvidence {
            label: "Radio carriage".to_owned(),
            state: EvidenceState::Partial,
            note: "One hop only.".to_owned(),
        }],
        open_requirement: vec![OpenRequirement { label: "Enclosure".to_owned(), note: "Needs a checked print.".to_owned() }],
    }
}

#[test]
fn device_recipes_must_name_retained_packages() {
    let catalog = load();
    let devices = DeviceCatalog { schema: "mer3ly.device-catalog/v2".to_owned(), device: vec![device("retinue.t114")] };
    assert!(catalog.validate_device_recipes(&devices).is_ok());
    let unknown = DeviceCatalog { schema: "mer3ly.device-catalog/v2".to_owned(), device: vec![device("retinue.missing")] };
    assert_eq!(
        catalog.validate_device_recipes(&unknown).unwrap_err().to_string(),
        "device bench-radio names unknown Retinue package \"retinue.missing\""
    );
}

#[test]
fn the_first_unknown_recipe_in_catalog_order_is_reported() {
    let catalog = load();
    let mut first = device("retinue.t114");
    first.id = "first-radio".to_owned();
    first.flash_recipe.push(FlashRecipe { package_id: "retinue.absent-a".to_owned(), name: "Retinue A".to_owned() });
    first.flash_recipe.push(FlashRecipe { package_id: "retinue.absent-b".to_owned(), name: "Retinue B".to_owned() });
    let mut second = device("retinue.absent-c");
    second.id = "second-radio".to_owned();
    let devices = DeviceCatalog { schema: "mer3ly.device-catalog/v2".to_owned(), device: vec![first, second] };
    assert_eq!(
        catalog.validate_device_recipes(&devices).unwrap_err().to_string(),
        "device first-radio names unknown Retinue package \"retinue.absent-a\""
    );
}

#[test]
fn only_a_sellable_device_with_a_link_offers_a_purchase() {
    let mut radio = device("retinue.t114");
    assert_eq!(mer3ly_site::devices::purchase_offer(&radio), None);
    radio.sale.purchase_url = Some("https://shop.example/radio".to_owned());
    assert_eq!(mer3ly_site::devices::purchase_offer(&radio), None);
    radio.status = DeviceStatus::Sellable;
    assert_eq!(mer3ly_site::devices::purchase_offer(&radio), Some("https://shop.example/radio"));
    radio.sale.purchase_url = None;
    assert_eq!(mer3ly_site::devices::purchase_offer(&radio), None);
}
