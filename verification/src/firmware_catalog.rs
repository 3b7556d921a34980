//! The retained public Retinue package index and its exact provenance: the
//! site renders installer readiness only from the published index, whose
//! bytes must hash to the digest its source record carries.

use vstd::prelude::*;

use sha2::{Digest, Sha256};

use crate::devices::{DeviceCatalog, DeviceRecord, debug_text};
use crate::repositories::AuthorityError;
use crate::text::{blank, cat2, cat3, cat4, chars_of, contains_char, has_prefix, is_blank, starts_with, str_eq, views};

verus! {

pub const PACKAGE_INDEX_SCHEMA: &'static str = "retinue.package-index/v1";

pub const PACKAGE_INDEX_SOURCE_SCHEMA: &'static str = "mer3ly.firmware-index-source/v1";

pub const RETINUE_PACKAGE_INDEX_URL: &'static str = "https://github.com/merely-made/retinue/blob/bd71ee1886a4dea397854aa3084341b44c76b55f/firmware/packages/index.toml";

/// The published package index together with the record of where it came
/// from.
#[derive(Clone, Debug)]
pub struct FirmwareCatalog {
    pub index: PackageIndex,
    pub source: PackageIndexSource,
}

#[derive(Clone, Debug)]
pub struct PackageIndex {
    pub schema: String,
    pub publisher: String,
    pub version: String,
    pub packages: Vec<FirmwarePackage>,
}

#[derive(Clone, Debug)]
pub struct FirmwarePackage {
    pub package_id: String,
    pub manifest: String,
    pub firmware_publisher: String,
    pub state: FirmwareRecipeState,
    pub instructions_url: String,
    pub recovery_url: String,
    pub installer_receipts: Vec<String>,
    pub recovery_receipts: Vec<String>,
    pub receipt_hosts: Vec<String>,
    pub purchase_url: Option<String>,
}

#[derive(Clone, Copy, Debug, PartialEq, Eq, Structural)]
pub enum FirmwareRecipeState {
    Partial,
    ProvenRecipe,
    Sellable,
}

#[derive(Clone, Debug)]
pub struct PackageIndexSource {
    pub schema: String,
    pub source_url: String,
    pub source_sha256: String,
}

/// The SHA-256 digest of `bytes`.
pub uninterp spec fn sha256_digest(bytes: Seq<u8>) -> Seq<u8>;

/// `<Sha256 as Digest>::digest`: the SHA-256 digest of `bytes`, named by
/// `sha256_digest`; a SHA-256 digest is thirty-two bytes long.
#[verifier::external_body]
pub(crate) fn sha256(bytes: &[u8]) -> (r: Vec<u8>)
    ensures
        r@ == sha256_digest(bytes@),
        r@.len() == 32,
{
    Sha256::digest(bytes).to_vec()
}

/// The lowercase hexadecimal digit for `d < 16`.
pub open spec fn hex_digit(d: nat) -> char {
    if d < 10 {
        ((d + 48) as u32) as char
    } else {
        ((d + 87) as u32) as char
    }
}

/// Lowercase hexadecimal, two digits per byte, as `{:x}` writes a digest.
pub open spec fn hex_text(bytes: Seq<u8>) -> Seq<char>
    decreases bytes.len(),
{
    if bytes.len() == 0 {
        Seq::empty()
    } else {
        hex_text(bytes.drop_last()) + seq![hex_digit((bytes.last() / 16) as nat), hex_digit((bytes.last() % 16) as nat)]
    }
}

fn hex_char(d: u8) -> (c: char)
    requires
        d < 16,
    ensures
        c == hex_digit(d as nat),
{
    if d < 10 {
        crate::text::char_from_code((d + 48) as u32)
    } else {
        crate::text::char_from_code((d + 87) as u32)
    }
}

/// Lowercase hexadecimal of `bytes`.
pub fn lower_hex(bytes: &[u8]) -> (r: String)
    ensures
        r@ == hex_text(bytes@),
{
    let mut out = String::new();
    let mut i: usize = 0;
    while i < bytes.len()
        invariant
            i <= bytes@.len(),
            out@ == hex_text(bytes@.take(i as int)),
        decreases bytes@.len() - i,
    {
        let b = bytes[i];
        proof {
            assert(bytes@.take(i + 1).drop_last() =~= bytes@.take(i as int));
            assert(bytes@.take(i + 1).last() == b);
        }
        out.push(hex_char(b / 16));
        out.push(hex_char(b % 16));
        proof {
            assert(out@ =~= hex_text(bytes@.take(i + 1)));
        }
        i = i + 1;
    }
    assert(bytes@.take(bytes@.len() as int) =~= bytes@);
    out
}

/// Hexadecimal text has two digits per byte.
pub proof fn lemma_hex_len(bytes: Seq<u8>)
    ensures
        hex_text(bytes).len() == 2 * bytes.len(),
    decreases bytes.len(),
{
    if bytes.len() > 0 {
        lemma_hex_len(bytes.drop_last());
    }
}

/// The lowercase hexadecimal SHA-256 digest of `bytes`: sixty-four digits.
pub fn sha256_hex(bytes: &[u8]) -> (r: String)
    ensures
        r@ == hex_text(sha256_digest(bytes@)),
        r@.len() == 64,
{
    let digest = sha256(bytes);
    proof {
        lemma_hex_len(digest@);
    }
    lower_hex(digest.as_slice())
}

/// A credential-free HTTPS URL with something after the scheme.
pub open spec fn firmware_url_ok(v: Seq<char>) -> bool {
    has_prefix(v, "https://"@) && v.len() > 8 && !v.contains('@')
}

/// The hosts a receipt may come from.
pub open spec fn receipt_host_ok(h: Seq<char>) -> bool {
    ||| h == "windows-x86_64"@
    ||| h == "macos-x86_64"@
    ||| h == "macos-aarch64"@
    ||| h == "linux-x86_64"@
    ||| h == "linux-aarch64"@
}

/// Installer, recovery and host receipts are all present, every receipt is
/// an HTTPS URL, and the hosts are supported and distinct.
pub open spec fn receipts_ok(p: FirmwarePackage) -> bool {
    let hosts = views(p.receipt_hosts@);
    &&& p.installer_receipts@.len() > 0
    &&& p.recovery_receipts@.len() > 0
    &&& hosts.len() > 0
    &&& forall|k: int| 0 <= k < p.installer_receipts@.len() ==> firmware_url_ok((#[trigger] p.installer_receipts@[k])@)
    &&& forall|k: int| 0 <= k < p.recovery_receipts@.len() ==> firmware_url_ok((#[trigger] p.recovery_receipts@[k])@)
    &&& forall|k: int| 0 <= k < hosts.len() ==> receipt_host_ok(#[trigger] hosts[k])
    &&& crate::text::distinct_upto(hosts, hosts.len() as int)
}

/// One package satisfies the rules of its recipe state.
pub open spec fn package_ok(p: FirmwarePackage) -> bool {
    &&& !is_blank(p.package_id@)
    &&& !is_blank(p.manifest@)
    &&& !is_blank(p.firmware_publisher@)
    &&& firmware_url_ok(p.instructions_url@)
    &&& firmware_url_ok(p.recovery_url@)
    &&& match p.state {
        FirmwareRecipeState::Partial => p.installer_receipts@.len() == 0 && p.recovery_receipts@.len() == 0
            && p.receipt_hosts@.len() == 0 && p.purchase_url is None,
        FirmwareRecipeState::ProvenRecipe => receipts_ok(p) && p.purchase_url is None,
        FirmwareRecipeState::Sellable => receipts_ok(p) && p.purchase_url is Some && firmware_url_ok(p.purchase_url->0@),
    }
}

pub open spec fn package_ids(ps: Seq<FirmwarePackage>) -> Seq<Seq<char>> {
    ps.map_values(|p: FirmwarePackage| p.package_id@)
}

/// The digest the source record carries matches the retained bytes.
pub open spec fn digest_matches(c: FirmwareCatalog, index_bytes: Seq<u8>) -> bool {
    c.source.source_sha256@ == hex_text(sha256_digest(index_bytes))
}

/// The catalog is the published index, retained byte for byte, and every
/// package satisfies its rules.
pub open spec fn firmware_valid(c: FirmwareCatalog, index_bytes: Seq<u8>) -> bool {
    let ps = c.index.packages@;
    &&& c.source.schema@ == PACKAGE_INDEX_SOURCE_SCHEMA@
    &&& c.source.source_url@ == RETINUE_PACKAGE_INDEX_URL@
    &&& digest_matches(c, index_bytes)
    &&& c.index.schema@ == PACKAGE_INDEX_SCHEMA@
    &&& !is_blank(c.index.publisher@)
    &&& !is_blank(c.index.version@)
    &&& ps.len() > 0
    &&& crate::text::distinct_upto(package_ids(ps), ps.len() as int)
    &&& forall|k: int| 0 <= k < ps.len() ==> package_ok(#[trigger] ps[k])
}

/// `format!("{:?}")` of a string, through the device catalog's wrapper.
fn quoted(value: &str) -> (r: String)
    ensures
        r@ == crate::devices::debug_text(value@),
{
    crate::devices::debug_quoted(value)
}

/// The first of two problems, if any.
pub open spec fn or_else(a: Option<Seq<char>>, b: Option<Seq<char>>) -> Option<Seq<char>> {
    if a is Some {
        a
    } else {
        b
    }
}

/// What is wrong with a URL the index names, if anything.
pub open spec fn url_problem(name: Seq<char>, v: Seq<char>) -> Option<Seq<char>> {
    if firmware_url_ok(v) {
        None
    } else {
        Some("firmware "@ + name + " must be a credential-free HTTPS URL"@)
    }
}

/// The first problem among the first `n` receipt URLs.
pub open spec fn receipts_problem(name: Seq<char>, rs: Seq<String>, n: int) -> Option<Seq<char>>
    decreases n,
{
    if n <= 0 {
        None
    } else {
        or_else(receipts_problem(name, rs, n - 1), url_problem(name, rs[n - 1]@))
    }
}

/// The first problem among the first `n` receipt hosts of a package.
pub open spec fn hosts_problem(id: Seq<char>, hosts: Seq<Seq<char>>, n: int) -> Option<Seq<char>>
    decreases n,
{
    if n <= 0 {
        None
    } else {
        or_else(
            hosts_problem(id, hosts, n - 1),
            if !receipt_host_ok(hosts[n - 1]) {
                Some("firmware package "@ + debug_text(id) + " has unsupported receipt host "@ + debug_text(hosts[n - 1]))
            } else if hosts.take(n - 1).contains(hosts[n - 1]) {
                Some("firmware package "@ + debug_text(id) + " repeats receipt host "@ + debug_text(hosts[n - 1]))
            } else {
                None
            },
        )
    }
}

/// The first problem with a package's receipt evidence, if any.
pub open spec fn evidence_problem(p: FirmwarePackage) -> Option<Seq<char>> {
    if p.installer_receipts@.len() == 0 || p.recovery_receipts@.len() == 0 || p.receipt_hosts@.len() == 0 {
        Some("firmware package "@ + debug_text(p.package_id@) + " needs installer, recovery, and host receipt evidence"@)
    } else {
        or_else(
            receipts_problem("receipt"@, p.installer_receipts@, p.installer_receipts@.len() as int),
            or_else(
                receipts_problem("receipt"@, p.recovery_receipts@, p.recovery_receipts@.len() as int),
                hosts_problem(p.package_id@, views(p.receipt_hosts@), p.receipt_hosts@.len() as int),
            ),
        )
    }
}

/// The first problem with a package, if any.
pub open spec fn package_problem(p: FirmwarePackage) -> Option<Seq<char>> {
    let id = debug_text(p.package_id@);
    if is_blank(p.package_id@) {
        Some("firmware package package_id must not be empty"@)
    } else if is_blank(p.manifest@) {
        Some("firmware package manifest must not be empty"@)
    } else if is_blank(p.firmware_publisher@) {
        Some("firmware package firmware_publisher must not be empty"@)
    } else if !firmware_url_ok(p.instructions_url@) {
        url_problem("instructions_url"@, p.instructions_url@)
    } else if !firmware_url_ok(p.recovery_url@) {
        url_problem("recovery_url"@, p.recovery_url@)
    } else {
        match p.state {
            FirmwareRecipeState::Partial => if p.installer_receipts@.len() != 0 || p.recovery_receipts@.len() != 0
                || p.receipt_hosts@.len() != 0 || p.purchase_url is Some {
                Some("partial firmware package "@ + id + " cannot claim receipt or purchase evidence"@)
            } else {
                None
            },
            FirmwareRecipeState::ProvenRecipe => or_else(
                evidence_problem(p),
                if p.purchase_url is Some {
                    Some("proven firmware package "@ + id + " cannot have a purchase URL"@)
                } else {
                    None
                },
            ),
            FirmwareRecipeState::Sellable => or_else(
                evidence_problem(p),
                match p.purchase_url {
                    None => Some("sellable firmware package "@ + id + " needs a purchase URL"@),
                    Some(u) => url_problem("purchase_url"@, u@),
                },
            ),
        }
    }
}

fn validate_https_url(name: &str, value: &str) -> (r: Result<(), AuthorityError>)
    ensures
        r is Ok <==> firmware_url_ok(value@),
        match r {
            Ok(_) => url_problem(name@, value@) is None,
            Err(e) => url_problem(name@, value@) == Some(e.message()),
        },
{
    let cs = chars_of(value);
    if !starts_with(value, "https://") || cs.len() <= 8 || contains_char(value, '@') {
        return Err(AuthorityError::from_message(cat3("firmware ", name, " must be a credential-free HTTPS URL")));
    }
    Ok(())
}

/// Whether `h` is one of the supported receipt hosts.
fn supported_host(h: &str) -> (r: bool)
    ensures
        r == receipt_host_ok(h@),
{
    str_eq(h, "windows-x86_64") || str_eq(h, "macos-x86_64") || str_eq(h, "macos-aarch64") || str_eq(h, "linux-x86_64")
        || str_eq(h, "linux-aarch64")
}

/// Checks a list of receipt URLs, stopping at the first problem.
fn validate_receipt_urls(rs: &Vec<String>) -> (r: Result<(), AuthorityError>)
    ensures
        (r is Ok) <==> (forall|k: int| 0 <= k < rs@.len() ==> firmware_url_ok((#[trigger] rs@[k])@)),
        match r {
            Ok(_) => receipts_problem("receipt"@, rs@, rs@.len() as int) is None,
            Err(e) => receipts_problem("receipt"@, rs@, rs@.len() as int) == Some(e.message()),
        },
{
    let mut i: usize = 0;
    while i < rs.len()
        invariant
            i <= rs@.len(),
            forall|k: int| 0 <= k < i ==> firmware_url_ok((#[trigger] rs@[k])@),
            receipts_problem("receipt"@, rs@, i as int) is None,
        decreases rs@.len() - i,
    {
        let checked = validate_https_url("receipt", rs[i].as_str());
        if checked.is_err() {
            proof {
                lemma_receipts_problem_stays("receipt"@, rs@, i + 1, rs@.len() as int);
            }
            return checked;
        }
        i = i + 1;
    }
    Ok(())
}

/// Once a problem is found among the first `a` items, it is the first
/// problem among any longer prefix.
proof fn lemma_receipts_problem_stays(name: Seq<char>, rs: Seq<String>, a: int, b: int)
    requires
        0 <= a <= b,
        receipts_problem(name, rs, a) is Some,
    ensures
        receipts_problem(name, rs, b) == receipts_problem(name, rs, a),
    decreases b - a,
{
    if a < b {
        lemma_receipts_problem_stays(name, rs, a, b - 1);
    }
}

/// Once a problem is found among the first `a` hosts, it is the first
/// problem among any longer prefix.
proof fn lemma_hosts_problem_stays(id: Seq<char>, hosts: Seq<Seq<char>>, a: int, b: int)
    requires
        0 <= a <= b,
        hosts_problem(id, hosts, a) is Some,
    ensures
        hosts_problem(id, hosts, b) == hosts_problem(id, hosts, a),
    decreases b - a,
{
    if a < b {
        lemma_hosts_problem_stays(id, hosts, a, b - 1);
    }
}

fn validate_receipt_evidence(package: &FirmwarePackage) -> (r: Result<(), AuthorityError>)
    ensures
        r is Ok <==> receipts_ok(*package),
        match r {
            Ok(_) => evidence_problem(*package) is None,
            Err(e) => evidence_problem(*package) == Some(e.message()),
        },
{
    if package.installer_receipts.len() == 0 || package.recovery_receipts.len() == 0 || package.receipt_hosts.len() == 0 {
        return Err(
            AuthorityError::from_message(
                cat3("firmware package ", quoted(package.package_id.as_str()).as_str(), " needs installer, recovery, and host receipt evidence"),
            ),
        );
    }
    let installer = validate_receipt_urls(&package.installer_receipts);
    if installer.is_err() {
        return installer;
    }
    let recovery = validate_receipt_urls(&package.recovery_receipts);
    if recovery.is_err() {
        return recovery;
    }
    let ghost hosts = views(package.receipt_hosts@);
    let ghost id = package.package_id@;
    let mut seen: Vec<String> = Vec::new();
    let mut h: usize = 0;
    while h < package.receipt_hosts.len()
        invariant
            h <= package.receipt_hosts@.len(),
            hosts == views(package.receipt_hosts@),
            id == package.package_id@,
            !(package.installer_receipts@.len() == 0 || package.recovery_receipts@.len() == 0
                || package.receipt_hosts@.len() == 0),
            receipts_problem("receipt"@, package.installer_receipts@, package.installer_receipts@.len() as int) is None,
            receipts_problem("receipt"@, package.recovery_receipts@, package.recovery_receipts@.len() as int) is None,
            forall|k: int| 0 <= k < package.installer_receipts@.len() ==> firmware_url_ok((#[trigger] package.installer_receipts@[k])@),
            forall|k: int| 0 <= k < package.recovery_receipts@.len() ==> firmware_url_ok((#[trigger] package.recovery_receipts@[k])@),
            forall|k: int| 0 <= k < h ==> receipt_host_ok(#[trigger] hosts[k]),
            crate::text::distinct_upto(hosts, h as int),
            hosts_problem(id, hosts, h as int) is None,
            forall|y: Seq<char>| #[trigger] views(seen@).contains(y) <==> exists|k: int| 0 <= k < h && hosts[k] == y,
        decreases package.receipt_hosts@.len() - h,
    {
        let host = package.receipt_hosts[h].as_str();
        assert(hosts[h as int] == host@);
        if !supported_host(host) {
            proof {
                lemma_hosts_problem_stays(id, hosts, h + 1, hosts.len() as int);
            }
            return Err(
                AuthorityError::from_message(
                    cat4(
                        "firmware package ",
                        quoted(package.package_id.as_str()).as_str(),
                        " has unsupported receipt host ",
                        quoted(host).as_str(),
                    ),
                ),
            );
        }
        let dup = crate::text::remember(&mut seen, host);
        proof {
            assert(dup == hosts.take(h as int).contains(hosts[h as int])) by {
                if dup {
                    let k = choose|k: int| 0 <= k < h && hosts[k] == hosts[h as int];
                    assert(hosts.take(h as int)[k] == hosts[h as int]);
                }
            }
        }
        if dup {
            proof {
                lemma_hosts_problem_stays(id, hosts, h + 1, hosts.len() as int);
            }
            return Err(
                AuthorityError::from_message(
                    cat4(
                        "firmware package ",
                        quoted(package.package_id.as_str()).as_str(),
                        " repeats receipt host ",
                        quoted(host).as_str(),
                    ),
                ),
            );
        }
        proof {
            assert forall|y: Seq<char>| #[trigger] views(seen@).contains(y) <==> exists|k: int| 0 <= k < h + 1 && hosts[k] == y by {
                if y == hosts[h as int] {
                    assert(exists|k: int| 0 <= k < h + 1 && hosts[k] == y);
                }
            }
        }
        h = h + 1;
    }
    Ok(())
}

fn validate_package(package: &FirmwarePackage) -> (r: Result<(), AuthorityError>)
    ensures
        r is Ok <==> package_ok(*package),
        match r {
            Ok(_) => package_problem(*package) is None,
            Err(e) => package_problem(*package) == Some(e.message()),
        },
{
    if blank(package.package_id.as_str()) {
        return Err(AuthorityError::from_message(String::from_str("firmware package package_id must not be empty")));
    }
    if blank(package.manifest.as_str()) {
        return Err(AuthorityError::from_message(String::from_str("firmware package manifest must not be empty")));
    }
    if blank(package.firmware_publisher.as_str()) {
        return Err(AuthorityError::from_message(String::from_str("firmware package firmware_publisher must not be empty")));
    }
    let instructions = validate_https_url("instructions_url", package.instructions_url.as_str());
    if instructions.is_err() {
        return instructions;
    }
    let recovery = validate_https_url("recovery_url", package.recovery_url.as_str());
    if recovery.is_err() {
        return recovery;
    }
    match package.state {
        FirmwareRecipeState::Partial => {
            if package.installer_receipts.len() != 0 || package.recovery_receipts.len() != 0 || package.receipt_hosts.len() != 0
                || package.purchase_url.is_some() {
                return Err(
                    AuthorityError::from_message(
                        cat3("partial firmware package ", quoted(package.package_id.as_str()).as_str(), " cannot claim receipt or purchase evidence"),
                    ),
                );
            }
        },
        FirmwareRecipeState::ProvenRecipe => {
            let evidence = validate_receipt_evidence(package);
            if evidence.is_err() {
                return evidence;
            }
            if package.purchase_url.is_some() {
                return Err(
                    AuthorityError::from_message(
                        cat3("proven firmware package ", quoted(package.package_id.as_str()).as_str(), " cannot have a purchase URL"),
                    ),
                );
            }
        },
        FirmwareRecipeState::Sellable => {
            let evidence = validate_receipt_evidence(package);
            if evidence.is_err() {
                return evidence;
            }
            match &package.purchase_url {
                None => {
                    return Err(
                        AuthorityError::from_message(
                            cat3("sellable firmware package ", quoted(package.package_id.as_str()).as_str(), " needs a purchase URL"),
                        ),
                    );
                },
                Some(url) => {
                    let checked = validate_https_url("purchase_url", url.as_str());
                    if checked.is_err() {
                        return checked;
                    }
                },
            }
        },
    }
    Ok(())
}

/// Package `k` is the first in `ps` with the given id.
pub open spec fn first_package(ps: Seq<FirmwarePackage>, id: Seq<char>, k: int) -> bool {
    &&& 0 <= k < ps.len()
    &&& ps[k].package_id@ == id
    &&& forall|j: int| 0 <= j < k ==> (#[trigger] ps[j]).package_id@ != id
}

/// Some package of `ps` has the given id.
pub open spec fn has_package(ps: Seq<FirmwarePackage>, id: Seq<char>) -> bool {
    exists|k: int| 0 <= k < ps.len() && (#[trigger] ps[k]).package_id@ == id
}

/// Every flash recipe of every device names a package of the index.
pub open spec fn recipes_known(ps: Seq<FirmwarePackage>, ds: Seq<DeviceRecord>) -> bool {
    forall|i: int, j: int| 0 <= i < ds.len() && 0 <= j < ds[i].flash_recipe@.len() ==> has_package(
        ps,
        (#[trigger] ds[i].flash_recipe@[j]).package_id@,
    )
}

impl FirmwareCatalog {
    /// Builds the catalog from the parsed index, its source record and the
    /// retained index bytes, and accepts it only when it is valid.
    pub fn from_parts(index: PackageIndex, source: PackageIndexSource, index_bytes: &[u8]) -> (r: Result<
        FirmwareCatalog,
        AuthorityError,
    >)
        ensures
            r is Ok <==> firmware_valid(FirmwareCatalog { index, source }, index_bytes@),
            r matches Ok(c) ==> c == (FirmwareCatalog { index, source }),
            r matches Err(e) ==> firmware_problem(FirmwareCatalog { index, source }, index_bytes@) == Some(e.message()),
    {
        let catalog = FirmwareCatalog { index, source };
        match catalog.validate(index_bytes) {
            Ok(()) => Ok(catalog),
            Err(e) => Err(e),
        }
    }

    /// The first package with the given id, if any.
    pub fn package(&self, package_id: &str) -> (r: Option<&FirmwarePackage>)
        ensures
            match r {
                Some(p) => exists|k: int| first_package(self.index.packages@, package_id@, k) && *p == #[trigger] self.index.packages@[k],
                None => !has_package(self.index.packages@, package_id@),
            },
    {
        let ps = &self.index.packages;
        let mut i: usize = 0;
        while i < ps.len()
            invariant
                i <= ps@.len(),
                ps == self.index.packages,
                forall|j: int| 0 <= j < i ==> (#[trigger] ps@[j]).package_id@ != package_id@,
            decreases ps@.len() - i,
        {
            if str_eq(ps[i].package_id.as_str(), package_id) {
                assert(first_package(self.index.packages@, package_id@, i as int));
                return Some(&ps[i]);
            }
            i = i + 1;
        }
        None
    }

    /// Where the retained index was published.
    pub fn source_url(&self) -> (r: &str)
        ensures
            r@ == self.source.source_url@,
    {
        self.source.source_url.as_str()
    }

    /// Checks that every flash recipe of every device names a package of the
    /// index; otherwise reports the first device and recipe, in catalog order,
    /// whose package is unknown.
    pub fn validate_device_recipes(&self, devices: &DeviceCatalog) -> (r: Result<(), AuthorityError>)
        ensures
            r is Ok <==> recipes_known(self.index.packages@, devices.device@),
            r matches Err(e) ==> exists|i: int, j: int|
                0 <= i < devices.device@.len() && 0 <= j < devices.device@[i].flash_recipe@.len() && !has_package(
                    self.index.packages@,
                    (#[trigger] devices.device@[i].flash_recipe@[j]).package_id@,
                ) && recipes_known(self.index.packages@, devices.device@.take(i))
                && (forall|b: int| 0 <= b < j ==> has_package(self.index.packages@, (#[trigger] devices.device@[i].flash_recipe@[b]).package_id@))
                && e.message() == "device "@ + devices.device@[i].id@ + " names unknown Retinue package "@
                    + crate::devices::debug_text(devices.device@[i].flash_recipe@[j].package_id@),
    {
        let ds = &devices.device;
        let ps = &self.index.packages;
        let mut i: usize = 0;
        while i < ds.len()
            invariant
                i <= ds@.len(),
                ds == devices.device,
                ps == self.index.packages,
                forall|a: int, b: int| 0 <= a < i && 0 <= b < ds@[a].flash_recipe@.len() ==> has_package(
                    ps@,
                    (#[trigger] ds@[a].flash_recipe@[b]).package_id@,
                ),
            decreases ds@.len() - i,
        {
            let d = &ds[i];
            let mut j: usize = 0;
            while j < d.flash_recipe.len()
                invariant
                    j <= d.flash_recipe@.len(),
                    i < ds@.len(),
                    ds == devices.device,
                    *d == ds@[i as int],
                    ps == self.index.packages,
                    forall|b: int| 0 <= b < j ==> has_package(ps@, (#[trigger] d.flash_recipe@[b]).package_id@),
                    forall|a: int, b: int| 0 <= a < i && 0 <= b < ds@[a].flash_recipe@.len() ==> has_package(
                        ps@,
                        (#[trigger] ds@[a].flash_recipe@[b]).package_id@,
                    ),
                decreases d.flash_recipe@.len() - j,
            {
                let id = d.flash_recipe[j].package_id.as_str();
                if self.package(id).is_none() {
                    let e = AuthorityError::from_message(cat4("device ", d.id.as_str(), " names unknown Retinue package ", quoted(id).as_str()));
                    assert(ds@[i as int].flash_recipe@[j as int].package_id@ == id@);
                    assert(!has_package(self.index.packages@, devices.device@[i as int].flash_recipe@[j as int].package_id@));
                    assert forall|a: int, b: int| 0 <= a < ds@.take(i as int).len() && 0 <= b < ds@.take(i as int)[a].flash_recipe@.len()
                        implies has_package(ps@, (#[trigger] ds@.take(i as int)[a].flash_recipe@[b]).package_id@) by {
                        assert(ds@.take(i as int)[a] == ds@[a]);
                    }
                    assert(recipes_known(ps@, ds@.take(i as int)));
                    return Err(e);
                }
                j = j + 1;
            }
            proof {
                assert forall|a: int, b: int| 0 <= a < i + 1 && 0 <= b < ds@[a].flash_recipe@.len() implies has_package(
                    ps@,
                    (#[trigger] ds@[a].flash_recipe@[b]).package_id@,
                ) by {
                    if a == i {
                        assert(d.flash_recipe@[b] == ds@[a].flash_recipe@[b]);
                    }
                }
            }
            i = i + 1;
        }
        Ok(())
    }

    /// Checks the catalog against the retained index bytes: the source
    /// record, the digest of the bytes, the index header, and every package.
    /// The result is `Ok` exactly when the catalog is valid; the first
    /// violation found is reported.
    pub fn validate(&self, index_bytes: &[u8]) -> (r: Result<(), AuthorityError>)
        ensures
            r is Ok <==> firmware_valid(*self, index_bytes@),
            match r {
                Ok(_) => firmware_problem(*self, index_bytes@) is None,
                Err(e) => firmware_problem(*self, index_bytes@) == Some(e.message()),
            },
    {
        if !str_eq(self.source.schema.as_str(), PACKAGE_INDEX_SOURCE_SCHEMA) {
            return Err(
                AuthorityError::from_message(
                    cat4("firmware index source schema must be ", PACKAGE_INDEX_SOURCE_SCHEMA, ", got ", self.source.schema.as_str()),
                ),
            );
        }
        if !str_eq(self.source.source_url.as_str(), RETINUE_PACKAGE_INDEX_URL) {
            return Err(AuthorityError::from_message(cat2("firmware index source_url must be ", RETINUE_PACKAGE_INDEX_URL)));
        }
        let actual = sha256_hex(index_bytes);
        if !str_eq(self.source.source_sha256.as_str(), actual.as_str()) {
            return Err(
                AuthorityError::from_message(
                    cat4(
                        "firmware index digest mismatch: source records ",
                        self.source.source_sha256.as_str(),
                        ", retained artifact is ",
                        actual.as_str(),
                    ),
                ),
            );
        }
        if !str_eq(self.index.schema.as_str(), PACKAGE_INDEX_SCHEMA) {
            return Err(
                AuthorityError::from_message(cat4("firmware index schema must be ", PACKAGE_INDEX_SCHEMA, ", got ", self.index.schema.as_str())),
            );
        }
        if blank(self.index.publisher.as_str()) {
            return Err(AuthorityError::from_message(String::from_str("firmware index publisher must not be empty")));
        }
        if blank(self.index.version.as_str()) {
            return Err(AuthorityError::from_message(String::from_str("firmware index version must not be empty")));
        }
        let ps = &self.index.packages;
        if ps.len() == 0 {
            return Err(AuthorityError::from_message(String::from_str("firmware index must list at least one package")));
        }
        let ghost ids = package_ids(ps@);
        let mut seen: Vec<String> = Vec::new();
        let mut i: usize = 0;
        while i < ps.len()
            invariant
                i <= ps@.len(),
                ps == self.index.packages,
                ids == package_ids(ps@),
                digest_matches(*self, index_bytes@),
                firmware_problem(*self, index_bytes@) == packages_problem(ps@, ps@.len() as int),
                packages_problem(ps@, i as int) is None,
                forall|k: int| 0 <= k < i ==> package_ok(#[trigger] ps@[k]),
                crate::text::distinct_upto(ids, i as int),
                forall|y: Seq<char>| #[trigger] views(seen@).contains(y) <==> exists|k: int| 0 <= k < i && ids[k] == y,
            decreases ps@.len() - i,
        {
            let p = &ps[i];
            assert(ids[i as int] == p.package_id@);
            let dup = crate::text::remember(&mut seen, p.package_id.as_str());
            proof {
                assert(dup == ids.take(i as int).contains(ids[i as int])) by {
                    if dup {
                        let k = choose|k: int| 0 <= k < i && ids[k] == ids[i as int];
                        assert(ids.take(i as int)[k] == ids[i as int]);
                    }
                }
            }
            if dup {
                proof {
                    lemma_packages_problem_stays(ps@, i + 1, ps@.len() as int);
                }
                return Err(AuthorityError::from_message(cat2("firmware index repeats package ", quoted(p.package_id.as_str()).as_str())));
            }
            let checked = validate_package(p);
            if checked.is_err() {
                proof {
                    lemma_packages_problem_stays(ps@, i + 1, ps@.len() as int);
                }
                return checked;
            }
            proof {
                assert forall|y: Seq<char>| #[trigger] views(seen@).contains(y) <==> exists|k: int| 0 <= k < i + 1 && ids[k] == y by {
                    if y == ids[i as int] {
                        assert(exists|k: int| 0 <= k < i + 1 && ids[k] == y);
                    }
                }
            }
            i = i + 1;
        }
        Ok(())
    }
}

/// The first problem among the first `n` packages of the index.
pub open spec fn packages_problem(ps: Seq<FirmwarePackage>, n: int) -> Option<Seq<char>>
    decreases n,
{
    if n <= 0 {
        None
    } else {
        or_else(
            packages_problem(ps, n - 1),
            if package_ids(ps).take(n - 1).contains(ps[n - 1].package_id@) {
                Some("firmware index repeats package "@ + debug_text(ps[n - 1].package_id@))
            } else {
                package_problem(ps[n - 1])
            },
        )
    }
}

/// Once a problem is found among the first `a` packages, it is the first
/// problem among any longer prefix.
proof fn lemma_packages_problem_stays(ps: Seq<FirmwarePackage>, a: int, b: int)
    requires
        0 <= a <= b,
        packages_problem(ps, a) is Some,
    ensures
        packages_problem(ps, b) == packages_problem(ps, a),
    decreases b - a,
{
    if a < b {
        lemma_packages_problem_stays(ps, a, b - 1);
    }
}

/// The first problem with the catalog, in the order the checks run, if any.
pub open spec fn firmware_problem(c: FirmwareCatalog, index_bytes: Seq<u8>) -> Option<Seq<char>> {
    let ps = c.index.packages@;
    if c.source.schema@ != PACKAGE_INDEX_SOURCE_SCHEMA@ {
        Some("firmware index source schema must be "@ + PACKAGE_INDEX_SOURCE_SCHEMA@ + ", got "@ + c.source.schema@)
    } else if c.source.source_url@ != RETINUE_PACKAGE_INDEX_URL@ {
        Some("firmware index source_url must be "@ + RETINUE_PACKAGE_INDEX_URL@)
    } else if !digest_matches(c, index_bytes) {
        Some(
            "firmware index digest mismatch: source records "@ + c.source.source_sha256@ + ", retained artifact is "@ + hex_text(
                sha256_digest(index_bytes),
            ),
        )
    } else if c.index.schema@ != PACKAGE_INDEX_SCHEMA@ {
        Some("firmware index schema must be "@ + PACKAGE_INDEX_SCHEMA@ + ", got "@ + c.index.schema@)
    } else if is_blank(c.index.publisher@) {
        Some("firmware index publisher must not be empty"@)
    } else if is_blank(c.index.version@) {
        Some("firmware index version must not be empty"@)
    } else if ps.len() == 0 {
        Some("firmware index must list at least one package"@)
    } else {
        packages_problem(ps, ps.len() as int)
    }
}

impl FirmwareRecipeState {
    pub fn label(self) -> (s: &'static str)
        ensures
            s@ == match self {
                FirmwareRecipeState::Partial => "partial recipe"@,
                FirmwareRecipeState::ProvenRecipe => "proven recipe"@,
                FirmwareRecipeState::Sellable => "sellable firmware recipe"@,
            },
    {
        match self {
            FirmwareRecipeState::Partial => "partial recipe",
            FirmwareRecipeState::ProvenRecipe => "proven recipe",
            FirmwareRecipeState::Sellable => "sellable firmware recipe",
        }
    }
}

} // verus!
