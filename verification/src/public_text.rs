//! What the public artifact's text may not disclose, the attribute values a
//! page projects, and the sitemap's locations: the checks that read text
//! through regular expressions.

use vstd::prelude::*;

use crate::repositories::{Authority, RepositoryRecord};
use crate::text::{
    cat2, cat3, flag, flag_if, chars_occur_at, chars_of, contains_str, ends_with, has_infix, has_prefix, has_suffix, holds_string,
    is_ascii_alnum, is_ascii_alnum_char, is_ascii_digit, is_ascii_digit_char, lower, occurs_at, split_on, split_pieces,
    starts_with, str_eq, to_lower, trim_git_suffixes, views, without_git_suffixes,
};

verus! {

/// Whether the regex crate accepts the pattern.
pub uninterp spec fn regex_accepts(pattern: Seq<char>) -> bool;

/// Whether the pattern matches somewhere in the text.
pub uninterp spec fn regex_finds(pattern: Seq<char>, text: Seq<char>) -> bool;

/// The texts of the pattern's successive non-overlapping matches.
pub uninterp spec fn regex_found(pattern: Seq<char>, text: Seq<char>) -> Seq<Seq<char>>;

/// For each successive non-overlapping match, the text of every group, group
/// 0 being the whole match and a group that took no part being `None`.
pub uninterp spec fn regex_captures(pattern: Seq<char>, text: Seq<char>) -> Seq<Seq<Option<Seq<char>>>>;

/// `regex::Regex::new` on the pattern, then `Regex::is_match` on the text.
/// `None` where the regex crate refuses the pattern. The contract claims
/// only that the outcome is fixed by the pattern and the text.
#[verifier::external_body]
fn regex_is_match(pattern: &str, text: &str) -> (r: Option<bool>)
    ensures
        r is Some == regex_accepts(pattern@),
        r matches Some(b) ==> b == regex_finds(pattern@, text@),
{
    match regex::Regex::new(pattern) {
        Ok(re) => Some(re.is_match(text)),
        Err(_) => None,
    }
}

/// `regex::Regex::new` on the pattern, then the texts of
/// `Regex::find_iter` on the text, in order. `None` where the regex crate
/// refuses the pattern. The contract claims only that the outcome is fixed
/// by the pattern and the text.
#[verifier::external_body]
fn regex_find_all(pattern: &str, text: &str) -> (r: Option<Vec<String>>)
    ensures
        r is Some == regex_accepts(pattern@),
        r matches Some(v) ==> views(v@) == regex_found(pattern@, text@),
{
    match regex::Regex::new(pattern) {
        Ok(re) => Some(re.find_iter(text).map(|m| m.as_str().to_string()).collect()),
        Err(_) => None,
    }
}

/// The view of every group of every match.
pub open spec fn group_views(ms: Seq<Vec<Option<String>>>) -> Seq<Seq<Option<Seq<char>>>> {
    ms.map_values(|m: Vec<Option<String>>| m@.map_values(|g: Option<String>| opt_text(g)))
}

/// The view of an optional string.
pub open spec fn opt_text(g: Option<String>) -> Option<Seq<char>> {
    match g {
        Some(x) => Some(x@),
        None => None,
    }
}

/// `regex::Regex::new` on the pattern, then for each match of
/// `Regex::captures_iter` on the text, the texts of `Captures::iter`. `None`
/// where the regex crate refuses the pattern. The contract claims only that
/// the outcome is fixed by the pattern and the text.
#[verifier::external_body]
fn regex_capture_all(pattern: &str, text: &str) -> (r: Option<Vec<Vec<Option<String>>>>)
    ensures
        r is Some == regex_accepts(pattern@),
        r matches Some(v) ==> group_views(v@) == regex_captures(pattern@, text@),
{
    match regex::Regex::new(pattern) {
        Ok(re) => Some(
            re.captures_iter(text).map(|c| c.iter().map(|g| g.map(|m| m.as_str().to_string())).collect()).collect(),
        ),
        Err(_) => None,
    }
}

/// Group `g` of one match, where the match has it and it took part.
pub open spec fn group(m: Seq<Option<Seq<char>>>, g: int) -> Option<Seq<char>> {
    if 0 <= g < m.len() {
        m[g]
    } else {
        None
    }
}

/// The texts of group `g` over the matches, skipping matches where it took
/// no part.
pub open spec fn group_values(ms: Seq<Seq<Option<Seq<char>>>>, g: int) -> Seq<Seq<char>>
    decreases ms.len(),
{
    if ms.len() == 0 {
        Seq::empty()
    } else {
        let rest = group_values(ms.drop_last(), g);
        match group(ms.last(), g) {
            Some(x) => rest.push(x),
            None => rest,
        }
    }
}

/// The texts of group `g` of each match, where it took part.
fn group_texts(ms: &Vec<Vec<Option<String>>>, g: usize) -> (r: Vec<String>)
    ensures
        views(r@) == group_values(group_views(ms@), g as int),
{
    let ghost all = group_views(ms@);
    let mut out: Vec<String> = Vec::new();
    let mut i: usize = 0;
    while i < ms.len()
        invariant
            i <= ms@.len(),
            all == group_views(ms@),
            all.len() == ms@.len(),
            views(out@) == group_values(all.take(i as int), g as int),
        decreases ms.len() - i,
    {
        proof {
            assert(all.take(i + 1).drop_last() =~= all.take(i as int));
            assert(all.take(i + 1).last() == all[i as int]);
            assert(all[i as int] == ms@[i as int]@.map_values(|x: Option<String>| opt_text(x)));
        }
        let m = &ms[i];
        if g < m.len() {
            match &m[g] {
                Some(x) => {
                    let ghost before = out@;
                    out.push(x.clone());
                    proof {
                        assert(views(out@) =~= views(before).push(x@));
                    }
                },
                None => {},
            }
        }
        i = i + 1;
    }
    proof {
        assert(all.take(ms@.len() as int) =~= all);
    }
    out
}

/// The pattern that finds the values of an attribute in generated markup.
pub open spec fn attribute_pattern(attribute: Seq<char>) -> Seq<char> {
    attribute + "=\"([^\"]+)\""@
}

/// The values of every `attribute="..."` in the document, in order; `None`
/// where the regex crate refuses the pattern built from the attribute name.
pub fn attribute_values(document: &str, attribute: &str) -> (r: Option<Vec<String>>)
    ensures
        r is Some == regex_accepts(attribute_pattern(attribute@)),
        r matches Some(v) ==> views(v@) == group_values(regex_captures(attribute_pattern(attribute@), document@), 1),
{
    let pattern = cat2(attribute, "=\"([^\"]+)\"");
    match regex_capture_all(pattern.as_str(), document) {
        Some(ms) => Some(group_texts(&ms, 1)),
        None => None,
    }
}

/// The sitemap location pattern.
pub const SITEMAP_LOCATION_PATTERN: &'static str = "<loc>([^<]+)</loc>";

/// The sitemap uses the approved XML envelope.
pub open spec fn sitemap_envelope_ok(s: Seq<char>) -> bool {
    &&& has_prefix(s, "<?xml version=\"1.0\" encoding=\"UTF-8\"?>\n"@)
    &&& has_infix(s, "<urlset xmlns=\"http://www.sitemaps.org/schemas/sitemap/0.9\">"@)
    &&& has_suffix(s, "</urlset>\n"@)
}

/// The sitemap carries freshness metadata.
pub open spec fn sitemap_freshness(s: Seq<char>) -> bool {
    has_infix(s, "<lastmod>"@) || has_infix(s, "<changefreq>"@) || has_infix(s, "<priority>"@)
}

/// No text occurs twice.
pub open spec fn all_distinct(s: Seq<Seq<char>>) -> bool {
    forall|i: int, j: int| 0 <= i < j < s.len() ==> s[i] != s[j]
}

/// The sitemap's locations are the expected canonical URLs, once each, all
/// on the public domain.
pub open spec fn sitemap_urls_ok(actual: Seq<Seq<char>>, expected: Seq<Seq<char>>) -> bool {
    &&& actual == expected
    &&& all_distinct(actual)
    &&& forall|i: int| 0 <= i < actual.len() ==> has_prefix(#[trigger] actual[i], "https://mer3ly.net/"@)
}

/// The locations a sitemap lists.
pub open spec fn sitemap_locations(s: Seq<char>) -> Seq<Seq<char>> {
    group_values(regex_captures(SITEMAP_LOCATION_PATTERN@, s), 1)
}

/// What the sitemap check records, in order.
pub open spec fn sitemap_findings(s: Seq<char>, expected: Seq<Seq<char>>) -> Seq<Seq<char>> {
    flag(!sitemap_envelope_ok(s), "sitemap does not use the approved XML envelope"@) + flag(
        sitemap_freshness(s),
        "sitemap contains unsupported freshness metadata"@,
    ) + flag(!sitemap_urls_ok(sitemap_locations(s), expected), "sitemap URLs differ from canonical public authority"@)
}

/// Whether two lists of strings hold the same texts in the same order.
fn same_texts(a: &Vec<String>, b: &[String]) -> (r: bool)
    ensures
        r == (views(a@) == views(b@)),
{
    if a.len() != b.len() {
        proof {
            assert(views(a@).len() != views(b@).len());
        }
        return false;
    }
    let mut i: usize = 0;
    while i < a.len()
        invariant
            a@.len() == b@.len(),
            i <= a@.len(),
            forall|j: int| 0 <= j < i ==> a@[j]@ == b@[j]@,
        decreases a.len() - i,
    {
        if !str_eq(a[i].as_str(), b[i].as_str()) {
            proof {
                assert(views(a@)[i as int] != views(b@)[i as int]);
            }
            return false;
        }
        i = i + 1;
    }
    proof {
        assert(views(a@) =~= views(b@));
    }
    true
}

/// Whether no text occurs twice in the list.
fn distinct_texts(v: &Vec<String>) -> (r: bool)
    ensures
        r == all_distinct(views(v@)),
{
    let ghost vs = views(v@);
    let mut i: usize = 0;
    while i < v.len()
        invariant
            vs == views(v@),
            i <= v@.len(),
            forall|a: int, b: int| 0 <= a < b < v@.len() && a < i ==> vs[a] != vs[b],
        decreases v.len() - i,
    {
        let mut j: usize = i + 1;
        while j < v.len()
            invariant
                vs == views(v@),
                i < v@.len(),
                i + 1 <= j <= v@.len(),
                forall|a: int, b: int| 0 <= a < b < v@.len() && a < i ==> vs[a] != vs[b],
                forall|b: int| i < b < j ==> vs[i as int] != vs[b],
            decreases v.len() - j,
        {
            if str_eq(v[i].as_str(), v[j].as_str()) {
                proof {
                    assert(vs[i as int] == vs[j as int]);
                }
                return false;
            }
            j = j + 1;
        }
        i = i + 1;
    }
    true
}

/// Whether every text starts with the public domain's address.
fn all_public(v: &Vec<String>) -> (r: bool)
    ensures
        r == forall|i: int| 0 <= i < v@.len() ==> has_prefix(#[trigger] views(v@)[i], "https://mer3ly.net/"@),
{
    let mut i: usize = 0;
    while i < v.len()
        invariant
            i <= v@.len(),
            forall|k: int| 0 <= k < i ==> has_prefix(#[trigger] views(v@)[k], "https://mer3ly.net/"@),
        decreases v.len() - i,
    {
        if !starts_with(v[i].as_str(), "https://mer3ly.net/") {
            proof {
                assert(views(v@)[i as int] == v@[i as int]@);
            }
            return false;
        }
        i = i + 1;
    }
    true
}

/// Checks the sitemap against the canonical URLs and tells how many
/// locations it lists; `None` where the regex crate refuses the location
/// pattern, after the envelope and freshness checks.
pub fn validate_sitemap(sitemap: &str, expected: &[String], errors: &mut Vec<String>) -> (r: Option<usize>)
    ensures
        r is Some == regex_accepts(SITEMAP_LOCATION_PATTERN@),
        r matches Some(n) ==> n == sitemap_locations(sitemap@).len() && views(final(errors)@) == views(old(errors)@)
            + sitemap_findings(sitemap@, views(expected@)),
        r is None ==> views(final(errors)@) == views(old(errors)@) + flag(
            !sitemap_envelope_ok(sitemap@),
            "sitemap does not use the approved XML envelope"@,
        ) + flag(sitemap_freshness(sitemap@), "sitemap contains unsupported freshness metadata"@),
{
    let ghost before = views(errors@);
    let envelope = starts_with(sitemap, "<?xml version=\"1.0\" encoding=\"UTF-8\"?>\n") && contains_str(
        sitemap,
        "<urlset xmlns=\"http://www.sitemaps.org/schemas/sitemap/0.9\">",
    ) && ends_with(sitemap, "</urlset>\n");
    flag_if(errors, !envelope, String::from_str("sitemap does not use the approved XML envelope"));
    let freshness = contains_str(sitemap, "<lastmod>") || contains_str(sitemap, "<changefreq>") || contains_str(
        sitemap,
        "<priority>",
    );
    flag_if(errors, freshness, String::from_str("sitemap contains unsupported freshness metadata"));
    let actual = match attribute_locations(sitemap) {
        Some(v) => v,
        None => {
            proof {
                assert(views(errors@) =~= before + flag(!sitemap_envelope_ok(sitemap@), "sitemap does not use the approved XML envelope"@)
                    + flag(sitemap_freshness(sitemap@), "sitemap contains unsupported freshness metadata"@));
            }
            return None;
        },
    };
    let urls = same_texts(&actual, expected) && distinct_texts(&actual) && all_public(&actual);
    flag_if(errors, !urls, String::from_str("sitemap URLs differ from canonical public authority"));
    proof {
        assert(views(errors@) =~= before + sitemap_findings(sitemap@, views(expected@)));
    }
    Some(actual.len())
}

/// The locations the sitemap lists.
fn attribute_locations(sitemap: &str) -> (r: Option<Vec<String>>)
    ensures
        r is Some == regex_accepts(SITEMAP_LOCATION_PATTERN@),
        r matches Some(v) ==> views(v@) == sitemap_locations(sitemap@),
{
    match regex_capture_all(SITEMAP_LOCATION_PATTERN, sitemap) {
        Some(ms) => Some(group_texts(&ms, 1)),
        None => None,
    }
}

/// The only contact address the public artifact may carry.
pub const APPROVED_CONTACT_EMAIL: &'static str = "markik@mer3ly.net";

/// A Windows drive or network share path.
pub const DRIVE_PATH_PATTERN: &'static str =
    r#"(?i)(?:^|[^a-z0-9])(?:[a-z]:[\\/](?:users|home|documents and settings|workspaces?|code)[\\/]|\\\\[a-z0-9._-]+[\\/])"#;

/// An email address.
pub const EMAIL_PATTERN: &'static str = r"(?i)\b[a-z0-9._%+-]+@[a-z0-9.-]+\.[a-z]{2,}\b";

/// A link to a host on a private or local domain.
pub const PRIVATE_HOST_PATTERN: &'static str = r"(?i)(?:https?|wss?)://[a-z0-9.-]+\.(?:internal|local)\b";

/// A dotted quad.
pub const IPV4_PATTERN: &'static str = r"\b(?:[0-9]{1,3}\.){3}[0-9]{1,3}\b";

/// A GitHub owner or repository link.
pub const GITHUB_LINK_PATTERN: &'static str = r"(?i)https://github\.com/([a-z0-9_.-]+)(?:/([a-z0-9_.-]+))?";

/// `b` begins with `a`.
pub open spec fn extends(a: Seq<Seq<char>>, b: Seq<Seq<char>>) -> bool {
    b.len() >= a.len() && b.take(a.len() as int) == a
}

/// The bare username marker starts a word at `i`.
pub open spec fn username_marker_at(s: Seq<char>, i: int) -> bool {
    occurs_at(s, "mark_"@, i) && (i == 0 || !is_ascii_alnum(s[i - 1]))
}

/// The lowercased text carries the bare username marker at a word start.
#[verifier::opaque]
pub open spec fn username_leak(s: Seq<char>) -> bool {
    exists|i: int| #[trigger] username_marker_at(s, i)
}

/// The lowercased text carries a home path, a file URL, a viewer
/// permission, an SSH URL, a bearer token, a GitHub token or a private key.
#[verifier::opaque]
pub open spec fn forbidden_marker(s: Seq<char>) -> bool {
    ||| has_infix(s, "c:\\users\\"@)
    ||| has_infix(s, "\\users\\"@)
    ||| has_infix(s, "/users/"@)
    ||| has_infix(s, "/home/"@)
    ||| has_infix(s, "file://"@)
    ||| has_infix(s, "viewerpermission"@)
    ||| has_infix(s, "\"viewer_permission\""@)
    ||| has_infix(s, "\"ssh_url\""@)
    ||| has_infix(s, "\"sshurl\""@)
    ||| has_infix(s, "authorization: bearer"@)
    ||| has_infix(s, "github_pat_"@)
    ||| has_infix(s, "begin rsa private key"@)
    ||| has_infix(s, "begin ec private key"@)
    ||| has_infix(s, "begin openssh private key"@)
}

/// Two texts agree up to ASCII case.
pub open spec fn same_ignoring_ascii_case(a: Seq<char>, b: Seq<char>) -> bool {
    lower(a) == lower(b)
}

/// The text carries an email address other than the approved contact.
#[verifier::opaque]
pub open spec fn unapproved_email(text: Seq<char>) -> bool {
    exists|i: int|
        0 <= i < regex_found(EMAIL_PATTERN@, text).len() && !same_ignoring_ascii_case(
            #[trigger] regex_found(EMAIL_PATTERN@, text)[i],
            APPROVED_CONTACT_EMAIL@,
        )
}

/// The decimal value of a run of digits.
pub open spec fn digits_value(p: Seq<char>) -> nat
    decreases p.len(),
{
    if p.len() == 0 {
        0
    } else {
        digits_value(p.drop_last()) * 10 + ((p.last() as u32) - 48) as nat
    }
}

/// One octet as std's IPv4 parser accepts it: one to three decimal digits,
/// no leading zero, at most 255.
pub open spec fn octet_text_ok(p: Seq<char>) -> bool {
    &&& 1 <= p.len() <= 3
    &&& forall|k: int| 0 <= k < p.len() ==> is_ascii_digit(#[trigger] p[k])
    &&& !(p.len() > 1 && p[0] == '0')
    &&& digits_value(p) <= 255
}

/// The text is a dotted quad of valid octets.
pub open spec fn ipv4_ok(s: Seq<char>) -> bool {
    let parts = split_pieces(s, '.');
    &&& parts.len() == 4
    &&& forall|k: int| 0 <= k < 4 ==> octet_text_ok(#[trigger] parts[k])
}

/// Octet `k` of a dotted quad.
pub open spec fn octet(s: Seq<char>, k: int) -> nat {
    digits_value(split_pieces(s, '.')[k])
}

/// The text is an IPv4 address that is private, loopback, link-local or
/// unspecified.
pub open spec fn private_ipv4(s: Seq<char>) -> bool {
    &&& ipv4_ok(s)
    &&& {
        let a = octet(s, 0);
        let b = octet(s, 1);
        ||| a == 10
        ||| (a == 172 && 16 <= b <= 31)
        ||| (a == 192 && b == 168)
        ||| a == 127
        ||| (a == 169 && b == 254)
        ||| (a == 0 && b == 0 && octet(s, 2) == 0 && octet(s, 3) == 0)
    }
}

/// The text carries a private or local IPv4 address.
#[verifier::opaque]
pub open spec fn private_address(text: Seq<char>) -> bool {
    exists|i: int|
        0 <= i < regex_found(IPV4_PATTERN@, text).len() && private_ipv4(#[trigger] regex_found(IPV4_PATTERN@, text)[i])
}

/// The owner a GitHub link names, lowercased.
pub open spec fn github_owner(m: Seq<Option<Seq<char>>>) -> Seq<char> {
    match group(m, 1) {
        Some(x) => lower(x),
        None => Seq::empty(),
    }
}

/// The repository a GitHub link names, without `.git` and lowercased.
pub open spec fn github_repository(m: Seq<Option<Seq<char>>>) -> Option<Seq<char>> {
    match group(m, 2) {
        Some(x) => Some(lower(without_git_suffixes(x))),
        None => None,
    }
}

/// A GitHub link names the organization, or one of its public repositories.
pub open spec fn github_link_approved(m: Seq<Option<Seq<char>>>, allowed: Seq<Seq<char>>) -> bool {
    &&& github_owner(m) == "merely-made"@
    &&& match github_repository(m) {
        Some(r) => allowed.contains(github_owner(m) + "/"@ + r),
        None => true,
    }
}

/// The text links to a GitHub owner or repository that is not approved.
#[verifier::opaque]
pub open spec fn unapproved_github(text: Seq<char>, allowed: Seq<Seq<char>>) -> bool {
    exists|i: int|
        0 <= i < regex_captures(GITHUB_LINK_PATTERN@, text).len() && !github_link_approved(
            #[trigger] regex_captures(GITHUB_LINK_PATTERN@, text)[i],
            allowed,
        )
}

/// The regex crate accepts every pattern of the scan.
pub open spec fn scan_patterns_accepted() -> bool {
    &&& regex_accepts(DRIVE_PATH_PATTERN@)
    &&& regex_accepts(EMAIL_PATTERN@)
    &&& regex_accepts(PRIVATE_HOST_PATTERN@)
    &&& regex_accepts(IPV4_PATTERN@)
    &&& regex_accepts(GITHUB_LINK_PATTERN@)
}

/// What the marker scan of one public file records, in order.
pub open spec fn marker_findings(path: Seq<char>, text: Seq<char>) -> Seq<Seq<char>> {
    flag(username_leak(lower(text)), path + " contains a forbidden public-data marker"@) + flag(
        forbidden_marker(lower(text)),
        path + " contains a forbidden public-data marker"@,
    )
}

/// What the pattern scan of one public file records, in order.
pub open spec fn pattern_findings(path: Seq<char>, text: Seq<char>, allowed: Seq<Seq<char>>) -> Seq<Seq<char>> {
    flag(regex_finds(DRIVE_PATH_PATTERN@, text), path + " contains an absolute or network filesystem path"@) + flag(
        unapproved_email(text),
        path + " contains an unapproved contact address"@,
    ) + flag(regex_finds(PRIVATE_HOST_PATTERN@, text), path + " contains a private hostname"@) + flag(
        private_address(text),
        path + " contains a private or local network address"@,
    ) + flag(unapproved_github(text, allowed), path + " contains an unapproved GitHub repository link"@)
}

/// `after` is `before` followed by the first `k` of `findings`, for some `k`.
pub open spec fn grew_by_prefix(before: Seq<Seq<char>>, after: Seq<Seq<char>>, findings: Seq<Seq<char>>) -> bool {
    exists|k: int| 0 <= k <= findings.len() && after == before + #[trigger] findings.take(k)
}

/// What the scan of one public file records, in order. No message repeats
/// what it found.
pub open spec fn scan_findings(path: Seq<char>, text: Seq<char>, allowed: Seq<Seq<char>>) -> Seq<Seq<char>> {
    marker_findings(path, text) + pattern_findings(path, text, allowed)
}

/// Whether the lowercased text carries the username marker at a word start.
fn has_username_marker(lc: &Vec<char>) -> (r: bool)
    ensures
        r == username_leak(lc@),
{
    reveal(username_leak);
    let marker = chars_of("mark_");
    let mut i: usize = 0;
    while i < lc.len()
        invariant
            i <= lc@.len(),
            marker@ == "mark_"@,
            forall|k: int| 0 <= k < i ==> !#[trigger] username_marker_at(lc@, k),
        decreases lc.len() - i,
    {
        if chars_occur_at(lc, &marker, i) && (i == 0 || !is_ascii_alnum_char(lc[i - 1])) {
            assert(username_marker_at(lc@, i as int));
            proof {
                reveal(username_leak);
            }
            return true;
        }
        i = i + 1;
    }
    proof {
        assert forall|k: int| !#[trigger] username_marker_at(lc@, k) by {
            if 0 <= k < lc@.len() {
            } else if k >= lc@.len() {
                reveal_strlit("mark_");
                assert(!occurs_at(lc@, "mark_"@, k));
            }
        }
    }
    false
}

/// Whether the lowercased text carries one of the forbidden markers.
fn has_forbidden_marker(lower_text: &str) -> (r: bool)
    ensures
        r == forbidden_marker(lower_text@),
{
    reveal(forbidden_marker);
    contains_str(lower_text, "c:\\users\\") || contains_str(lower_text, "\\users\\") || contains_str(lower_text, "/users/")
        || contains_str(lower_text, "/home/") || contains_str(lower_text, "file://") || contains_str(
        lower_text,
        "viewerpermission",
    ) || contains_str(lower_text, "\"viewer_permission\"") || contains_str(lower_text, "\"ssh_url\"") || contains_str(
        lower_text,
        "\"sshurl\"",
    ) || contains_str(lower_text, "authorization: bearer") || contains_str(lower_text, "github_pat_") || contains_str(
        lower_text,
        "begin rsa private key",
    ) || contains_str(lower_text, "begin ec private key") || contains_str(lower_text, "begin openssh private key")
}

/// Whether some found address differs from the approved contact.
fn any_unapproved_email(found: &Vec<String>, Ghost(text): Ghost<Seq<char>>) -> (r: bool)
    requires
        views(found@) == regex_found(EMAIL_PATTERN@, text),
    ensures
        r == unapproved_email(text),
{
    reveal(unapproved_email);
    let approved = to_lower(APPROVED_CONTACT_EMAIL);
    let mut i: usize = 0;
    while i < found.len()
        invariant
            views(found@) == regex_found(EMAIL_PATTERN@, text),
            approved@ == lower(APPROVED_CONTACT_EMAIL@),
            i <= found@.len(),
            forall|k: int| 0 <= k < i ==> same_ignoring_ascii_case(#[trigger] views(found@)[k], APPROVED_CONTACT_EMAIL@),
        decreases found.len() - i,
    {
        let candidate = to_lower(found[i].as_str());
        if !str_eq(candidate.as_str(), approved.as_str()) {
            proof {
                assert(views(found@)[i as int] == found@[i as int]@);
                assert(!same_ignoring_ascii_case(regex_found(EMAIL_PATTERN@, text)[i as int], APPROVED_CONTACT_EMAIL@));
                reveal(unapproved_email);
            }
            return true;
        }
        proof {
            assert(views(found@)[i as int] == found@[i as int]@);
        }
        i = i + 1;
    }
    proof {
        assert forall|k: int|
            0 <= k < regex_found(EMAIL_PATTERN@, text).len() implies same_ignoring_ascii_case(
            #[trigger] regex_found(EMAIL_PATTERN@, text)[k],
            APPROVED_CONTACT_EMAIL@,
        ) by {
            assert(views(found@)[k] == regex_found(EMAIL_PATTERN@, text)[k]);
        }
    }
    false
}

/// The value of an octet as std's IPv4 parser reads it.
fn octet_value(p: &str) -> (r: Option<u32>)
    ensures
        r is Some == octet_text_ok(p@),
        r matches Some(v) ==> v == digits_value(p@),
{
    let cs = chars_of(p);
    if cs.len() < 1 || cs.len() > 3 {
        return None;
    }
    if cs.len() > 1 && cs[0] == '0' {
        return None;
    }
    let mut value: u32 = 0;
    let mut i: usize = 0;
    while i < cs.len()
        invariant
            cs@ == p@,
            1 <= cs@.len() <= 3,
            i <= cs@.len(),
            forall|k: int| 0 <= k < i ==> is_ascii_digit(#[trigger] cs@[k]),
            value == digits_value(cs@.take(i as int)),
            value < 1000,
            i == 0 ==> value == 0,
            i == 1 ==> value < 10,
            i == 2 ==> value < 100,
        decreases cs.len() - i,
    {
        let c = cs[i];
        if !is_ascii_digit_char(c) {
            return None;
        }
        proof {
            assert(cs@.take(i + 1).drop_last() =~= cs@.take(i as int));
            assert(cs@.take(i + 1).last() == c);
        }
        value = value * 10 + ((c as u32) - 48);
        i = i + 1;
    }
    proof {
        assert(cs@.take(cs@.len() as int) =~= cs@);
    }
    if value > 255 {
        return None;
    }
    Some(value)
}

/// Whether the text is a private, loopback, link-local or unspecified IPv4
/// address.
fn is_private_ipv4(s: &str) -> (r: bool)
    ensures
        r == private_ipv4(s@),
{
    let parts = split_on(s, '.');
    if parts.len() != 4 {
        return false;
    }
    proof {
        assert(views(parts@)[0] == parts@[0]@);
        assert(views(parts@)[1] == parts@[1]@);
        assert(views(parts@)[2] == parts@[2]@);
        assert(views(parts@)[3] == parts@[3]@);
    }
    let a = match octet_value(parts[0].as_str()) {
        Some(v) => v,
        None => return false,
    };
    let b = match octet_value(parts[1].as_str()) {
        Some(v) => v,
        None => return false,
    };
    let c = match octet_value(parts[2].as_str()) {
        Some(v) => v,
        None => return false,
    };
    let d = match octet_value(parts[3].as_str()) {
        Some(v) => v,
        None => return false,
    };
    proof {
        assert forall|k: int| 0 <= k < 4 implies octet_text_ok(#[trigger] split_pieces(s@, '.')[k]) by {
            assert(split_pieces(s@, '.')[k] == views(parts@)[k]);
        }
    }
    a == 10 || (a == 172 && 16 <= b && b <= 31) || (a == 192 && b == 168) || a == 127 || (a == 169 && b == 254) || (
    a == 0 && b == 0 && c == 0 && d == 0)
}

/// Whether some found dotted quad is a private or local address.
fn any_private_address(found: &Vec<String>, Ghost(text): Ghost<Seq<char>>) -> (r: bool)
    requires
        views(found@) == regex_found(IPV4_PATTERN@, text),
    ensures
        r == private_address(text),
{
    reveal(private_address);
    let mut i: usize = 0;
    while i < found.len()
        invariant
            views(found@) == regex_found(IPV4_PATTERN@, text),
            i <= found@.len(),
            forall|k: int| 0 <= k < i ==> !private_ipv4(#[trigger] views(found@)[k]),
        decreases found.len() - i,
    {
        proof {
            assert(views(found@)[i as int] == found@[i as int]@);
        }
        if is_private_ipv4(found[i].as_str()) {
            assert(private_ipv4(regex_found(IPV4_PATTERN@, text)[i as int]));
            proof {
                reveal(private_address);
            }
            return true;
        }
        i = i + 1;
    }
    proof {
        assert forall|k: int|
            0 <= k < regex_found(IPV4_PATTERN@, text).len() implies !private_ipv4(
            #[trigger] regex_found(IPV4_PATTERN@, text)[k],
        ) by {
            assert(views(found@)[k] == regex_found(IPV4_PATTERN@, text)[k]);
        }
    }
    false
}

/// Whether one GitHub link is approved.
fn github_link_ok(m: &Vec<Option<String>>, allowed: &Vec<String>) -> (r: bool)
    ensures
        r == github_link_approved(m@.map_values(|g: Option<String>| opt_text(g)), views(allowed@)),
{
    let ghost mv = m@.map_values(|g: Option<String>| opt_text(g));
    let owner = if 1 < m.len() {
        match &m[1] {
            Some(x) => to_lower(x.as_str()),
            None => String::new(),
        }
    } else {
        String::new()
    };
    proof {
        if 1 < m@.len() {
            assert(mv[1] == opt_text(m@[1]));
        }
        assert(owner@ == github_owner(mv));
    }
    if !str_eq(owner.as_str(), "merely-made") {
        return false;
    }
    if 2 < m.len() {
        proof {
            assert(mv[2] == opt_text(m@[2]));
        }
        match &m[2] {
            Some(x) => {
                let trimmed = trim_git_suffixes(x.as_str());
                let repository = to_lower(trimmed.as_str());
                let slug = cat3(owner.as_str(), "/", repository.as_str());
                holds_string(allowed, slug.as_str())
            },
            None => true,
        }
    } else {
        true
    }
}

/// Whether some captured GitHub link is not approved.
fn any_unapproved_github(caps: &Vec<Vec<Option<String>>>, allowed: &Vec<String>, Ghost(text): Ghost<Seq<char>>) -> (r: bool)
    requires
        group_views(caps@) == regex_captures(GITHUB_LINK_PATTERN@, text),
    ensures
        r == unapproved_github(text, views(allowed@)),
{
    reveal(unapproved_github);
    let mut i: usize = 0;
    while i < caps.len()
        invariant
            group_views(caps@) == regex_captures(GITHUB_LINK_PATTERN@, text),
            i <= caps@.len(),
            forall|k: int| 0 <= k < i ==> github_link_approved(#[trigger] group_views(caps@)[k], views(allowed@)),
        decreases caps.len() - i,
    {
        proof {
            assert(group_views(caps@)[i as int] == caps@[i as int]@.map_values(|g: Option<String>| opt_text(g)));
        }
        if !github_link_ok(&caps[i], allowed) {
            assert(!github_link_approved(regex_captures(GITHUB_LINK_PATTERN@, text)[i as int], views(allowed@)));
            proof {
                reveal(unapproved_github);
            }
            return true;
        }
        i = i + 1;
    }
    proof {
        assert forall|k: int|
            0 <= k < regex_captures(GITHUB_LINK_PATTERN@, text).len() implies github_link_approved(
            #[trigger] regex_captures(GITHUB_LINK_PATTERN@, text)[k],
            views(allowed@),
        ) by {
            assert(group_views(caps@)[k] == regex_captures(GITHUB_LINK_PATTERN@, text)[k]);
        }
    }
    false
}

/// Records the forbidden markers in the text.
fn scan_markers(relative_path: &str, text: &str, errors: &mut Vec<String>)
    ensures
        views(final(errors)@) == views(old(errors)@) + marker_findings(relative_path@, text@),
{
    let ghost before = views(errors@);
    let lowered = to_lower(text);
    let lc = chars_of(lowered.as_str());
    let marker_message = cat2(relative_path, " contains a forbidden public-data marker");
    flag_if(errors, has_username_marker(&lc), marker_message.clone());
    flag_if(errors, has_forbidden_marker(lowered.as_str()), marker_message);
    proof {
        assert(views(errors@) =~= before + marker_findings(relative_path@, text@));
    }
}

/// Records what the patterns find in the text; false where the regex crate
/// refuses a pattern, and the scan stops there.
fn scan_patterns(relative_path: &str, text: &str, allowed_github_slugs: &Vec<String>, errors: &mut Vec<String>) -> (r: bool)
    ensures
        r == scan_patterns_accepted(),
        extends(views(old(errors)@), views(final(errors)@)),
        r ==> views(final(errors)@) == views(old(errors)@) + pattern_findings(relative_path@, text@, views(allowed_github_slugs@)),
        grew_by_prefix(views(old(errors)@), views(final(errors)@), pattern_findings(relative_path@, text@, views(allowed_github_slugs@))),
{
    let ghost before = views(errors@);
    let ghost pf = pattern_findings(relative_path@, text@, views(allowed_github_slugs@));
    let drive = match regex_is_match(DRIVE_PATH_PATTERN, text) {
        Some(b) => b,
        None => {
            proof {
                assert(views(errors@).take(before.len() as int) =~= before);
                let k = views(errors@).len() - before.len();
                assert(views(errors@) =~= before + pf.take(k));
            }
            return false;
        },
    };
    flag_if(errors, drive, cat2(relative_path, " contains an absolute or network filesystem path"));
    let ghost s1 = views(errors@);
    let emails = match regex_find_all(EMAIL_PATTERN, text) {
        Some(v) => v,
        None => {
            proof {
                assert(views(errors@).take(before.len() as int) =~= before);
                let k = views(errors@).len() - before.len();
                assert(views(errors@) =~= before + pf.take(k));
            }
            return false;
        },
    };
    flag_if(errors, any_unapproved_email(&emails, Ghost(text@)), cat2(relative_path, " contains an unapproved contact address"));
    let ghost s2 = views(errors@);
    let host = match regex_is_match(PRIVATE_HOST_PATTERN, text) {
        Some(b) => b,
        None => {
            proof {
                assert(views(errors@).take(before.len() as int) =~= before);
                let k = views(errors@).len() - before.len();
                assert(views(errors@) =~= before + pf.take(k));
            }
            return false;
        },
    };
    flag_if(errors, host, cat2(relative_path, " contains a private hostname"));
    let ghost s3 = views(errors@);
    let addresses = match regex_find_all(IPV4_PATTERN, text) {
        Some(v) => v,
        None => {
            proof {
                assert(views(errors@).take(before.len() as int) =~= before);
                let k = views(errors@).len() - before.len();
                assert(views(errors@) =~= before + pf.take(k));
            }
            return false;
        },
    };
    flag_if(
        errors,
        any_private_address(&addresses, Ghost(text@)),
        cat2(relative_path, " contains a private or local network address"),
    );
    let ghost s4 = views(errors@);
    let links = match regex_capture_all(GITHUB_LINK_PATTERN, text) {
        Some(v) => v,
        None => {
            proof {
                assert(views(errors@).take(before.len() as int) =~= before);
                let k = views(errors@).len() - before.len();
                assert(views(errors@) =~= before + pf.take(k));
            }
            return false;
        },
    };
    flag_if(
        errors,
        any_unapproved_github(&links, allowed_github_slugs, Ghost(text@)),
        cat2(relative_path, " contains an unapproved GitHub repository link"),
    );
    proof {
        assert(views(errors@) =~= before + pattern_findings(relative_path@, text@, views(allowed_github_slugs@)));
        assert(views(errors@).take(before.len() as int) =~= before);
        assert(pf.take(pf.len() as int) =~= pf);
    }
    true
}

/// Scans the text of one public file for private material, recording one
/// message per kind of finding and never the finding itself. Returns
/// whether the regex crate accepted every pattern; where it refuses one, the
/// scan stops there, having recorded only the findings before that pattern.
pub fn scan_public_text(relative_path: &str, text: &str, allowed_github_slugs: &Vec<String>, errors: &mut Vec<String>) -> (r: bool)
    ensures
        r == scan_patterns_accepted(),
        extends(views(old(errors)@), views(final(errors)@)),
        r ==> views(final(errors)@) == views(old(errors)@) + scan_findings(relative_path@, text@, views(allowed_github_slugs@)),
        grew_by_prefix(views(old(errors)@), views(final(errors)@), scan_findings(relative_path@, text@, views(allowed_github_slugs@))),
{
    let ghost before = views(errors@);
    scan_markers(relative_path, text, errors);
    let ghost mid = views(errors@);
    let accepted = scan_patterns(relative_path, text, allowed_github_slugs, errors);
    proof {
        let m = marker_findings(relative_path@, text@);
        assert(mid.take(before.len() as int) =~= before);
        assert(views(errors@).take(before.len() as int) =~= before);
        if accepted {
            assert(views(errors@) =~= before + scan_findings(relative_path@, text@, views(allowed_github_slugs@)));
        }
        let pf = pattern_findings(relative_path@, text@, views(allowed_github_slugs@));
        let sf = scan_findings(relative_path@, text@, views(allowed_github_slugs@));
        let k = choose|k: int| 0 <= k <= pf.len() && views(errors@) == mid + #[trigger] pf.take(k);
        assert(mid =~= before + m);
        assert(sf.take(m.len() + k) =~= m + pf.take(k));
        assert(views(errors@) =~= before + sf.take(m.len() + k));
    }
    accepted
}

/// The public repositories' GitHub slugs, lowercased: the links the public
/// text may carry.
pub open spec fn allowed_slugs(rs: Seq<RepositoryRecord>) -> Seq<Seq<char>> {
    rs.filter(|r: RepositoryRecord| r.public).map_values(|r: RepositoryRecord| lower(r.github_slug@))
}

/// The lowercased GitHub slugs of the public repositories, in order.
pub fn allowed_github_slugs(authority: &Authority) -> (r: Vec<String>)
    ensures
        views(r@) == allowed_slugs(authority.repositories.repository@),
{
    let rs = &authority.repositories.repository;
    let mut out: Vec<String> = Vec::new();
    let mut i: usize = 0;
    while i < rs.len()
        invariant
            i <= rs@.len(),
            views(out@) == allowed_slugs(rs@.take(i as int)),
        decreases rs.len() - i,
    {
        proof {
            crate::text::lemma_filter_take_step(rs@, |r: RepositoryRecord| r.public, i as int);
        }
        if rs[i].public {
            let ghost before = out@;
            out.push(to_lower(rs[i].github_slug.as_str()));
            proof {
                assert(views(out@) =~= views(before).push(lower(rs@[i as int].github_slug@)));
            }
        }
        proof {
            assert(allowed_slugs(rs@.take(i + 1)) =~= views(out@));
        }
        i = i + 1;
    }
    proof {
        assert(rs@.take(rs@.len() as int) =~= rs@);
    }
    out
}

/// The messages a scan can record about a file.
pub open spec fn scan_message(path: Seq<char>, msg: Seq<char>) -> bool {
    ||| msg == path + " contains a forbidden public-data marker"@
    ||| msg == path + " contains an absolute or network filesystem path"@
    ||| msg == path + " contains an unapproved contact address"@
    ||| msg == path + " contains a private hostname"@
    ||| msg == path + " contains a private or local network address"@
    ||| msg == path + " contains an unapproved GitHub repository link"@
}

/// Whatever the text holds, the scan records at most one message per kind of
/// finding, and every message is the file's path followed by a fixed
/// sentence: no finding is ever echoed into the errors.
pub proof fn law_scan_never_echoes_a_finding(path: Seq<char>, text: Seq<char>, allowed: Seq<Seq<char>>)
    ensures
        scan_findings(path, text, allowed).len() <= 7,
        forall|i: int|
            0 <= i < scan_findings(path, text, allowed).len() ==> scan_message(path, #[trigger] scan_findings(path, text, allowed)[i]),
{
    let m = marker_findings(path, text);
    let p = pattern_findings(path, text, allowed);
    let all = scan_findings(path, text, allowed);
    assert forall|i: int| 0 <= i < all.len() implies scan_message(path, #[trigger] all[i]) by {
        if i < m.len() {
            assert(all[i] == m[i]);
        } else {
            assert(all[i] == p[i - m.len()]);
        }
    }
}

} // verus!
