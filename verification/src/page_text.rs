//! The small texts the public pages show: host and activity labels, class
//! counts, evidence links and dates.

use vstd::prelude::*;

use crate::devices::DeviceRecord;
use crate::repositories::{RepositoryClass, RepositoryRecord};
use crate::firmware_catalog::receipt_host_ok;
use crate::text::{cat3, chars_of, str_eq, text_between};

verus! {

/// The label of an installer receipt's host platform.
pub open spec fn host_label(host: Seq<char>) -> Seq<char> {
    if host == "windows-x86_64"@ {
        "Windows x86-64"@
    } else if host == "macos-x86_64"@ {
        "Intel macOS"@
    } else if host == "macos-aarch64"@ {
        "Apple-silicon macOS"@
    } else if host == "linux-x86_64"@ {
        "Linux x86-64"@
    } else if host == "linux-aarch64"@ {
        "Linux Arm64"@
    } else {
        "unrecognized host"@
    }
}

/// The label of an installer receipt's host platform.
pub fn receipt_host_label(host: &str) -> (r: &'static str)
    ensures
        r@ == host_label(host@),
{
    if str_eq(host, "windows-x86_64") {
        "Windows x86-64"
    } else if str_eq(host, "macos-x86_64") {
        "Intel macOS"
    } else if str_eq(host, "macos-aarch64") {
        "Apple-silicon macOS"
    } else if str_eq(host, "linux-x86_64") {
        "Linux x86-64"
    } else if str_eq(host, "linux-aarch64") {
        "Linux Arm64"
    } else {
        "unrecognized host"
    }
}

/// What a public organization event says the organization did.
pub open spec fn activity_text(kind: Seq<char>) -> Seq<char> {
    if kind == "PushEvent"@ {
        "pushed code"@
    } else if kind == "PullRequestEvent"@ {
        "updated a pull request"@
    } else if kind == "CreateEvent"@ {
        "created a branch or tag"@
    } else if kind == "DeleteEvent"@ {
        "deleted a branch or tag"@
    } else if kind == "ReleaseEvent"@ {
        "published a release"@
    } else if kind == "IssuesEvent"@ {
        "updated an issue"@
    } else if kind == "IssueCommentEvent"@ {
        "commented on an issue"@
    } else if kind == "ForkEvent"@ {
        "created a fork"@
    } else if kind == "WatchEvent"@ {
        "received a star"@
    } else {
        "recorded public activity"@
    }
}

/// What a public organization event says the organization did.
pub fn activity_label(kind: &str) -> (r: &'static str)
    ensures
        r@ == activity_text(kind@),
{
    if str_eq(kind, "PushEvent") {
        "pushed code"
    } else if str_eq(kind, "PullRequestEvent") {
        "updated a pull request"
    } else if str_eq(kind, "CreateEvent") {
        "created a branch or tag"
    } else if str_eq(kind, "DeleteEvent") {
        "deleted a branch or tag"
    } else if str_eq(kind, "ReleaseEvent") {
        "published a release"
    } else if str_eq(kind, "IssuesEvent") {
        "updated an issue"
    } else if str_eq(kind, "IssueCommentEvent") {
        "commented on an issue"
    } else if str_eq(kind, "ForkEvent") {
        "created a fork"
    } else if str_eq(kind, "WatchEvent") {
        "received a star"
    } else {
        "recorded public activity"
    }
}

/// The test for a public repository of the class.
pub open spec fn public_of_class(class: RepositoryClass) -> spec_fn(RepositoryRecord) -> bool {
    |r: RepositoryRecord| r.public && r.class == class
}

/// How many public repositories have the class.
pub fn class_count(repositories: &[RepositoryRecord], class: RepositoryClass) -> (r: usize)
    ensures
        r == repositories@.filter(public_of_class(class)).len(),
{
    let ghost p = public_of_class(class);
    let mut count: usize = 0;
    let mut i: usize = 0;
    while i < repositories.len()
        invariant
            i <= repositories@.len(),
            p == public_of_class(class),
            count == repositories@.take(i as int).filter(p).len(),
            count <= i,
        decreases repositories.len() - i,
    {
        proof {
            crate::text::lemma_filter_take_step(repositories@, p, i as int);
        }
        if repositories[i].public && repositories[i].class == class {
            count = count + 1;
        }
        i = i + 1;
    }
    proof {
        assert(repositories@.take(repositories@.len() as int) =~= repositories@);
    }
    count
}

/// The public document a device's recipe rests on.
pub fn evidence_url(device: &DeviceRecord) -> (r: String)
    ensures
        r@ == crate::structured_data::evidence_link(*device),
{
    cat3(device.source_repository.as_str(), "/blob/main/", device.source_document.as_str())
}

/// The number of bytes UTF-8 spends on a character.
pub open spec fn utf8_width(c: char) -> nat {
    if (c as u32) < 0x80 {
        1
    } else if (c as u32) < 0x800 {
        2
    } else if (c as u32) < 0x10000 {
        3
    } else {
        4
    }
}

/// The number of bytes UTF-8 spends on a text.
pub open spec fn utf8_len(s: Seq<char>) -> nat
    decreases s.len(),
{
    if s.len() == 0 {
        0
    } else {
        utf8_len(s.drop_last()) + utf8_width(s.last())
    }
}

/// The date part of a timestamp: its first ten bytes where they end on a
/// character boundary, else the whole timestamp.
pub open spec fn date_part(s: Seq<char>) -> Seq<char> {
    if exists|k: int| 0 <= k <= s.len() && #[trigger] utf8_len(s.take(k)) == 10 {
        s.take(choose|k: int| 0 <= k <= s.len() && #[trigger] utf8_len(s.take(k)) == 10)
    } else {
        s
    }
}

/// The byte width of one character.
fn width_of(c: char) -> (r: usize)
    ensures
        r == utf8_width(c),
{
    let u = c as u32;
    if u < 0x80 {
        1
    } else if u < 0x800 {
        2
    } else if u < 0x10000 {
        3
    } else {
        4
    }
}

/// Each longer prefix spends more bytes.
pub(crate) proof fn lemma_utf8_len_grows(s: Seq<char>, a: int, b: int)
    requires
        0 <= a < b <= s.len(),
    ensures
        utf8_len(s.take(a)) < utf8_len(s.take(b)),
    decreases b - a,
{
    assert(s.take(b).drop_last() =~= s.take(b - 1));
    if a < b - 1 {
        lemma_utf8_len_grows(s, a, b - 1);
    }
}

/// The date part of a timestamp.
pub fn format_date(timestamp: &str) -> (r: String)
    ensures
        r@ == date_part(timestamp@),
{
    let cs = chars_of(timestamp);
    let mut bytes: usize = 0;
    let mut i: usize = 0;
    while i < cs.len() && bytes < 10
        invariant
            i <= cs@.len(),
            cs@ == timestamp@,
            bytes == utf8_len(timestamp@.take(i as int)),
            bytes < 10 + 4,
            forall|k: int| 0 <= k < i ==> #[trigger] utf8_len(timestamp@.take(k)) < 10,
        decreases cs.len() - i,
    {
        proof {
            assert(timestamp@.take(i + 1).drop_last() =~= timestamp@.take(i as int));
            assert(timestamp@.take(i + 1).last() == cs@[i as int]);
        }
        bytes = bytes + width_of(cs[i]);
        i = i + 1;
    }
    proof {
        assert forall|k: int| 0 <= k <= timestamp@.len() && #[trigger] utf8_len(timestamp@.take(k)) == 10 implies k == i by {
            if k < i {
            } else if k > i {
                lemma_utf8_len_grows(timestamp@, i as int, k);
            }
        }
    }
    if bytes == 10 {
        proof {
            assert(utf8_len(timestamp@.take(i as int)) == 10);
        }
        text_between(&cs, 0, i)
    } else {
        proof {
            assert(timestamp@.subrange(0, cs@.len() as int) =~= timestamp@);
        }
        text_between(&cs, 0, cs.len())
    }
}

/// Position `k` ends the first `n` bytes of the text.
pub open spec fn byte_boundary_at(s: Seq<char>, n: nat, k: int) -> bool {
    0 <= k <= s.len() && utf8_len(s.take(k)) == n
}

/// The first `n` bytes of the text end on a character boundary.
pub open spec fn has_byte_boundary(s: Seq<char>, n: nat) -> bool {
    exists|k: int| #[trigger] byte_boundary_at(s, n, k)
}

/// The character position where the first `n` bytes end.
pub open spec fn byte_boundary(s: Seq<char>, n: nat) -> int {
    choose|k: int| #[trigger] byte_boundary_at(s, n, k)
}

/// The character position where the first `n` bytes end, if they end on a
/// character boundary.
pub(crate) fn char_index_at_byte(cs: &Vec<char>, n: usize) -> (r: Option<usize>)
    requires
        n < 64,
    ensures
        r is Some == has_byte_boundary(cs@, n as nat),
        r matches Some(k) ==> k == byte_boundary(cs@, n as nat),
{
    let mut bytes: usize = 0;
    let mut i: usize = 0;
    while i < cs.len() && bytes < n
        invariant
            i <= cs@.len(),
            n < 64,
            bytes == utf8_len(cs@.take(i as int)),
            bytes < n + 4,
            forall|k: int| 0 <= k < i ==> #[trigger] utf8_len(cs@.take(k)) < n,
        decreases cs.len() - i,
    {
        proof {
            assert(cs@.take(i + 1).drop_last() =~= cs@.take(i as int));
            assert(cs@.take(i + 1).last() == cs@[i as int]);
        }
        bytes = bytes + width_of(cs[i]);
        i = i + 1;
    }
    proof {
        assert forall|k: int| #[trigger] byte_boundary_at(cs@, n as nat, k) implies k == i by {
            if k < i {
            } else if k > i {
                lemma_utf8_len_grows(cs@, i as int, k);
            }
        }
    }
    if bytes == n {
        assert(byte_boundary_at(cs@, n as nat, i as int));
        Some(i)
    } else {
        None
    }
}

/// A timestamp as the pages show it: its date, a space, its hour and
/// minute, and `UTC`, read at the byte offsets of an RFC 3339 timestamp.
pub open spec fn timestamp_text(s: Seq<char>) -> Seq<char> {
    s.take(byte_boundary(s, 10)) + " "@ + s.subrange(byte_boundary(s, 11), byte_boundary(s, 16)) + " UTC"@
}

/// The first ten, eleven and sixteen bytes of the timestamp end on
/// character boundaries.
pub open spec fn timestamp_sliceable(s: Seq<char>) -> bool {
    has_byte_boundary(s, 10) && has_byte_boundary(s, 11) && has_byte_boundary(s, 16)
}

/// A timestamp as the pages show it.
pub fn format_timestamp(value: &str) -> (r: String)
    requires
        timestamp_sliceable(value@),
    ensures
        r@ == timestamp_text(value@),
{
    let cs = chars_of(value);
    let ten = char_index_at_byte(&cs, 10).unwrap();
    let eleven = char_index_at_byte(&cs, 11).unwrap();
    let sixteen = char_index_at_byte(&cs, 16).unwrap();
    proof {
        let a = byte_boundary(value@, 10);
        let b = byte_boundary(value@, 11);
        let c = byte_boundary(value@, 16);
        assert(byte_boundary_at(value@, 10, a));
        assert(byte_boundary_at(value@, 11, b));
        assert(byte_boundary_at(value@, 16, c));
        if b > c {
            lemma_utf8_len_grows(value@, c, b);
        }
    }
    let date = text_between(&cs, 0, ten);
    let time = text_between(&cs, eleven, sixteen);
    proof {
        assert(value@.subrange(0, ten as int) =~= value@.take(ten as int));
    }
    crate::text::cat4(date.as_str(), " ", time.as_str(), " UTC")
}

/// Whether the first ten, eleven and sixteen bytes of the timestamp end on
/// character boundaries, so that it can be shown.
pub fn is_timestamp_sliceable(value: &str) -> (r: bool)
    ensures
        r == timestamp_sliceable(value@),
{
    let cs = chars_of(value);
    char_index_at_byte(&cs, 10).is_some() && char_index_at_byte(&cs, 11).is_some() && char_index_at_byte(&cs, 16).is_some()
}

/// Law: every host a firmware receipt may come from has a label of its own.
/// A supported host is never shown as unrecognized, two supported hosts
/// never share a label, and only an unsupported host is unrecognized.
pub proof fn law_each_receipt_host_has_its_own_label(h1: Seq<char>, h2: Seq<char>)
    ensures
        receipt_host_ok(h1) ==> host_label(h1) != "unrecognized host"@,
        !receipt_host_ok(h1) ==> host_label(h1) == "unrecognized host"@,
        receipt_host_ok(h1) && receipt_host_ok(h2) && h1 != h2 ==> host_label(h1) != host_label(h2),
{
    reveal_strlit("windows-x86_64");
    reveal_strlit("macos-x86_64");
    reveal_strlit("macos-aarch64");
    reveal_strlit("linux-x86_64");
    reveal_strlit("linux-aarch64");
    reveal_strlit("Windows x86-64");
    reveal_strlit("Intel macOS");
    reveal_strlit("Apple-silicon macOS");
    reveal_strlit("Linux x86-64");
    reveal_strlit("Linux Arm64");
    reveal_strlit("unrecognized host");
    assert("windows-x86_64"@.len() != "macos-x86_64"@.len());
    assert("windows-x86_64"@.len() != "macos-aarch64"@.len());
    assert("windows-x86_64"@.len() != "linux-x86_64"@.len());
    assert("windows-x86_64"@.len() != "linux-aarch64"@.len());
    assert("macos-x86_64"@.len() != "macos-aarch64"@.len());
    assert("macos-x86_64"@[0] != "linux-x86_64"@[0]);
    assert("macos-x86_64"@.len() != "linux-aarch64"@.len());
    assert("macos-aarch64"@.len() != "linux-x86_64"@.len());
    assert("macos-aarch64"@[0] != "linux-aarch64"@[0]);
    assert("linux-x86_64"@.len() != "linux-aarch64"@.len());
    assert("Windows x86-64"@.len() != "Intel macOS"@.len());
    assert("Windows x86-64"@.len() != "Apple-silicon macOS"@.len());
    assert("Windows x86-64"@.len() != "Linux x86-64"@.len());
    assert("Windows x86-64"@.len() != "Linux Arm64"@.len());
    assert("Windows x86-64"@.len() != "unrecognized host"@.len());
    assert("Intel macOS"@.len() != "Apple-silicon macOS"@.len());
    assert("Intel macOS"@.len() != "Linux x86-64"@.len());
    assert("Intel macOS"@[0] != "Linux Arm64"@[0]);
    assert("Intel macOS"@.len() != "unrecognized host"@.len());
    assert("Apple-silicon macOS"@.len() != "Linux x86-64"@.len());
    assert("Apple-silicon macOS"@.len() != "Linux Arm64"@.len());
    assert("Apple-silicon macOS"@.len() != "unrecognized host"@.len());
    assert("Linux x86-64"@.len() != "Linux Arm64"@.len());
    assert("Linux x86-64"@.len() != "unrecognized host"@.len());
    assert("Linux Arm64"@.len() != "unrecognized host"@.len());
}

/// The GitHub event kinds the public activity feed describes in words.
pub open spec fn described_event_kind(kind: Seq<char>) -> bool {
    ||| kind == "PushEvent"@
    ||| kind == "PullRequestEvent"@
    ||| kind == "CreateEvent"@
    ||| kind == "DeleteEvent"@
    ||| kind == "ReleaseEvent"@
    ||| kind == "IssuesEvent"@
    ||| kind == "IssueCommentEvent"@
    ||| kind == "ForkEvent"@
    ||| kind == "WatchEvent"@
}

/// Law: every event kind the feed describes has a label of its own. A
/// described kind is never shown as generic activity, two described kinds
/// never share a label, and only other kinds get the generic label.
pub proof fn law_each_described_event_has_its_own_label(k1: Seq<char>, k2: Seq<char>)
    ensures
        described_event_kind(k1) ==> activity_text(k1) != "recorded public activity"@,
        !described_event_kind(k1) ==> activity_text(k1) == "recorded public activity"@,
        described_event_kind(k1) && described_event_kind(k2) && k1 != k2 ==> activity_text(k1) != activity_text(k2),
{
    reveal_strlit("PushEvent");
    reveal_strlit("PullRequestEvent");
    reveal_strlit("CreateEvent");
    reveal_strlit("DeleteEvent");
    reveal_strlit("ReleaseEvent");
    reveal_strlit("IssuesEvent");
    reveal_strlit("IssueCommentEvent");
    reveal_strlit("ForkEvent");
    reveal_strlit("WatchEvent");
    reveal_strlit("pushed code");
    reveal_strlit("updated a pull request");
    reveal_strlit("created a branch or tag");
    reveal_strlit("deleted a branch or tag");
    reveal_strlit("published a release");
    reveal_strlit("updated an issue");
    reveal_strlit("commented on an issue");
    reveal_strlit("created a fork");
    reveal_strlit("received a star");
    reveal_strlit("recorded public activity");
    assert("PushEvent"@.len() != "PullRequestEvent"@.len());
    assert("PushEvent"@.len() != "CreateEvent"@.len());
    assert("PushEvent"@.len() != "DeleteEvent"@.len());
    assert("PushEvent"@.len() != "ReleaseEvent"@.len());
    assert("PushEvent"@.len() != "IssuesEvent"@.len());
    assert("PushEvent"@.len() != "IssueCommentEvent"@.len());
    assert("PushEvent"@[0] != "ForkEvent"@[0]);
    assert("PushEvent"@.len() != "WatchEvent"@.len());
    assert("PullRequestEvent"@.len() != "CreateEvent"@.len());
    assert("PullRequestEvent"@.len() != "DeleteEvent"@.len());
    assert("PullRequestEvent"@.len() != "ReleaseEvent"@.len());
    assert("PullRequestEvent"@.len() != "IssuesEvent"@.len());
    assert("PullRequestEvent"@.len() != "IssueCommentEvent"@.len());
    assert("PullRequestEvent"@.len() != "ForkEvent"@.len());
    assert("PullRequestEvent"@.len() != "WatchEvent"@.len());
    assert("CreateEvent"@[0] != "DeleteEvent"@[0]);
    assert("CreateEvent"@.len() != "ReleaseEvent"@.len());
    assert("CreateEvent"@[0] != "IssuesEvent"@[0]);
    assert("CreateEvent"@.len() != "IssueCommentEvent"@.len());
    assert("CreateEvent"@.len() != "ForkEvent"@.len());
    assert("CreateEvent"@.len() != "WatchEvent"@.len());
    assert("DeleteEvent"@.len() != "ReleaseEvent"@.len());
    assert("DeleteEvent"@[0] != "IssuesEvent"@[0]);
    assert("DeleteEvent"@.len() != "IssueCommentEvent"@.len());
    assert("DeleteEvent"@.len() != "ForkEvent"@.len());
    assert("DeleteEvent"@.len() != "WatchEvent"@.len());
    assert("ReleaseEvent"@.len() != "IssuesEvent"@.len());
    assert("ReleaseEvent"@.len() != "IssueCommentEvent"@.len());
    assert("ReleaseEvent"@.len() != "ForkEvent"@.len());
    assert("ReleaseEvent"@.len() != "WatchEvent"@.len());
    assert("IssuesEvent"@.len() != "IssueCommentEvent"@.len());
    assert("IssuesEvent"@.len() != "ForkEvent"@.len());
    assert("IssuesEvent"@.len() != "WatchEvent"@.len());
    assert("IssueCommentEvent"@.len() != "ForkEvent"@.len());
    assert("IssueCommentEvent"@.len() != "WatchEvent"@.len());
    assert("ForkEvent"@.len() != "WatchEvent"@.len());
    assert("pushed code"@.len() != "updated a pull request"@.len());
    assert("pushed code"@.len() != "created a branch or tag"@.len());
    assert("pushed code"@.len() != "deleted a branch or tag"@.len());
    assert("pushed code"@.len() != "published a release"@.len());
    assert("pushed code"@.len() != "updated an issue"@.len());
    assert("pushed code"@.len() != "commented on an issue"@.len());
    assert("pushed code"@.len() != "created a fork"@.len());
    assert("pushed code"@.len() != "received a star"@.len());
    assert("pushed code"@.len() != "recorded public activity"@.len());
    assert("updated a pull request"@.len() != "created a branch or tag"@.len());
    assert("updated a pull request"@.len() != "deleted a branch or tag"@.len());
    assert("updated a pull request"@.len() != "published a release"@.len());
    assert("updated a pull request"@.len() != "updated an issue"@.len());
    assert("updated a pull request"@.len() != "commented on an issue"@.len());
    assert("updated a pull request"@.len() != "created a fork"@.len());
    assert("updated a pull request"@.len() != "received a star"@.len());
    assert("updated a pull request"@.len() != "recorded public activity"@.len());
    assert("created a branch or tag"@[0] != "deleted a branch or tag"@[0]);
    assert("created a branch or tag"@.len() != "published a release"@.len());
    assert("created a branch or tag"@.len() != "updated an issue"@.len());
    assert("created a branch or tag"@.len() != "commented on an issue"@.len());
    assert("created a branch or tag"@.len() != "created a fork"@.len());
    assert("created a branch or tag"@.len() != "received a star"@.len());
    assert("created a branch or tag"@.len() != "recorded public activity"@.len());
    assert("deleted a branch or tag"@.len() != "published a release"@.len());
    assert("deleted a branch or tag"@.len() != "updated an issue"@.len());
    assert("deleted a branch or tag"@.len() != "commented on an issue"@.len());
    assert("deleted a branch or tag"@.len() != "created a fork"@.len());
    assert("deleted a branch or tag"@.len() != "received a star"@.len());
    assert("deleted a branch or tag"@.len() != "recorded public activity"@.len());
    assert("published a release"@.len() != "updated an issue"@.len());
    assert("published a release"@.len() != "commented on an issue"@.len());
    assert("published a release"@.len() != "created a fork"@.len());
    assert("published a release"@.len() != "received a star"@.len());
    assert("published a release"@.len() != "recorded public activity"@.len());
    assert("updated an issue"@.len() != "commented on an issue"@.len());
    assert("updated an issue"@.len() != "created a fork"@.len());
    assert("updated an issue"@.len() != "received a star"@.len());
    assert("updated an issue"@.len() != "recorded public activity"@.len());
    assert("commented on an issue"@.len() != "created a fork"@.len());
    assert("commented on an issue"@.len() != "received a star"@.len());
    assert("commented on an issue"@.len() != "recorded public activity"@.len());
    assert("created a fork"@.len() != "received a star"@.len());
    assert("created a fork"@.len() != "recorded public activity"@.len());
    assert("received a star"@.len() != "recorded public activity"@.len());
}

} // verus!
