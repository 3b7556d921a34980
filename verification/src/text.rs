//! Character-level helpers over `str` and `String`, with their views as
//! sequences of `char`.

use vstd::prelude::*;

verus! {

/// `String::push` appends one character.
pub assume_specification[ String::push ](s: &mut String, ch: char)
    ensures
        final(s)@ == old(s)@.push(ch),
;

/// The characters of `s`, as a vector.
pub fn chars_of(s: &str) -> (r: Vec<char>)
    ensures
        r@ == s@,
{
    let mut out: Vec<char> = Vec::new();
    for c in iter: s.chars()
        invariant
            out@ == iter.seq().take(iter.index() as int),
            iter.seq() == s@,
    {
        out.push(c);
    }
    out
}


/// Whether two character vectors hold the same characters.
pub fn chars_eq(a: &Vec<char>, b: &Vec<char>) -> (r: bool)
    ensures
        r == (a@ == b@),
{
    if a.len() != b.len() {
        return false;
    }
    let mut i: usize = 0;
    while i < a.len()
        invariant
            a.len() == b.len(),
            i <= a.len(),
            forall|j: int| 0 <= j < i ==> a@[j] == b@[j],
        decreases a.len() - i,
    {
        if a[i] != b[i] {
            return false;
        }
        i = i + 1;
    }
    assert(a@ =~= b@);
    true
}

/// Whether two string slices hold the same characters.
pub fn str_eq(a: &str, b: &str) -> (r: bool)
    ensures
        r == (a@ == b@),
{
    let ca = chars_of(a);
    let cb = chars_of(b);
    chars_eq(&ca, &cb)
}

/// The views of a sequence of strings.
pub open spec fn views(v: Seq<String>) -> Seq<Seq<char>> {
    v.map_values(|s: String| s@)
}

/// The first position of `name` among `names`, if it occurs.
pub fn index_of(names: &Vec<String>, name: &str) -> (r: Option<usize>)
    ensures
        match r {
            Some(i) => i < names.len() && names@[i as int]@ == name@ && forall|j: int|
                0 <= j < i ==> names@[j]@ != name@,
            None => forall|j: int| 0 <= j < names.len() ==> names@[j]@ != name@,
        },
{
    let mut i: usize = 0;
    while i < names.len()
        invariant
            i <= names.len(),
            forall|j: int| 0 <= j < i ==> names@[j]@ != name@,
        decreases names.len() - i,
    {
        if str_eq(names[i].as_str(), name) {
            return Some(i);
        }
        i = i + 1;
    }
    None
}

/// `p` is a prefix of `s`.
pub open spec fn has_prefix(s: Seq<char>, p: Seq<char>) -> bool {
    p.len() <= s.len() && s.subrange(0, p.len() as int) == p
}

/// `p` is a suffix of `s`.
pub open spec fn has_suffix(s: Seq<char>, p: Seq<char>) -> bool {
    p.len() <= s.len() && s.subrange(s.len() - p.len(), s.len() as int) == p
}

/// `p` occurs in `s` starting at position `i`.
pub open spec fn occurs_at(s: Seq<char>, p: Seq<char>, i: int) -> bool {
    0 <= i && i + p.len() <= s.len() && s.subrange(i, i + p.len()) == p
}

/// `p` occurs somewhere in `s`.
pub open spec fn has_infix(s: Seq<char>, p: Seq<char>) -> bool {
    exists|i: int| #[trigger] occurs_at(s, p, i)
}

/// Unicode `White_Space`, which `char::is_whitespace` and `str::trim` use.
pub open spec fn is_white(c: char) -> bool {
    ||| ('\u{9}' <= c && c <= '\u{d}')
    ||| c == ' '
    ||| c == '\u{85}'
    ||| c == '\u{a0}'
    ||| c == '\u{1680}'
    ||| ('\u{2000}' <= c && c <= '\u{200a}')
    ||| c == '\u{2028}'
    ||| c == '\u{2029}'
    ||| c == '\u{202f}'
    ||| c == '\u{205f}'
    ||| c == '\u{3000}'
}

/// Nothing but white space: what `trim()` empties.
pub open spec fn is_blank(s: Seq<char>) -> bool {
    forall|i: int| 0 <= i < s.len() ==> is_white(#[trigger] s[i])
}

pub open spec fn is_ascii_digit(c: char) -> bool {
    '0' <= c && c <= '9'
}

pub open spec fn is_ascii_lower(c: char) -> bool {
    'a' <= c && c <= 'z'
}

pub open spec fn is_ascii_upper(c: char) -> bool {
    'A' <= c && c <= 'Z'
}

pub open spec fn is_ascii_alnum(c: char) -> bool {
    is_ascii_digit(c) || is_ascii_lower(c) || is_ascii_upper(c)
}

pub open spec fn is_ascii_hex(c: char) -> bool {
    is_ascii_digit(c) || ('a' <= c && c <= 'f') || ('A' <= c && c <= 'F')
}

/// ASCII lowercase of one character; everything else is unchanged.
pub open spec fn lower_char(c: char) -> char {
    if is_ascii_upper(c) {
        ((c as u32) + 32) as char
    } else {
        c
    }
}

/// ASCII lowercase of a string.
pub open spec fn lower(s: Seq<char>) -> Seq<char> {
    s.map_values(|c: char| lower_char(c))
}

/// The concatenation of a sequence of strings.
pub open spec fn concat(parts: Seq<Seq<char>>) -> Seq<char>
    decreases parts.len(),
{
    if parts.len() == 0 {
        Seq::empty()
    } else {
        concat(parts.drop_last()) + parts.last()
    }
}

pub fn is_white_char(c: char) -> (r: bool)
    ensures
        r == is_white(c),
{
    ('\u{9}' <= c && c <= '\u{d}') || c == ' ' || c == '\u{85}' || c == '\u{a0}' || c == '\u{1680}'
        || ('\u{2000}' <= c && c <= '\u{200a}') || c == '\u{2028}' || c == '\u{2029}' || c
        == '\u{202f}' || c == '\u{205f}' || c == '\u{3000}'
}

pub fn is_ascii_digit_char(c: char) -> (r: bool)
    ensures
        r == is_ascii_digit(c),
{
    '0' <= c && c <= '9'
}

pub fn is_ascii_lower_char(c: char) -> (r: bool)
    ensures
        r == is_ascii_lower(c),
{
    'a' <= c && c <= 'z'
}

pub fn is_ascii_alnum_char(c: char) -> (r: bool)
    ensures
        r == is_ascii_alnum(c),
{
    ('0' <= c && c <= '9') || ('a' <= c && c <= 'z') || ('A' <= c && c <= 'Z')
}

pub fn is_ascii_hex_char(c: char) -> (r: bool)
    ensures
        r == is_ascii_hex(c),
{
    ('0' <= c && c <= '9') || ('a' <= c && c <= 'f') || ('A' <= c && c <= 'F')
}

/// Whether `s` is empty after trimming white space.
pub fn blank(s: &str) -> (r: bool)
    ensures
        r == is_blank(s@),
{
    let cs = chars_of(s);
    let mut i: usize = 0;
    while i < cs.len()
        invariant
            cs@ == s@,
            i <= cs.len(),
            forall|j: int| 0 <= j < i ==> is_white(#[trigger] cs@[j]),
        decreases cs.len() - i,
    {
        if !is_white_char(cs[i]) {
            return false;
        }
        i = i + 1;
    }
    true
}

/// Whether `p` occurs in `cs` at position `i`.
pub fn chars_occur_at(cs: &Vec<char>, p: &Vec<char>, i: usize) -> (r: bool)
    ensures
        r == occurs_at(cs@, p@, i as int),
{
    if i > cs.len() || p.len() > cs.len() - i {
        return false;
    }
    let mut j: usize = 0;
    while j < p.len()
        invariant
            i + p.len() <= cs.len(),
            j <= p.len(),
            forall|k: int| 0 <= k < j ==> cs@[i + k] == p@[k],
        decreases p.len() - j,
    {
        if cs[i + j] != p[j] {
            assert(cs@.subrange(i as int, i + p.len())[j as int] != p@[j as int]);
            return false;
        }
        j = j + 1;
    }
    assert(cs@.subrange(i as int, i + p.len()) =~= p@);
    true
}

/// Whether `s` starts with `p`.
pub fn starts_with(s: &str, p: &str) -> (r: bool)
    ensures
        r == has_prefix(s@, p@),
{
    let cs = chars_of(s);
    let ps = chars_of(p);
    chars_occur_at(&cs, &ps, 0)
}

/// Whether `s` ends with `p`.
pub fn ends_with(s: &str, p: &str) -> (r: bool)
    ensures
        r == has_suffix(s@, p@),
{
    let cs = chars_of(s);
    let ps = chars_of(p);
    if ps.len() > cs.len() {
        return false;
    }
    chars_occur_at(&cs, &ps, cs.len() - ps.len())
}

/// The first position at or after `from` where `p` occurs in `cs`.
pub fn find_from(cs: &Vec<char>, p: &Vec<char>, from: usize) -> (r: Option<usize>)
    ensures
        match r {
            Some(i) => from <= i && occurs_at(cs@, p@, i as int) && forall|k: int|
                from <= k < i ==> !#[trigger] occurs_at(cs@, p@, k),
            None => forall|k: int| from <= k ==> !#[trigger] occurs_at(cs@, p@, k),
        },
{
    if from > cs.len() {
        return None;
    }
    let mut i: usize = from;
    while i < cs.len()
        invariant
            from <= i <= cs.len(),
            forall|k: int| from <= k < i ==> !#[trigger] occurs_at(cs@, p@, k),
        decreases cs.len() - i,
    {
        if chars_occur_at(cs, p, i) {
            return Some(i);
        }
        i = i + 1;
    }
    if chars_occur_at(cs, p, i) {
        return Some(i);
    }
    None
}

/// Whether `p` occurs anywhere in `s`.
pub fn contains_str(s: &str, p: &str) -> (r: bool)
    ensures
        r == has_infix(s@, p@),
{
    let cs = chars_of(s);
    let ps = chars_of(p);
    match find_from(&cs, &ps, 0) {
        Some(i) => true,
        None => {
            assert forall|k: int| !#[trigger] occurs_at(s@, p@, k) by {
                if k < 0 {
                }
            }
            false
        },
    }
}

/// Whether the character `c` occurs in `s`.
pub fn contains_char(s: &str, c: char) -> (r: bool)
    ensures
        r == s@.contains(c),
{
    let cs = chars_of(s);
    let mut i: usize = 0;
    while i < cs.len()
        invariant
            cs@ == s@,
            i <= cs.len(),
            forall|j: int| 0 <= j < i ==> cs@[j] != c,
        decreases cs.len() - i,
    {
        if cs[i] == c {
            return true;
        }
        i = i + 1;
    }
    false
}

/// A string holding exactly the given characters.
pub fn string_of(cs: &Vec<char>) -> (r: String)
    ensures
        r@ == cs@,
{
    let mut out = String::new();
    let mut i: usize = 0;
    while i < cs.len()
        invariant
            i <= cs.len(),
            out@ == cs@.subrange(0, i as int),
        decreases cs.len() - i,
    {
        out.push(cs[i]);
        assert(out@ =~= cs@.subrange(0, i + 1));
        i = i + 1;
    }
    assert(cs@.subrange(0, cs.len() as int) =~= cs@);
    out
}

/// ASCII lowercase copy of `s`.
pub fn to_lower(s: &str) -> (r: String)
    ensures
        r@ == lower(s@),
{
    let cs = chars_of(s);
    let mut out: Vec<char> = Vec::new();
    let mut i: usize = 0;
    while i < cs.len()
        invariant
            cs@ == s@,
            i <= cs.len(),
            out@ =~= lower(s@).subrange(0, i as int),
        decreases cs.len() - i,
    {
        let c = cs[i];
        let l = if 'A' <= c && c <= 'Z' {
            char_from_code((c as u32) + 32)
        } else {
            c
        };
        out.push(l);
        i = i + 1;
    }
    string_of(&out)
}

/// The character with code point `u`, for an ASCII code point.
pub fn char_from_code(u: u32) -> (c: char)
    requires
        u < 128,
    ensures
        c == u as char,
{
    let b: u8 = u as u8;
    b as char
}

/// The concatenation of `parts`.
pub fn cat(parts: &[&str]) -> (r: String)
    ensures
        r@ == concat(parts@.map_values(|p: &str| p@)),
{
    let ghost views = parts@.map_values(|p: &str| p@);
    let mut out = String::new();
    let mut i: usize = 0;
    while i < parts.len()
        invariant
            i <= parts.len(),
            views == parts@.map_values(|p: &str| p@),
            out@ == concat(views.subrange(0, i as int)),
        decreases parts.len() - i,
    {
        out.append(parts[i]);
        assert(views.subrange(0, i + 1).drop_last() =~= views.subrange(0, i as int));
        i = i + 1;
    }
    assert(views.subrange(0, parts.len() as int) =~= views);
    out
}

/// Lexicographic order by code point, which is the byte order of the UTF-8
/// encodings and so the order of `String`'s `Ord`.
pub open spec fn text_lt(a: Seq<char>, b: Seq<char>) -> bool
    decreases a.len(),
{
    if a.len() == 0 {
        b.len() > 0
    } else if b.len() == 0 {
        false
    } else if a[0] != b[0] {
        a[0] < b[0]
    } else {
        text_lt(a.drop_first(), b.drop_first())
    }
}

pub open spec fn text_le(a: Seq<char>, b: Seq<char>) -> bool {
    a == b || text_lt(a, b)
}

/// The strings are in non-decreasing lexicographic order.
pub open spec fn sorted_text(s: Seq<String>) -> bool {
    forall|i: int, j: int| 0 <= i < j < s.len() ==> text_le((#[trigger] s[i])@, (#[trigger] s[j])@)
}

pub proof fn lemma_text_lt_trans(a: Seq<char>, b: Seq<char>, c: Seq<char>)
    requires
        text_lt(a, b),
        text_lt(b, c),
    ensures
        text_lt(a, c),
    decreases a.len(),
{
    if a.len() > 0 && b.len() > 0 && c.len() > 0 && a[0] == b[0] && b[0] == c[0] {
        lemma_text_lt_trans(a.drop_first(), b.drop_first(), c.drop_first());
    }
}

pub proof fn lemma_text_lt_total(a: Seq<char>, b: Seq<char>)
    ensures
        a == b || text_lt(a, b) || text_lt(b, a),
        !(text_lt(a, b) && text_lt(b, a)),
        !text_lt(a, a),
    decreases a.len(),
{
    if a.len() > 0 && b.len() > 0 {
        if a[0] == b[0] {
            lemma_text_lt_total(a.drop_first(), b.drop_first());
            if a.drop_first() == b.drop_first() {
                assert forall|k: int| 0 <= k < a.len() implies a[k] == b[k] by {
                    if k > 0 {
                        assert(a[k] == a.drop_first()[k - 1]);
                        assert(b[k] == b.drop_first()[k - 1]);
                    }
                }
                assert(a =~= b);
            }
        }
    } else if a.len() == 0 && b.len() == 0 {
        assert(a =~= b);
    }
    if a.len() > 0 {
        lemma_text_lt_total(a.drop_first(), a.drop_first());
    }
}

/// Whether `a` sorts strictly before `b`.
pub fn text_less(a: &str, b: &str) -> (r: bool)
    ensures
        r == text_lt(a@, b@),
{
    let ca = chars_of(a);
    let cb = chars_of(b);
    assert(a@.subrange(0, a@.len() as int) =~= a@);
    assert(b@.subrange(0, b@.len() as int) =~= b@);
    let mut i: usize = 0;
    while i < ca.len() && i < cb.len() && ca[i] == cb[i]
        invariant
            i <= ca.len(),
            i <= cb.len(),
            ca@ == a@,
            cb@ == b@,
            forall|k: int| 0 <= k < i ==> ca@[k] == cb@[k],
            text_lt(a@, b@) == text_lt(a@.subrange(i as int, a@.len() as int), b@.subrange(i as int, b@.len() as int)),
        decreases ca.len() - i,
    {
        let ghost sa = a@.subrange(i as int, a@.len() as int);
        let ghost sb = b@.subrange(i as int, b@.len() as int);
        assert(sa.drop_first() =~= a@.subrange(i + 1, a@.len() as int));
        assert(sb.drop_first() =~= b@.subrange(i + 1, b@.len() as int));
        i = i + 1;
    }
    let ghost sa = a@.subrange(i as int, a@.len() as int);
    let ghost sb = b@.subrange(i as int, b@.len() as int);
    if i == ca.len() {
        i < cb.len()
    } else if i == cb.len() {
        false
    } else {
        assert(sa[0] == ca@[i as int] && sb[0] == cb@[i as int]);
        ca[i] < cb[i]
    }
}

/// Sorts strings into lexicographic order, keeping every string.
pub fn sort_strings(v: &mut Vec<String>)
    ensures
        final(v)@.to_multiset() == old(v)@.to_multiset(),
        views(final(v)@).to_multiset() == views(old(v)@).to_multiset(),
        sorted_text(final(v)@),
{
    broadcast use vstd::seq_lib::to_multiset_insert;

    let mut out: Vec<String> = Vec::new();
    assert(out@ =~= v@.subrange(0, 0));
    let mut i: usize = 0;
    while i < v.len()
        invariant
            i <= v.len(),
            out@.to_multiset() == v@.subrange(0, i as int).to_multiset(),
            views(out@).to_multiset() == views(v@.subrange(0, i as int)).to_multiset(),
            sorted_text(out@),
        decreases v.len() - i,
    {
        let x = v[i].clone();
        let mut k: usize = 0;
        while k < out.len() && !text_less(x.as_str(), out[k].as_str())
            invariant
                k <= out.len(),
                forall|q: int| 0 <= q < k ==> !text_lt(x@, (#[trigger] out@[q])@),
            decreases out.len() - k,
        {
            k = k + 1;
        }
        let ghost before = out@;
        out.insert(k, x);
        proof {
            assert(v@.subrange(0, i + 1) =~= v@.subrange(0, i as int).push(v@[i as int]));
            vstd::seq_lib::to_multiset_build(v@.subrange(0, i as int), v@[i as int]);
            vstd::seq_lib::to_multiset_insert(before, k as int, x);
            assert(out@.to_multiset() == v@.subrange(0, i + 1).to_multiset());
            assert(views(out@) =~= views(before).insert(k as int, x@));
            assert(views(v@.subrange(0, i + 1)) =~= views(v@.subrange(0, i as int)).push(v@[i as int]@));
            vstd::seq_lib::to_multiset_build(views(v@.subrange(0, i as int)), v@[i as int]@);
            vstd::seq_lib::to_multiset_insert(views(before), k as int, x@);
            assert forall|a: int, b: int| 0 <= a < b < out@.len() implies text_le((#[trigger] out@[a])@, (#[trigger] out@[b])@) by {
                if a < k && b == k {
                    lemma_text_lt_total(x@, before[a]@);
                } else if a == k as int && b > k {
                    assert(out@[b] == before[b - 1]);
                    if k < before.len() {
                        lemma_text_lt_total(before[k as int]@, before[k as int]@);
                        if b - 1 > k {
                            assert(text_le(before[k as int]@, before[b - 1]@));
                            if text_lt(before[k as int]@, before[b - 1]@) {
                                lemma_text_lt_trans(x@, before[k as int]@, before[b - 1]@);
                            }
                        }
                    }
                } else if a < k && b > k {
                    assert(out@[b] == before[b - 1]);
                } else if b < k {
                } else {
                    assert(out@[a] == before[a - 1]);
                    assert(out@[b] == before[b - 1]);
                }
            }
        }
        i = i + 1;
    }
    proof {
        assert(v@.subrange(0, v.len() as int) =~= v@);
    }
    *v = out;
}

/// Lexicographic order by code point, as a relation.
pub open spec fn text_order() -> spec_fn(Seq<char>, Seq<char>) -> bool {
    |a: Seq<char>, b: Seq<char>| text_le(a, b)
}

/// Lexicographic order by code point is a total order.
pub proof fn lemma_text_order_total()
    ensures
        vstd::relations::total_ordering(text_order()),
{
    let r = text_order();
    assert forall|x: Seq<char>| #[trigger] r(x, x) by {}
    assert forall|x: Seq<char>, y: Seq<char>| #[trigger] r(x, y) && #[trigger] r(y, x) implies x == y by {
        lemma_text_lt_total(x, y);
    }
    assert forall|x: Seq<char>, y: Seq<char>| #[trigger] r(x, y) || #[trigger] r(y, x) by {
        lemma_text_lt_total(x, y);
    }
    assert forall|x: Seq<char>, y: Seq<char>, z: Seq<char>| #[trigger] r(x, y) && #[trigger] r(y, z) implies r(x, z) by {
        if x != y && y != z {
            lemma_text_lt_trans(x, y, z);
        }
    }
}

/// Sorts strings into lexicographic order: the texts come out as the sorted
/// sequence of the texts that went in.
pub fn sort_texts(v: &mut Vec<String>)
    ensures
        views(final(v)@) == views(old(v)@).sort_by(text_order()),
{
    let ghost before = views(v@);
    sort_strings(v);
    proof {
        lemma_text_order_total();
        before.lemma_sort_by_ensures(text_order());
        assert(vstd::relations::sorted_by(views(v@), text_order())) by {
            assert forall|i: int, j: int| 0 <= i < j < views(v@).len() implies #[trigger] text_order()(views(v@)[i], views(v@)[j]) by {
                assert(text_le(v@[i]@, v@[j]@));
            }
        }
        vstd::seq_lib::lemma_sorted_unique(views(v@), before.sort_by(text_order()), text_order());
    }
}

/// A segment of `s`, between `/` separators, is exactly `..`.
pub open spec fn has_parent_segment(s: Seq<char>) -> bool {
    exists|i: int| #[trigger] parent_segment_at(s, i)
}

/// The segment of `s` that starts at `i` is exactly `..`.
pub open spec fn parent_segment_at(s: Seq<char>, i: int) -> bool {
    occurs_at(s, seq!['.', '.'], i) && (i == 0 || s[i - 1] == '/') && (i + 2 == s.len() || s[i + 2] == '/')
}

/// Whether some `/`-separated segment of `s` is exactly `..`.
pub fn parent_segment(s: &str) -> (r: bool)
    ensures
        r == has_parent_segment(s@),
{
    let cs = chars_of(s);
    let dots = vec!['.', '.'];
    assert(dots@ =~= seq!['.', '.']);
    let mut i: usize = 0;
    while i < cs.len()
        invariant
            cs@ == s@,
            dots@ == seq!['.', '.'],
            i <= cs.len(),
            forall|k: int| 0 <= k < i ==> !#[trigger] parent_segment_at(s@, k),
        decreases cs.len() - i,
    {
        if chars_occur_at(&cs, &dots, i) && (i == 0 || cs[i - 1] == '/') && (i + 2 == cs.len() || (i + 2
            < cs.len() && cs[i + 2] == '/')) {
            assert(parent_segment_at(s@, i as int));
            return true;
        }
        i = i + 1;
    }
    assert forall|k: int| !#[trigger] parent_segment_at(s@, k) by {
        if k >= cs.len() {
            assert(!occurs_at(s@, seq!['.', '.'], k));
        }
    }
    false
}

/// Whether a sequence of strings holds `s`.
pub fn holds_string(v: &Vec<String>, s: &str) -> (r: bool)
    ensures
        r == views(v@).contains(s@),
{
    let mut i: usize = 0;
    while i < v.len()
        invariant
            i <= v.len(),
            forall|j: int| 0 <= j < i ==> v@[j]@ != s@,
        decreases v.len() - i,
    {
        if str_eq(v[i].as_str(), s) {
            assert(views(v@)[i as int] == s@);
            return true;
        }
        i = i + 1;
    }
    assert forall|j: int| 0 <= j < views(v@).len() implies views(v@)[j] != s@ by {
        assert(views(v@)[j] == v@[j]@);
    }
    false
}

/// The first `n` items hold no repeat.
pub open spec fn distinct_upto<T>(s: Seq<T>, n: int) -> bool {
    forall|a: int, b: int| 0 <= a < b < n ==> s[a] != s[b]
}

/// Recording one more item keeps the prefix free of repeats exactly when the
/// item was not seen before.
pub proof fn lemma_distinct_step<T>(s: Seq<T>, n: int)
    requires
        0 <= n < s.len(),
    ensures
        distinct_upto(s, n + 1) == (distinct_upto(s, n) && forall|a: int| 0 <= a < n ==> s[a] != s[n]),
{
}

pub fn cat2(a: &str, b: &str) -> (r: String)
    ensures
        r@ == a@ + b@,
{
    let mut out = String::from_str(a);
    out.append(b);
    out
}

pub fn cat3(a: &str, b: &str, c: &str) -> (r: String)
    ensures
        r@ == a@ + b@ + c@,
{
    let mut out = String::from_str(a);
    out.append(b);
    out.append(c);
    out
}

pub fn cat4(a: &str, b: &str, c: &str, d: &str) -> (r: String)
    ensures
        r@ == a@ + b@ + c@ + d@,
{
    let mut out = String::from_str(a);
    out.append(b);
    out.append(c);
    out.append(d);
    out
}

pub fn cat5(a: &str, b: &str, c: &str, d: &str, e: &str) -> (r: String)
    ensures
        r@ == a@ + b@ + c@ + d@ + e@,
{
    let mut out = String::from_str(a);
    out.append(b);
    out.append(c);
    out.append(d);
    out.append(e);
    out
}

pub fn cat6(a: &str, b: &str, c: &str, d: &str, e: &str, f: &str) -> (r: String)
    ensures
        r@ == a@ + b@ + c@ + d@ + e@ + f@,
{
    let mut out = String::from_str(a);
    out.append(b);
    out.append(c);
    out.append(d);
    out.append(e);
    out.append(f);
    out
}

/// `after` is `before`, with `msg` appended when `bad`.
pub open spec fn noted(before: Seq<String>, after: Seq<String>, bad: bool, msg: Seq<char>) -> bool {
    if bad {
        &&& after.len() == before.len() + 1
        &&& after.drop_last() == before
        &&& after.last()@ == msg
    } else {
        after == before
    }
}

/// Appends `msg` to `errors` when `bad`.
pub fn note(errors: &mut Vec<String>, bad: bool, msg: String)
    ensures
        noted(old(errors)@, final(errors)@, bad, msg@),
        views(final(errors)@) == views(old(errors)@) + flag(bad, msg@),
{
    if bad {
        errors.push(msg);
        assert(errors@.drop_last() =~= old(errors)@);
        assert(views(errors@) =~= views(old(errors)@) + flag(bad, msg@));
    } else {
        assert(views(errors@) =~= views(old(errors)@) + flag(bad, msg@));
    }
}

/// Records `x` among `seen`, and tells whether it was already there.
pub fn remember(seen: &mut Vec<String>, x: &str) -> (dup: bool)
    ensures
        dup == views(old(seen)@).contains(x@),
        forall|y: Seq<char>| #[trigger] views(final(seen)@).contains(y) <==> (views(old(seen)@).contains(y) || y == x@),
{
    if holds_string(seen, x) {
        true
    } else {
        let ghost before = views(seen@);
        seen.push(String::from_str(x));
        proof {
            assert(views(seen@) =~= before.push(x@));
            assert forall|y: Seq<char>| #[trigger] views(seen@).contains(y) <==> (before.contains(y) || y == x@) by {
                if before.contains(y) {
                    let k = choose|k: int| 0 <= k < before.len() && before[k] == y;
                    assert(views(seen@)[k] == y);
                }
                if y == x@ {
                    assert(views(seen@)[before.len() as int] == y);
                }
                if views(seen@).contains(y) {
                    let k = choose|k: int| 0 <= k < views(seen@).len() && views(seen@)[k] == y;
                    if k < before.len() {
                        assert(before[k] == y);
                    }
                }
            }
        }
        false
    }
}

/// Appending one string appends its view.
pub proof fn lemma_views_push(v: Seq<String>, x: String)
    ensures
        views(v.push(x)) == views(v).push(x@),
{
    assert(views(v.push(x)) =~= views(v).push(x@));
}

/// Appending one more piece to what was appended after `v0`.
pub proof fn lemma_extend<A>(v0: Seq<A>, acc: Seq<A>, f: Seq<A>)
    ensures
        (v0 + acc) + f == v0 + (acc + f),
{
    assert((v0 + acc) + f =~= v0 + (acc + f));
}

/// The views of two sequences joined are the two views joined.
pub proof fn lemma_views_add(a: Seq<String>, b: Seq<String>)
    ensures
        views(a + b) == views(a) + views(b),
{
    assert(views(a + b) =~= views(a) + views(b));
}

/// Filtering one more item of a prefix keeps it exactly when it passes.
pub proof fn lemma_filter_take_step<A>(s: Seq<A>, p: spec_fn(A) -> bool, i: int)
    requires
        0 <= i < s.len(),
    ensures
        s.take(i + 1).filter(p) == (if p(s[i]) { s.take(i).filter(p).push(s[i]) } else { s.take(i).filter(p) }),
{
    reveal(Seq::filter);
    assert(s.take(i + 1).drop_last() =~= s.take(i));
    assert(s.take(i + 1).last() == s[i]);
}

/// The `/`-separated segment of `s` that starts at `i` is exactly `p`.
pub open spec fn segment_at(s: Seq<char>, i: int, p: Seq<char>) -> bool {
    &&& occurs_at(s, p, i)
    &&& (i == 0 || s[i - 1] == '/')
    &&& (i + p.len() == s.len() || s[i + p.len()] == '/')
}

/// Some `/`-separated segment of `s` is exactly `p`.
pub open spec fn has_segment(s: Seq<char>, p: Seq<char>) -> bool {
    exists|i: int| #[trigger] segment_at(s, i, p)
}

/// Whether the segment of `cs` that starts at `i` is exactly `ps`.
fn segment_starts(cs: &Vec<char>, ps: &Vec<char>, i: usize) -> (r: bool)
    requires
        i <= cs.len(),
    ensures
        r == segment_at(cs@, i as int, ps@),
{
    chars_occur_at(cs, ps, i) && (i == 0 || cs[i - 1] == '/') && (i + ps.len() == cs.len() || cs[i + ps.len()] == '/')
}

/// Whether some `/`-separated segment of `s` is exactly `p`.
pub fn segment_present(s: &str, p: &str) -> (r: bool)
    ensures
        r == has_segment(s@, p@),
{
    let cs = chars_of(s);
    let ps = chars_of(p);
    let mut i: usize = 0;
    while i < cs.len()
        invariant
            cs@ == s@,
            ps@ == p@,
            i <= cs.len(),
            forall|k: int| 0 <= k < i ==> !#[trigger] segment_at(s@, k, p@),
        decreases cs.len() - i,
    {
        if segment_starts(&cs, &ps, i) {
            return true;
        }
        i = i + 1;
    }
    if segment_starts(&cs, &ps, i) {
        return true;
    }
    assert forall|k: int| !#[trigger] segment_at(s@, k, p@) by {
        if k > cs.len() {
            assert(!occurs_at(s@, p@, k));
        }
    }
    false
}

/// `after` extends `before` by zero or more messages, and by none exactly
/// when `ok`.
pub open spec fn grew(before: Seq<String>, after: Seq<String>, ok: bool) -> bool {
    &&& after.len() >= before.len()
    &&& (after.len() == before.len()) <==> ok
}

/// The decimal digit character for `d < 10`.
pub open spec fn digit_char(d: nat) -> char {
    ((d + 48) as u32) as char
}

/// The decimal representation of `n`, without leading zeros.
pub open spec fn decimal_text(n: nat) -> Seq<char>
    decreases n,
{
    if n < 10 {
        seq![digit_char(n)]
    } else {
        decimal_text(n / 10).push(digit_char(n % 10))
    }
}

/// The decimal representation of `n`, as `Display` writes it.
pub fn decimal(n: u64) -> (r: String)
    ensures
        r@ == decimal_text(n as nat),
{
    let mut digits: Vec<char> = Vec::new();
    let mut m: u64 = n;
    let ghost mut rest: Seq<char> = Seq::empty();
    while m >= 10
        invariant
            decimal_text(n as nat) == decimal_text(m as nat) + rest,
            digits@ == rest.reverse(),
        decreases m,
    {
        let d = m % 10;
        let c = char_from_code((d + 48) as u32);
        digits.push(c);
        proof {
            assert(decimal_text(m as nat) == decimal_text((m / 10) as nat).push(digit_char((m % 10) as nat)));
            rest = seq![c] + rest;
            assert(digits@ =~= rest.reverse());
            assert(decimal_text(n as nat) =~= decimal_text((m / 10) as nat) + rest);
        }
        m = m / 10;
    }
    let c = char_from_code((m + 48) as u32);
    digits.push(c);
    proof {
        assert(decimal_text(m as nat) == seq![digit_char(m as nat)]);
        rest = seq![c] + rest;
        assert(digits@ =~= rest.reverse());
        assert(decimal_text(n as nat) =~= rest);
    }
    let mut out = String::new();
    let mut i: usize = digits.len();
    while i > 0
        invariant
            i <= digits.len(),
            digits@ == rest.reverse(),
            out@ == rest.take((digits.len() - i) as int),
            rest.len() == digits.len(),
        decreases i,
    {
        i = i - 1;
        out.push(digits[i]);
        proof {
            assert(out@ =~= rest.take((digits.len() - i) as int));
        }
    }
    assert(rest.take(rest.len() as int) =~= rest);
    out
}

/// Records `x` among `seen`, and tells whether it was already there.
pub fn remember_u32(seen: &mut Vec<u32>, x: u32) -> (dup: bool)
    ensures
        dup == old(seen)@.contains(x),
        forall|y: u32| #[trigger] final(seen)@.contains(y) <==> (old(seen)@.contains(y) || y == x),
{
    let mut i: usize = 0;
    while i < seen.len()
        invariant
            i <= seen.len(),
            forall|j: int| 0 <= j < i ==> seen@[j] != x,
        decreases seen.len() - i,
    {
        if seen[i] == x {
            return true;
        }
        i = i + 1;
    }
    let ghost before = seen@;
    seen.push(x);
    proof {
        assert forall|y: u32| #[trigger] seen@.contains(y) <==> (before.contains(y) || y == x) by {
            if before.contains(y) {
                let k = choose|k: int| 0 <= k < before.len() && before[k] == y;
                assert(seen@[k] == y);
            }
            if y == x {
                assert(seen@[before.len() as int] == y);
            }
            if seen@.contains(y) {
                let k = choose|k: int| 0 <= k < seen@.len() && seen@[k] == y;
                if k < before.len() {
                    assert(before[k] == y);
                }
            }
        }
    }
    false
}

/// Position `a` comes before position `b`: by key, and by position among
/// equal keys.
pub open spec fn key_before(keys: Seq<u32>, a: int, b: int) -> bool {
    keys[a] < keys[b] || (keys[a] == keys[b] && a < b)
}

/// `idx` lists the positions `0..keys.len()` sorted by key, keeping the
/// original order among equal keys: what a stable sort by key gives.
pub open spec fn stable_by_key(keys: Seq<u32>, idx: Seq<usize>) -> bool {
    &&& idx.len() == keys.len()
    &&& forall|k: int| 0 <= k < idx.len() ==> #[trigger] idx[k] < keys.len()
    &&& forall|k: int, l: int| 0 <= k < l < idx.len() ==> key_before(keys, #[trigger] idx[k] as int, #[trigger] idx[l] as int)
}

/// The positions of `keys` in stable sorted order.
pub fn stable_positions(keys: &Vec<u32>) -> (idx: Vec<usize>)
    ensures
        stable_by_key(keys@, idx@),
{
    let mut idx: Vec<usize> = Vec::new();
    let mut i: usize = 0;
    while i < keys.len()
        invariant
            i <= keys.len(),
            idx@.len() == i,
            forall|k: int| 0 <= k < idx@.len() ==> #[trigger] idx@[k] < i,
            forall|k: int, l: int| 0 <= k < l < idx@.len() ==> key_before(keys@, #[trigger] idx@[k] as int, #[trigger] idx@[l] as int),
        decreases keys.len() - i,
    {
        let mut p: usize = 0;
        while p < idx.len() && keys[idx[p]] <= keys[i]
            invariant
                p <= idx@.len(),
                idx@.len() == i,
                i < keys.len(),
                forall|k: int| 0 <= k < idx@.len() ==> #[trigger] idx@[k] < i,
                forall|k: int| 0 <= k < p ==> keys@[#[trigger] idx@[k] as int] <= keys@[i as int],
            decreases idx@.len() - p,
        {
            p = p + 1;
        }
        let ghost before = idx@;
        idx.insert(p, i);
        proof {
            assert(idx@ == before.insert(p as int, i));
            assert forall|k: int| 0 <= k < idx@.len() implies #[trigger] idx@[k] < i + 1 by {
                if k < p {
                    assert(idx@[k] == before[k]);
                } else if k > p {
                    assert(idx@[k] == before[k - 1]);
                }
            }
            assert forall|k: int, l: int| 0 <= k < l < idx@.len() implies key_before(keys@, #[trigger] idx@[k] as int, #[trigger] idx@[l] as int) by {
                if p < idx@.len() - 1 {
                    assert(keys@[before[p as int] as int] > keys@[i as int]);
                }
                if l < p {
                    assert(idx@[k] == before[k] && idx@[l] == before[l]);
                } else if l == p {
                    assert(idx@[k] == before[k]);
                } else if k < p {
                    assert(idx@[k] == before[k] && idx@[l] == before[l - 1]);
                    assert(key_before(keys@, before[k] as int, before[p as int] as int) || p == k);
                    if (k as int) < (p as int) {
                        assert(key_before(keys@, before[p as int] as int, before[l - 1] as int) || l - 1 == p);
                    }
                } else if k == p {
                    assert(idx@[l] == before[l - 1]);
                    assert(key_before(keys@, before[p as int] as int, before[l - 1] as int) || l - 1 == p);
                } else {
                    assert(idx@[k] == before[k - 1] && idx@[l] == before[l - 1]);
                }
            }
        }
        i = i + 1;
    }
    idx
}

/// `parts` joined with `sep` between consecutive parts.
pub open spec fn joined(parts: Seq<Seq<char>>, sep: Seq<char>) -> Seq<char>
    decreases parts.len(),
{
    if parts.len() == 0 {
        Seq::empty()
    } else if parts.len() == 1 {
        parts[0]
    } else {
        joined(parts.drop_last(), sep) + sep + parts.last()
    }
}

/// The strings of `parts` joined with `sep`.
pub fn join(parts: &Vec<String>, sep: &str) -> (r: String)
    ensures
        r@ == joined(views(parts@), sep@),
{
    let mut out = String::new();
    let mut i: usize = 0;
    while i < parts.len()
        invariant
            i <= parts@.len(),
            out@ == joined(views(parts@).take(i as int), sep@),
        decreases parts@.len() - i,
    {
        proof {
            assert(views(parts@).take(i + 1).drop_last() =~= views(parts@).take(i as int));
            assert(views(parts@).take(i + 1).last() == parts@[i as int]@);
        }
        if i > 0 {
            out.append(sep);
        }
        out.append(parts[i].as_str());
        proof {
            if i == 0 {
                assert(out@ =~= joined(views(parts@).take(1), sep@));
            } else {
                assert(out@ =~= joined(views(parts@).take(i + 1), sep@));
            }
        }
        i = i + 1;
    }
    assert(views(parts@).take(parts@.len() as int) =~= views(parts@));
    out
}

/// The characters of `cs` from `a` up to `b`, as a string.
pub fn text_between(cs: &Vec<char>, a: usize, b: usize) -> (r: String)
    requires
        a <= b <= cs@.len(),
    ensures
        r@ == cs@.subrange(a as int, b as int),
{
    let mut out = String::new();
    let mut i: usize = a;
    while i < b
        invariant
            a <= i <= b,
            b <= cs@.len(),
            out@ == cs@.subrange(a as int, i as int),
        decreases b - i,
    {
        out.push(cs[i]);
        proof {
            assert(out@ =~= cs@.subrange(a as int, i + 1));
        }
        i = i + 1;
    }
    out
}

/// `s` without its leading white space.
pub open spec fn trim_start_text(s: Seq<char>) -> Seq<char>
    decreases s.len(),
{
    if s.len() > 0 && is_white(s[0]) {
        trim_start_text(s.drop_first())
    } else {
        s
    }
}

/// `s` without its trailing white space.
pub open spec fn trim_end_text(s: Seq<char>) -> Seq<char>
    decreases s.len(),
{
    if s.len() > 0 && is_white(s.last()) {
        trim_end_text(s.drop_last())
    } else {
        s
    }
}

/// `s` without leading or trailing white space, as `str::trim` gives it.
pub open spec fn trimmed(s: Seq<char>) -> Seq<char> {
    trim_end_text(trim_start_text(s))
}

/// `s` without leading or trailing white space.
pub fn trim(s: &str) -> (r: String)
    ensures
        r@ == trimmed(s@),
{
    let cs = chars_of(s);
    let n = cs.len();
    let mut a: usize = 0;
    assert(s@.subrange(0, n as int) =~= s@);
    while a < n && is_white_char(cs[a])
        invariant
            a <= n,
            n == cs@.len(),
            cs@ == s@,
            trim_start_text(s@) == trim_start_text(s@.subrange(a as int, n as int)),
        decreases n - a,
    {
        assert(s@.subrange(a as int, n as int).drop_first() =~= s@.subrange(a + 1, n as int));
        a = a + 1;
    }
    assert(trim_start_text(s@.subrange(a as int, n as int)) == s@.subrange(a as int, n as int));
    let mut b: usize = n;
    while b > a && is_white_char(cs[b - 1])
        invariant
            a <= b <= n,
            n == cs@.len(),
            cs@ == s@,
            trimmed(s@) == trim_end_text(s@.subrange(a as int, b as int)),
        decreases b,
    {
        assert(s@.subrange(a as int, b as int).drop_last() =~= s@.subrange(a as int, b - 1));
        b = b - 1;
    }
    assert(trim_end_text(s@.subrange(a as int, b as int)) == s@.subrange(a as int, b as int));
    text_between(&cs, a, b)
}

/// `s` with every trailing `.git` removed, as `trim_end_matches(".git")`
/// gives it.
pub open spec fn without_git_suffixes(s: Seq<char>) -> Seq<char>
    decreases s.len(),
{
    if has_suffix(s, ".git"@) && s.len() >= 4 {
        without_git_suffixes(s.subrange(0, s.len() - 4))
    } else {
        s
    }
}

/// `s` with every trailing `.git` removed.
pub fn trim_git_suffixes(s: &str) -> (r: String)
    ensures
        r@ == without_git_suffixes(s@),
{
    let cs = chars_of(s);
    let suffix = chars_of(".git");
    proof {
        reveal_strlit(".git");
    }
    let mut b: usize = cs.len();
    assert(s@.subrange(0, b as int) =~= s@);
    while b >= 4 && chars_occur_at(&cs, &suffix, b - 4)
        invariant
            b <= cs@.len(),
            cs@ == s@,
            suffix@ == ".git"@,
            without_git_suffixes(s@) == without_git_suffixes(s@.subrange(0, b as int)),
        decreases b,
    {
        proof {
            reveal_strlit(".git");
            let t = s@.subrange(0, b as int);
            assert(t.subrange(t.len() - 4, t.len() as int) =~= s@.subrange(b - 4, b as int));
            assert(t.subrange(0, t.len() - 4) =~= s@.subrange(0, b - 4));
        }
        b = b - 4;
    }
    proof {
        let t = s@.subrange(0, b as int);
        if b >= 4 {
            assert(t.subrange(t.len() - 4, t.len() as int) =~= s@.subrange(b - 4, b as int));
        }
    }
    text_between(&cs, 0, b)
}

/// The pieces of `s` between the separator `c`, empty pieces included.
pub open spec fn split_pieces(s: Seq<char>, c: char) -> Seq<Seq<char>>
    decreases s.len(),
{
    if s.len() == 0 {
        seq![Seq::empty()]
    } else {
        let rest = split_pieces(s.drop_last(), c);
        if s.last() == c {
            rest.push(Seq::empty())
        } else {
            rest.update(rest.len() - 1, rest.last().push(s.last()))
        }
    }
}

proof fn lemma_split_pieces_nonempty(s: Seq<char>, c: char)
    ensures
        split_pieces(s, c).len() >= 1,
    decreases s.len(),
{
    if s.len() > 0 {
        lemma_split_pieces_nonempty(s.drop_last(), c);
    }
}

/// A line without the carriage return that ended it, if any.
pub open spec fn strip_cr(l: Seq<char>) -> Seq<char> {
    if l.len() > 0 && l.last() == '\r' {
        l.drop_last()
    } else {
        l
    }
}

/// The lines of `s` as `str::lines` yields them: split at `\n`, a `\r`
/// before a `\n` dropped, and no empty line after a final `\n`.
pub open spec fn text_lines(s: Seq<char>) -> Seq<Seq<char>> {
    let p = split_pieces(s, '\n');
    let ended = p.drop_last().map_values(|l: Seq<char>| strip_cr(l));
    if p.last().len() == 0 {
        ended
    } else {
        ended.push(p.last())
    }
}

/// The lines of `s`.
pub fn lines(s: &str) -> (r: Vec<String>)
    ensures
        views(r@) == text_lines(s@),
{
    let cs = chars_of(s);
    let mut done: Vec<String> = Vec::new();
    let mut cur: Vec<char> = Vec::new();
    let mut i: usize = 0;
    while i < cs.len()
        invariant
            i <= cs@.len(),
            cs@ == s@,
            split_pieces(s@.take(i as int), '\n').len() >= 1,
            views(done@) == split_pieces(s@.take(i as int), '\n').drop_last().map_values(|l: Seq<char>| strip_cr(l)),
            cur@ == split_pieces(s@.take(i as int), '\n').last(),
        decreases cs@.len() - i,
    {
        let ghost t = s@.take(i as int);
        let ghost t1 = s@.take(i + 1);
        proof {
            assert(t1.drop_last() =~= t);
            assert(t1.last() == cs@[i as int]);
            lemma_split_pieces_nonempty(t1, '\n');
        }
        let c = cs[i];
        if c == '\n' {
            let n = cur.len();
            let line = if n > 0 && cur[n - 1] == '\r' {
                text_between(&cur, 0, n - 1)
            } else {
                text_between(&cur, 0, n)
            };
            proof {
                assert(line@ == strip_cr(cur@)) by {
                    if n > 0 && cur@[n - 1] == '\r' {
                        assert(cur@.drop_last() =~= cur@.subrange(0, n - 1));
                    } else {
                        assert(cur@ =~= cur@.subrange(0, n as int));
                    }
                }
            }
            let ghost before = done@;
            done.push(line);
            cur = Vec::new();
            proof {
                lemma_views_push(before, line);
                let p = split_pieces(t, '\n');
                assert(split_pieces(t1, '\n') == p.push(Seq::empty()));
                assert(p.push(Seq::empty()).drop_last() =~= p);
                assert(views(done@) =~= split_pieces(t1, '\n').drop_last().map_values(|l: Seq<char>| strip_cr(l)));
                assert(cur@ =~= split_pieces(t1, '\n').last());
            }
        } else {
            cur.push(c);
            proof {
                let p = split_pieces(t, '\n');
                assert(split_pieces(t1, '\n') == p.update(p.len() - 1, p.last().push(c)));
                assert(p.update(p.len() - 1, p.last().push(c)).drop_last() =~= p.drop_last());
            }
        }
        i = i + 1;
    }
    proof {
        assert(s@.take(cs@.len() as int) =~= s@);
    }
    if cur.len() > 0 {
        let last = text_between(&cur, 0, cur.len());
        let ghost before = done@;
        done.push(last);
        proof {
            assert(cur@ =~= cur@.subrange(0, cur@.len() as int));
            lemma_views_push(before, last);
        }
    }
    done
}

/// Whether `s` is the empty string.
pub fn blank_free(s: &str) -> (r: bool)
    ensures
        r == (s@.len() == 0),
{
    s.is_empty()
}

/// The pieces of `s` between each `c`, empty pieces included.
pub fn split_on(s: &str, c: char) -> (r: Vec<String>)
    ensures
        views(r@) == split_pieces(s@, c),
{
    let cs = chars_of(s);
    let mut done: Vec<String> = Vec::new();
    let mut cur: Vec<char> = Vec::new();
    let mut i: usize = 0;
    while i < cs.len()
        invariant
            i <= cs@.len(),
            cs@ == s@,
            split_pieces(s@.take(i as int), c).len() >= 1,
            views(done@) == split_pieces(s@.take(i as int), c).drop_last(),
            cur@ == split_pieces(s@.take(i as int), c).last(),
        decreases cs@.len() - i,
    {
        let ghost t = s@.take(i as int);
        let ghost t1 = s@.take(i + 1);
        proof {
            assert(t1.drop_last() =~= t);
            assert(t1.last() == cs@[i as int]);
            lemma_split_pieces_nonempty(t1, c);
        }
        let x = cs[i];
        if x == c {
            let piece = text_between(&cur, 0, cur.len());
            proof {
                assert(cur@ =~= cur@.subrange(0, cur@.len() as int));
            }
            let ghost before = done@;
            done.push(piece);
            cur = Vec::new();
            proof {
                lemma_views_push(before, piece);
                let p = split_pieces(t, c);
                assert(split_pieces(t1, c) == p.push(Seq::empty()));
                assert(p.push(Seq::empty()).drop_last() =~= p);
                assert(views(done@) =~= split_pieces(t1, c).drop_last());
                assert(cur@ =~= split_pieces(t1, c).last());
            }
        } else {
            cur.push(x);
            proof {
                let p = split_pieces(t, c);
                assert(split_pieces(t1, c) == p.update(p.len() - 1, p.last().push(x)));
                assert(p.update(p.len() - 1, p.last().push(x)).drop_last() =~= p.drop_last());
            }
        }
        i = i + 1;
    }
    proof {
        assert(s@.take(cs@.len() as int) =~= s@);
        lemma_split_pieces_nonempty(s@, c);
    }
    let last = text_between(&cur, 0, cur.len());
    let ghost before = done@;
    done.push(last);
    proof {
        assert(cur@ =~= cur@.subrange(0, cur@.len() as int));
        lemma_views_push(before, last);
        let p = split_pieces(s@, c);
        assert(p.drop_last().push(p.last()) =~= p);
    }
    done
}

/// One message where `bad`, none otherwise.
pub open spec fn flag(bad: bool, msg: Seq<char>) -> Seq<Seq<char>> {
    if bad {
        seq![msg]
    } else {
        Seq::empty()
    }
}

/// Appends `msg` where `bad`.
pub fn flag_if(errors: &mut Vec<String>, bad: bool, msg: String)
    ensures
        views(final(errors)@) == views(old(errors)@) + flag(bad, msg@),
        final(errors)@.len() == old(errors)@.len() + if bad {
            1int
        } else {
            0int
        },
{
    let ghost before = errors@;
    if bad {
        errors.push(msg);
        proof {
            assert(views(errors@) =~= views(before) + seq![msg@]);
        }
    } else {
        proof {
            assert(views(errors@) =~= views(before) + Seq::<Seq<char>>::empty());
        }
    }
}


/// The views of a sequence of strings are as many as the strings.
pub proof fn lemma_views_len(v: Seq<String>)
    ensures
        views(v).len() == v.len(),
{
}

} // verus!
