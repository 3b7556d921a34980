//! The document shell shared by every page: escaping of metadata, the
//! content-addressed stylesheet link, the indentation of rendered body
//! markup, and the head that carries the page's discovery metadata.

use vstd::prelude::*;

use crate::firmware_catalog::{hex_text, sha256_digest, sha256_hex};
use crate::text::{
    cat, chars_of, concat, find_from, has_prefix, has_suffix, joined, lines, occurs_at, str_eq, text_between, text_lines,
    views,
};

verus! {

pub const ORGANIZATION_ID: &'static str = "https://mer3ly.net/#organization";

pub const WEBSITE_ID: &'static str = "https://mer3ly.net/#website";

pub const DEFAULT_SOCIAL_IMAGE_URL: &'static str = "https://mer3ly.net/og.jpg";

pub const DEFAULT_SOCIAL_IMAGE_ALT: &'static str = "Merely, software and hardware for people who are their own infrastructure.";

#[derive(Clone, Copy, Debug, PartialEq, Eq, Structural)]
pub enum ActivePage {
    Home,
    Devices,
    Radio,
    Repositories,
}

pub struct PageMetadata {
    pub title: &'static str,
    pub description: &'static str,
    pub canonical_url: &'static str,
}

pub struct SocialImage<'a> {
    pub url: &'a str,
    pub mime_type: &'a str,
    pub alt: &'a str,
}

pub struct DocumentMetadata<'a> {
    pub title: &'a str,
    pub description: &'a str,
    pub canonical_url: &'a str,
    pub social_image: SocialImage<'a>,
    pub json_ld: &'a str,
}

/// Where the navigation link to a page leads.
pub open spec fn nav_href(page: ActivePage) -> Seq<char> {
    match page {
        ActivePage::Home => "/"@,
        ActivePage::Radio => "/radio.html"@,
        ActivePage::Devices => "/devices/"@,
        ActivePage::Repositories => "/repos/"@,
    }
}

/// The attributes of the navigation link to `page` on the page `active`:
/// its href, then, on the page itself, `aria-current="page"` and the
/// current-link class, elsewhere the plain link class.
pub fn nav_link_attributes(active: ActivePage, page: ActivePage) -> (r: Vec<(&'static str, &'static str)>)
    ensures
        r@.len() == if active == page { 3int } else { 2int },
        r@[0].0@ == "href"@,
        r@[0].1@ == nav_href(page),
        active == page ==> r@[1].0@ == "aria-current"@ && r@[1].1@ == "page"@ && r@[2].0@ == "class"@ && r@[2].1@
            == "nav-link is-current"@,
        active != page ==> r@[1].0@ == "class"@ && r@[1].1@ == "nav-link"@,
{
    let href: &'static str = match page {
        ActivePage::Home => "/",
        ActivePage::Radio => "/radio.html",
        ActivePage::Devices => "/devices/",
        ActivePage::Repositories => "/repos/",
    };
    let mut r: Vec<(&'static str, &'static str)> = Vec::new();
    r.push(("href", href));
    if active == page {
        r.push(("aria-current", "page"));
        r.push(("class", "nav-link is-current"));
    } else {
        r.push(("class", "nav-link"));
    }
    r
}

/// How one character is written in HTML text: `&`, `<` and `>` as entities.
pub open spec fn text_entity(c: char) -> Seq<char> {
    if c == '&' {
        "&amp;"@
    } else if c == '<' {
        "&lt;"@
    } else if c == '>' {
        "&gt;"@
    } else {
        seq![c]
    }
}

/// How one character is written in an HTML attribute: as in text, and `"`
/// as `&quot;`.
pub open spec fn attr_entity(c: char) -> Seq<char> {
    if c == '"' {
        "&quot;"@
    } else {
        text_entity(c)
    }
}

/// How one character is written in JSON inside a script element: `&`, `<`
/// and `>` as Unicode escapes, so that no markup can close the element.
pub open spec fn script_entity(c: char) -> Seq<char> {
    if c == '&' {
        "\\u0026"@
    } else if c == '<' {
        "\\u003c"@
    } else if c == '>' {
        "\\u003e"@
    } else {
        seq![c]
    }
}

/// `s` with each character replaced by its text form.
pub open spec fn escaped_text(s: Seq<char>) -> Seq<char>
    decreases s.len(),
{
    if s.len() == 0 {
        Seq::empty()
    } else {
        escaped_text(s.drop_last()) + text_entity(s.last())
    }
}

/// `s` with each character replaced by its attribute form.
pub open spec fn escaped_attr(s: Seq<char>) -> Seq<char>
    decreases s.len(),
{
    if s.len() == 0 {
        Seq::empty()
    } else {
        escaped_attr(s.drop_last()) + attr_entity(s.last())
    }
}

/// `s` with each character replaced by its script-safe form.
pub open spec fn escaped_script(s: Seq<char>) -> Seq<char>
    decreases s.len(),
{
    if s.len() == 0 {
        Seq::empty()
    } else {
        escaped_script(s.drop_last()) + script_entity(s.last())
    }
}

/// Escapes `&`, `<` and `>` for HTML text.
pub fn escape_text(value: &str) -> (r: String)
    ensures
        r@ == escaped_text(value@),
{
    let cs = chars_of(value);
    let mut out = String::new();
    let mut i: usize = 0;
    while i < cs.len()
        invariant
            i <= cs@.len(),
            cs@ == value@,
            out@ == escaped_text(value@.take(i as int)),
        decreases cs@.len() - i,
    {
        let c = cs[i];
        proof {
            assert(value@.take(i + 1).drop_last() =~= value@.take(i as int));
        }
        if c == '&' {
            out.append("&amp;");
        } else if c == '<' {
            out.append("&lt;");
        } else if c == '>' {
            out.append("&gt;");
        } else {
            out.push(c);
        }
        i = i + 1;
    }
    assert(value@.take(cs@.len() as int) =~= value@);
    out
}

/// Escapes `&`, `<`, `>` and `"` for an HTML attribute value.
pub fn escape_attr(value: &str) -> (r: String)
    ensures
        r@ == escaped_attr(value@),
{
    let cs = chars_of(value);
    let mut out = String::new();
    let mut i: usize = 0;
    while i < cs.len()
        invariant
            i <= cs@.len(),
            cs@ == value@,
            out@ == escaped_attr(value@.take(i as int)),
        decreases cs@.len() - i,
    {
        let c = cs[i];
        proof {
            assert(value@.take(i + 1).drop_last() =~= value@.take(i as int));
        }
        if c == '"' {
            out.append("&quot;");
        } else if c == '&' {
            out.append("&amp;");
        } else if c == '<' {
            out.append("&lt;");
        } else if c == '>' {
            out.append("&gt;");
        } else {
            out.push(c);
        }
        i = i + 1;
    }
    assert(value@.take(cs@.len() as int) =~= value@);
    out
}

/// Makes serialized JSON safe to place inside a script element.
pub fn escape_json_for_script(json: &str) -> (r: String)
    ensures
        r@ == escaped_script(json@),
{
    let cs = chars_of(json);
    let mut out = String::new();
    let mut i: usize = 0;
    while i < cs.len()
        invariant
            i <= cs@.len(),
            cs@ == json@,
            out@ == escaped_script(json@.take(i as int)),
        decreases cs@.len() - i,
    {
        let c = cs[i];
        proof {
            assert(json@.take(i + 1).drop_last() =~= json@.take(i as int));
        }
        if c == '&' {
            out.append("\\u0026");
        } else if c == '<' {
            out.append("\\u003c");
        } else if c == '>' {
            out.append("\\u003e");
        } else {
            out.push(c);
        }
        i = i + 1;
    }
    assert(json@.take(cs@.len() as int) =~= json@);
    out
}

/// `path?v=` followed by the first twelve hexadecimal digits of the SHA-256
/// digest of `content`.
pub open spec fn addressed(path: Seq<char>, content: Seq<char>) -> Seq<char> {
    path + "?v="@ + hex_text(sha256_digest(vstd::utf8::encode_utf8(content))).subrange(0, 12)
}

/// A link to `path` that changes whenever `content` does.
pub fn content_addressed_href(path: &str, content: &str) -> (r: String)
    ensures
        r@ == addressed(path@, content@),
        has_prefix(r@, path@ + "?v="@),
        r@.len() == path@.len() + 15,
{
    let digest = sha256_hex(content.as_bytes());
    let cs = chars_of(digest.as_str());
    let short = text_between(&cs, 0, 12);
    let mut out = String::from_str(path);
    out.append("?v=");
    out.append(short.as_str());
    proof {
        reveal_strlit("?v=");
        assert(out@.subrange(0, (path@ + "?v="@).len() as int) =~= path@ + "?v="@);
    }
    out
}

/// The content-addressed link of the site stylesheet whose text is `css`.
pub fn stylesheet_href(css: &str) -> (r: String)
    ensures
        r@ == addressed("/site.css"@, css@),
        has_prefix(r@, "/site.css?v="@),
        r@.len() == 24,
{
    proof {
        reveal_strlit("/site.css");
        reveal_strlit("?v=");
        reveal_strlit("/site.css?v=");
        assert("/site.css"@ + "?v="@ =~= "/site.css?v="@);
    }
    content_addressed_href("/site.css", css)
}

/// Two spaces per level.
pub open spec fn indent(depth: nat) -> Seq<char>
    decreases depth,
{
    if depth == 0 {
        Seq::empty()
    } else {
        indent((depth - 1) as nat) + "  "@
    }
}

/// Appends two spaces per level of depth.
pub fn write_indent(output: &mut String, depth: usize)
    ensures
        final(output)@ == old(output)@ + indent(depth as nat),
{
    let mut k: usize = 0;
    while k < depth
        invariant
            k <= depth,
            output@ == old(output)@ + indent(k as nat),
        decreases depth - k,
    {
        output.append("  ");
        proof {
            assert(indent((k + 1) as nat) == indent(k as nat) + "  "@);
            assert(output@ =~= old(output)@ + indent((k + 1) as nat));
        }
        k = k + 1;
    }
}

/// Every line of `value` indented by `depth` levels, joined by newlines.
pub open spec fn indented_lines(value: Seq<char>, depth: nat) -> Seq<char> {
    joined(text_lines(value).map_values(|l: Seq<char>| indent(depth) + l), "\n"@)
}

/// Indents every line of `value` by `depth` levels.
pub fn indent_lines(value: &str, depth: usize) -> (r: String)
    ensures
        r@ == indented_lines(value@, depth as nat),
{
    let ls = lines(value);
    let mut prefixed: Vec<String> = Vec::new();
    let mut i: usize = 0;
    while i < ls.len()
        invariant
            i <= ls@.len(),
            views(ls@) == text_lines(value@),
            views(prefixed@) == text_lines(value@).take(i as int).map_values(|l: Seq<char>| indent(depth as nat) + l),
        decreases ls@.len() - i,
    {
        let mut line = String::new();
        write_indent(&mut line, depth);
        line.append(ls[i].as_str());
        let ghost before = prefixed@;
        prefixed.push(line);
        proof {
            crate::text::lemma_views_push(before, line);
            assert(views(ls@)[i as int] == ls@[i as int]@);
            assert(views(prefixed@) =~= text_lines(value@).take(i + 1).map_values(|l: Seq<char>| indent(depth as nat) + l));
        }
        i = i + 1;
    }
    assert(text_lines(value@).take(ls@.len() as int) =~= text_lines(value@));
    crate::text::join(&prefixed, "\n")
}

/// The HTML character classes `is_ascii_whitespace` names.
pub open spec fn ascii_space(c: char) -> bool {
    c == ' ' || c == '\t' || c == '\n' || c == '\u{c}' || c == '\r'
}

/// The first position at or after `i` whose character is not `c`.
pub open spec fn skip_all(t: Seq<char>, c: char, i: nat) -> nat
    decreases t.len() - i,
{
    if i < t.len() && t[i as int] == c {
        skip_all(t, c, i + 1)
    } else {
        i
    }
}

/// Position `j` ends the name that starts at `i`: the first whitespace, `/`
/// or `>` from `i` on, or the end.
pub open spec fn name_ends(t: Seq<char>, i: int, j: int) -> bool {
    &&& i <= j <= t.len()
    &&& (j == t.len() || ascii_space(t[j]) || t[j] == '/' || t[j] == '>')
    &&& forall|k: int| i <= k < j ==> !(ascii_space(t[k]) || t[k] == '/' || t[k] == '>')
}

/// The element name of a tag token: after the leading `<` and `/`
/// characters, up to the first whitespace, `/` or `>`.
pub open spec fn tag_name(t: Seq<char>) -> Seq<char> {
    let i = skip_all(t, '/', skip_all(t, '<', 0));
    t.subrange(i as int, choose|j: int| name_ends(t, i as int, j))
}

/// The element name of a tag token.
pub fn html_tag_name(token: &str) -> (r: String)
    ensures
        r@ == tag_name(token@),
{
    let cs = chars_of(token);
    let mut i: usize = 0;
    while i < cs.len() && cs[i] == '<'
        invariant
            i <= cs@.len(),
            cs@ == token@,
            skip_all(token@, '<', 0) == skip_all(token@, '<', i as nat),
        decreases cs@.len() - i,
    {
        i = i + 1;
    }
    let ghost a = i;
    while i < cs.len() && cs[i] == '/'
        invariant
            a <= i <= cs@.len(),
            cs@ == token@,
            skip_all(token@, '<', 0) == a,
            skip_all(token@, '/', a as nat) == skip_all(token@, '/', i as nat),
        decreases cs@.len() - i,
    {
        i = i + 1;
    }
    let mut j: usize = i;
    while j < cs.len() && !(cs[j] == ' ' || cs[j] == '\t' || cs[j] == '\n' || cs[j] == '\u{c}' || cs[j] == '\r' || cs[j] == '/'
        || cs[j] == '>')
        invariant
            i <= j <= cs@.len(),
            cs@ == token@,
            forall|k: int| i <= k < j ==> !(ascii_space(token@[k]) || token@[k] == '/' || token@[k] == '>'),
        decreases cs@.len() - j,
    {
        j = j + 1;
    }
    proof {
        assert(name_ends(token@, i as int, j as int));
        let c = choose|c: int| name_ends(token@, i as int, c);
        if c < j {
            assert(!(ascii_space(token@[c]) || token@[c] == '/' || token@[c] == '>'));
        } else if c > j {
            assert(!(ascii_space(token@[j as int]) || token@[j as int] == '/' || token@[j as int] == '>'));
        }
    }
    text_between(&cs, i, j)
}

/// Elements that start on a line of their own.
pub open spec fn block_tags() -> Seq<Seq<char>> {
    seq![
        "address"@, "article"@, "aside"@, "blockquote"@, "body"@, "canvas"@, "caption"@, "circle"@, "dd"@, "desc"@, "div"@, "dl"@,
        "dt"@, "fieldset"@, "figcaption"@, "figure"@, "footer"@, "g"@, "h1"@, "h2"@, "h3"@, "h4"@, "h5"@, "h6"@, "header"@,
        "hr"@, "img"@, "input"@, "li"@, "line"@, "main"@, "nav"@, "ol"@, "p"@, "path"@, "polygon"@, "polyline"@, "rect"@,
        "section"@, "svg"@, "table"@, "tbody"@, "td"@, "text"@, "tfoot"@, "th"@, "thead"@, "title"@, "tr"@, "ul"@,
    ]
}

/// Elements whose children start on lines of their own.
pub open spec fn container_tags() -> Seq<Seq<char>> {
    seq![
        "article"@, "aside"@, "body"@, "div"@, "dl"@, "fieldset"@, "figure"@, "footer"@, "g"@, "header"@, "main"@, "nav"@,
        "ol"@, "section"@, "svg"@, "table"@, "tbody"@, "tfoot"@, "thead"@, "tr"@, "ul"@,
    ]
}

/// Elements that have no closing tag.
pub open spec fn void_tags() -> Seq<Seq<char>> {
    seq![
        "area"@, "base"@, "br"@, "col"@, "embed"@, "hr"@, "img"@, "input"@, "link"@, "meta"@, "param"@, "source"@, "track"@,
        "wbr"@,
    ]
}

/// Whether `tag` is one of `names`.
fn listed_name(names: &[&str], tag: &str) -> (r: bool)
    ensures
        r == names@.map_values(|n: &str| n@).contains(tag@),
{
    let ghost vs = names@.map_values(|n: &str| n@);
    let mut i: usize = 0;
    while i < names.len()
        invariant
            i <= names@.len(),
            vs == names@.map_values(|n: &str| n@),
            forall|k: int| 0 <= k < i ==> vs[k] != tag@,
        decreases names@.len() - i,
    {
        if str_eq(names[i], tag) {
            assert(vs[i as int] == tag@);
            return true;
        }
        i = i + 1;
    }
    false
}

pub fn is_block_tag(tag: &str) -> (r: bool)
    ensures
        r == block_tags().contains(tag@),
{
    let names: [&str; 50] = [
        "address", "article", "aside", "blockquote", "body", "canvas", "caption", "circle", "dd", "desc", "div", "dl", "dt",
        "fieldset", "figcaption", "figure", "footer", "g", "h1", "h2", "h3", "h4", "h5", "h6", "header", "hr", "img", "input",
        "li", "line", "main", "nav", "ol", "p", "path", "polygon", "polyline", "rect", "section", "svg", "table", "tbody", "td",
        "text", "tfoot", "th", "thead", "title", "tr", "ul",
    ];
    assert(names@.map_values(|n: &str| n@) =~= block_tags());
    listed_name(&names, tag)
}

pub fn is_container_tag(tag: &str) -> (r: bool)
    ensures
        r == container_tags().contains(tag@),
{
    let names: [&str; 21] = [
        "article", "aside", "body", "div", "dl", "fieldset", "figure", "footer", "g", "header", "main", "nav", "ol", "section",
        "svg", "table", "tbody", "tfoot", "thead", "tr", "ul",
    ];
    assert(names@.map_values(|n: &str| n@) =~= container_tags());
    listed_name(&names, tag)
}

pub fn is_void_tag(tag: &str) -> (r: bool)
    ensures
        r == void_tags().contains(tag@),
{
    let names: [&str; 14] = ["area", "base", "br", "col", "embed", "hr", "img", "input", "link", "meta", "param", "source", "track", "wbr"];
    assert(names@.map_values(|n: &str| n@) =~= void_tags());
    listed_name(&names, tag)
}

/// `s` ends with a newline.
pub open spec fn ends_newline(s: Seq<char>) -> bool {
    s.len() > 0 && s.last() == '\n'
}

/// `out` followed by `text`, indented first when `out` is at the start of a
/// line; nothing is written for empty text.
pub open spec fn with_text(out: Seq<char>, text: Seq<char>, depth: nat) -> Seq<char> {
    if text.len() == 0 {
        out
    } else {
        (if ends_newline(out) { out + indent(depth) } else { out }) + text
    }
}

/// Position `i` holds the first `c` at or after `from`.
pub open spec fn first_at(m: Seq<char>, c: char, from: int, i: int) -> bool {
    &&& from <= i < m.len()
    &&& m[i] == c
    &&& forall|k: int| from <= k < i ==> m[k] != c
}

/// Some `c` occurs at or after `from`.
pub open spec fn occurs_from(m: Seq<char>, c: char, from: int) -> bool {
    exists|i: int| #[trigger] first_at(m, c, from, i)
}

/// The position of the first `c` at or after `from`.
pub open spec fn find_char(m: Seq<char>, c: char, from: int) -> int {
    choose|i: int| #[trigger] first_at(m, c, from, i)
}

/// The output and depth after writing one tag token at `depth`: block
/// elements start on their own line at their depth, containers and void
/// elements end their line, and a closing block tag ends its line one level
/// out; other tags continue the line.
pub open spec fn token_step(out: Seq<char>, depth: nat, token: Seq<char>) -> (Seq<char>, nat) {
    let tag = tag_name(token);
    let closing = has_prefix(token, "</"@);
    let block = block_tags().contains(tag);
    let container = container_tags().contains(tag);
    let void = void_tags().contains(tag) || has_suffix(token, "/>"@);
    if block && closing {
        let d: nat = if depth > 0 { (depth - 1) as nat } else { 0 };
        ((if ends_newline(out) { out + indent(d) } else { out }) + token + "\n"@, d)
    } else if block {
        let o1 = if out.len() > 0 && !ends_newline(out) { out + "\n"@ } else { out };
        let o2 = o1 + indent(depth) + token;
        (if container || void { o2 + "\n"@ } else { o2 }, if !void { depth + 1 } else { depth })
    } else {
        ((if ends_newline(out) { out + indent(depth) } else { out }) + token, depth)
    }
}

/// The formatted rest of `m` from `cursor`, given the output so far and the
/// current depth: text between tags is copied, each tag token is written by
/// `token_step`, and an unclosed `<` leaves the rest as text.
pub open spec fn fmt_from(m: Seq<char>, cursor: int, depth: nat, out: Seq<char>) -> Seq<char>
    decreases m.len() - cursor,
{
    if cursor < 0 || cursor >= m.len() {
        out
    } else if !occurs_from(m, '<', cursor) {
        with_text(out, m.subrange(cursor, m.len() as int), depth)
    } else {
        let lt = find_char(m, '<', cursor);
        let out1 = with_text(out, m.subrange(cursor, lt), depth);
        if !occurs_from(m, '>', lt) {
            with_text(out1, m.subrange(lt, m.len() as int), depth)
        } else {
            let gt = find_char(m, '>', lt);
            let step = token_step(out1, depth, m.subrange(lt, gt + 1));
            fmt_from(m, gt + 1, step.1, step.0)
        }
    }
}

/// The position of the first `c` at or after `from`, if any.
fn find_char_from(cs: &Vec<char>, c: char, from: usize) -> (r: Option<usize>)
    ensures
        match r {
            Some(i) => first_at(cs@, c, from as int, i as int) && occurs_from(cs@, c, from as int) && find_char(cs@, c, from as int)
                == i,
            None => !occurs_from(cs@, c, from as int),
        },
{
    if from > cs.len() {
        proof {
            assert forall|j: int| !#[trigger] first_at(cs@, c, from as int, j) by {}
        }
        return None;
    }
    let mut i: usize = from;
    while i < cs.len()
        invariant
            from <= i <= cs@.len(),
            forall|k: int| from <= k < i ==> cs@[k] != c,
        decreases cs@.len() - i,
    {
        if cs[i] == c {
            proof {
                assert(first_at(cs@, c, from as int, i as int));
                let j = find_char(cs@, c, from as int);
                if j < i {
                    assert(cs@[j] != c);
                } else if j > i {
                    assert(cs@[i as int] != c);
                }
            }
            return Some(i);
        }
        i = i + 1;
    }
    proof {
        assert forall|j: int| !#[trigger] first_at(cs@, c, from as int, j) by {
            if first_at(cs@, c, from as int, j) {
                assert(cs@[j] != c);
            }
        }
    }
    None
}

/// Appends two spaces per level.
fn push_indent(out: &mut Vec<char>, depth: usize)
    ensures
        final(out)@ == old(out)@ + indent(depth as nat),
{
    let mut k: usize = 0;
    while k < depth
        invariant
            k <= depth,
            out@ == old(out)@ + indent(k as nat),
        decreases depth - k,
    {
        out.push(' ');
        out.push(' ');
        proof {
            assert(indent((k + 1) as nat) == indent(k as nat) + "  "@);
            reveal_strlit("  ");
            assert(out@ =~= old(out)@ + indent((k + 1) as nat));
        }
        k = k + 1;
    }
}

/// Appends `cs[a..b]`.
fn push_chars(out: &mut Vec<char>, cs: &Vec<char>, a: usize, b: usize)
    requires
        a <= b <= cs@.len(),
    ensures
        final(out)@ == old(out)@ + cs@.subrange(a as int, b as int),
{
    let mut i: usize = a;
    while i < b
        invariant
            a <= i <= b,
            b <= cs@.len(),
            out@ == old(out)@ + cs@.subrange(a as int, i as int),
        decreases b - i,
    {
        out.push(cs[i]);
        assert(out@ =~= old(out)@ + cs@.subrange(a as int, i + 1));
        i = i + 1;
    }
}

/// Whether `out` ends with a newline.
fn at_line_start(out: &Vec<char>) -> (r: bool)
    ensures
        r == ends_newline(out@),
{
    out.len() > 0 && out[out.len() - 1] == '\n'
}

/// Writes `cs[a..b]` as text at `depth`.
fn write_text(out: &mut Vec<char>, cs: &Vec<char>, a: usize, b: usize, depth: usize)
    requires
        a <= b <= cs@.len(),
    ensures
        final(out)@ == with_text(old(out)@, cs@.subrange(a as int, b as int), depth as nat),
{
    if a == b {
        return;
    }
    if at_line_start(out) {
        push_indent(out, depth);
    }
    push_chars(out, cs, a, b);
}

/// Puts the structural elements of rendered markup on indented lines of
/// their own, two spaces per level, leaving inline markup and text in place.
pub fn format_html_fragment(markup: &str) -> (r: String)
    ensures
        r@ == fmt_from(markup@, 0, 0, Seq::empty()),
{
    let cs = chars_of(markup);
    let n = cs.len();
    let mut out: Vec<char> = Vec::new();
    let mut depth: usize = 0;
    let mut cursor: usize = 0;
    while cursor < n
        invariant
            cursor <= n,
            n == cs@.len(),
            depth <= cursor,
            cs@ == markup@,
            fmt_from(markup@, cursor as int, depth as nat, out@) == fmt_from(markup@, 0, 0, Seq::empty()),
        decreases n - cursor,
    {
        let ghost before = out@;
        match find_char_from(&cs, '<', cursor) {
            None => {
                write_text(&mut out, &cs, cursor, n, depth);
                cursor = n;
            },
            Some(lt) => {
                write_text(&mut out, &cs, cursor, lt, depth);
                match find_char_from(&cs, '>', lt) {
                    None => {
                        write_text(&mut out, &cs, lt, n, depth);
                        cursor = n;
                    },
                    Some(gt) => {
                        let token = text_between(&cs, lt, gt + 1);
                        let tag = html_tag_name(token.as_str());
                        let closing = crate::text::starts_with(token.as_str(), "</");
                        let block = is_block_tag(tag.as_str());
                        let container = is_container_tag(tag.as_str());
                        let void = is_void_tag(tag.as_str()) || crate::text::ends_with(token.as_str(), "/>");
                        let ghost out1 = out@;
                        let ghost d0 = depth;
                        if block && closing {
                            depth = if depth > 0 { depth - 1 } else { 0 };
                            if at_line_start(&out) {
                                push_indent(&mut out, depth);
                            }
                            push_chars(&mut out, &cs, lt, gt + 1);
                            out.push('\n');
                        } else if block {
                            if out.len() > 0 && !at_line_start(&out) {
                                out.push('\n');
                            }
                            push_indent(&mut out, depth);
                            push_chars(&mut out, &cs, lt, gt + 1);
                            if !void {
                                depth = depth + 1;
                            }
                            if container || void {
                                out.push('\n');
                            }
                        } else {
                            if at_line_start(&out) {
                                push_indent(&mut out, depth);
                            }
                            push_chars(&mut out, &cs, lt, gt + 1);
                        }
                        proof {
                            reveal_strlit("\n");
                            assert(token@ == markup@.subrange(lt as int, gt + 1));
                            let step = token_step(out1, d0 as nat, markup@.subrange(lt as int, gt + 1));
                            assert(out@ =~= step.0);
                            assert(depth == step.1);
                        }
                        cursor = gt + 1;
                    },
                }
            },
        }
    }
    crate::text::string_of(&out)
}


/// The line that links a page's own stylesheet, if it has one.
pub open spec fn page_stylesheet_line(page_stylesheet: Option<(&str, &str)>) -> Seq<char> {
    match page_stylesheet {
        Some((href, stylesheet)) => "  <link rel=\"stylesheet\" href=\""@ + escaped_attr(addressed(href@, stylesheet@)) + "\">\n"@,
        None => Seq::empty(),
    }
}

/// The pieces of the whole document: the head with the page's title,
/// description, canonical URL, social image and structured data, the
/// stylesheet links, then the body markup.
pub open spec fn shell_parts(
    metadata: DocumentMetadata,
    body_markup: Seq<char>,
    page_stylesheet: Option<(&str, &str)>,
    site_css: Seq<char>,
) -> Seq<Seq<char>> {
    let title = escaped_text(metadata.title@);
    let description = escaped_attr(metadata.description@);
    let canonical = escaped_attr(metadata.canonical_url@);
    let image_url = escaped_attr(metadata.social_image.url@);
    let image_type = escaped_attr(metadata.social_image.mime_type@);
    let image_alt = escaped_attr(metadata.social_image.alt@);
    let sheet = escaped_attr(addressed("/site.css"@, site_css));
    seq![
            "<!doctype html>\n<html lang=\"en\">\n<head>\n  <meta charset=\"utf-8\">\n  <meta name=\"viewport\" content=\"width=device-width, initial-scale=1\">\n  <title>"@,
            title,
            "</title>\n  <meta name=\"description\" content=\""@,
            description,
            "\">\n  <link rel=\"canonical\" href=\""@,
            canonical,
            "\">\n  <meta property=\"og:type\" content=\"website\">\n  <meta property=\"og:site_name\" content=\"Merely\">\n  <meta property=\"og:title\" content=\""@,
            title,
            "\">\n  <meta property=\"og:description\" content=\""@,
            description,
            "\">\n  <meta property=\"og:url\" content=\""@,
            canonical,
            "\">\n  <meta property=\"og:image\" content=\""@,
            image_url,
            "\">\n  <meta property=\"og:image:type\" content=\""@,
            image_type,
            "\">\n  <meta property=\"og:image:alt\" content=\""@,
            image_alt,
            "\">\n  <meta name=\"twitter:card\" content=\"summary_large_image\">\n  <meta name=\"twitter:title\" content=\""@,
            title,
            "\">\n  <meta name=\"twitter:description\" content=\""@,
            description,
            "\">\n  <meta name=\"twitter:image\" content=\""@,
            image_url,
            "\">\n  <meta name=\"twitter:image:alt\" content=\""@,
            image_alt,
            "\">\n  <meta name=\"theme-color\" content=\"#f0ebdd\">\n  <link rel=\"icon\" href=\"/favicon.svg\" type=\"image/svg+xml\">\n  <link rel=\"sitemap\" href=\"/sitemap.xml\" type=\"application/xml\" title=\"Sitemap\">\n  <link rel=\"preconnect\" href=\"https://fonts.googleapis.com\">\n  <link rel=\"preconnect\" href=\"https://fonts.gstatic.com\" crossorigin>\n  <link rel=\"stylesheet\" href=\"https://fonts.googleapis.com/css2?family=Young+Serif&family=Newsreader:ital,opsz,wght@0,6..72,400;0,6..72,500;0,6..72,600;1,6..72,400&family=IBM+Plex+Mono:wght@400;500;600&display=swap\">\n  <link rel=\"stylesheet\" href=\""@,
            sheet,
            "\">\n"@,
            page_stylesheet_line(page_stylesheet),
            "  <script type=\"application/ld+json\">"@,
            metadata.json_ld@,
            "</script>\n</head>\n"@,
            body_markup,
            "\n</html>\n"@,
        ]
}

/// The whole document.
pub open spec fn shell_text(
    metadata: DocumentMetadata,
    body_markup: Seq<char>,
    page_stylesheet: Option<(&str, &str)>,
    site_css: Seq<char>,
) -> Seq<char> {
    concat(shell_parts(metadata, body_markup, page_stylesheet, site_css))
}

/// Wraps formatted body markup in the document head, with `site_css` the
/// text of the site stylesheet.
pub fn render_shell(
    metadata: &DocumentMetadata,
    body_markup: &str,
    page_stylesheet: Option<(&str, &str)>,
    site_css: &str,
) -> (r: String)
    ensures
        r@ == shell_text(*metadata, body_markup@, page_stylesheet, site_css@),
{
    let title = escape_text(metadata.title);
    let description = escape_attr(metadata.description);
    let canonical = escape_attr(metadata.canonical_url);
    let image_url = escape_attr(metadata.social_image.url);
    let image_type = escape_attr(metadata.social_image.mime_type);
    let image_alt = escape_attr(metadata.social_image.alt);
    let sheet = escape_attr(stylesheet_href(site_css).as_str());
    let page_line = match page_stylesheet {
        Some((href, stylesheet)) => {
            let link = escape_attr(content_addressed_href(href, stylesheet).as_str());
            crate::text::cat3("  <link rel=\"stylesheet\" href=\"", link.as_str(), "\">\n")
        },
        None => String::new(),
    };
    let parts: [&str; 35] = [
        "<!doctype html>\n<html lang=\"en\">\n<head>\n  <meta charset=\"utf-8\">\n  <meta name=\"viewport\" content=\"width=device-width, initial-scale=1\">\n  <title>",
        title.as_str(),
        "</title>\n  <meta name=\"description\" content=\"",
        description.as_str(),
        "\">\n  <link rel=\"canonical\" href=\"",
        canonical.as_str(),
        "\">\n  <meta property=\"og:type\" content=\"website\">\n  <meta property=\"og:site_name\" content=\"Merely\">\n  <meta property=\"og:title\" content=\"",
        title.as_str(),
        "\">\n  <meta property=\"og:description\" content=\"",
        description.as_str(),
        "\">\n  <meta property=\"og:url\" content=\"",
        canonical.as_str(),
        "\">\n  <meta property=\"og:image\" content=\"",
        image_url.as_str(),
        "\">\n  <meta property=\"og:image:type\" content=\"",
        image_type.as_str(),
        "\">\n  <meta property=\"og:image:alt\" content=\"",
        image_alt.as_str(),
        "\">\n  <meta name=\"twitter:card\" content=\"summary_large_image\">\n  <meta name=\"twitter:title\" content=\"",
        title.as_str(),
        "\">\n  <meta name=\"twitter:description\" content=\"",
        description.as_str(),
        "\">\n  <meta name=\"twitter:image\" content=\"",
        image_url.as_str(),
        "\">\n  <meta name=\"twitter:image:alt\" content=\"",
        image_alt.as_str(),
        "\">\n  <meta name=\"theme-color\" content=\"#f0ebdd\">\n  <link rel=\"icon\" href=\"/favicon.svg\" type=\"image/svg+xml\">\n  <link rel=\"sitemap\" href=\"/sitemap.xml\" type=\"application/xml\" title=\"Sitemap\">\n  <link rel=\"preconnect\" href=\"https://fonts.googleapis.com\">\n  <link rel=\"preconnect\" href=\"https://fonts.gstatic.com\" crossorigin>\n  <link rel=\"stylesheet\" href=\"https://fonts.googleapis.com/css2?family=Young+Serif&family=Newsreader:ital,opsz,wght@0,6..72,400;0,6..72,500;0,6..72,600;1,6..72,400&family=IBM+Plex+Mono:wght@400;500;600&display=swap\">\n  <link rel=\"stylesheet\" href=\"",
        sheet.as_str(),
        "\">\n",
        page_line.as_str(),
        "  <script type=\"application/ld+json\">",
        metadata.json_ld,
        "</script>\n</head>\n",
        body_markup,
        "\n</html>\n",
    ];
    proof {
        assert(page_line@ == page_stylesheet_line(page_stylesheet));
        assert(parts@.map_values(|p: &str| p@) =~= shell_parts(*metadata, body_markup@, page_stylesheet, site_css@));
    }
    cat(&parts)
}


/// `s` with its first occurrence of `pat` replaced by `rep`, if any.
pub open spec fn replace_first(s: Seq<char>, pat: Seq<char>, rep: Seq<char>) -> Seq<char> {
    if exists|i: int| #[trigger] occurs_at(s, pat, i) {
        let i = choose|i: int| occurs_at(s, pat, i) && forall|k: int| 0 <= k < i ==> !#[trigger] occurs_at(s, pat, k);
        s.subrange(0, i) + rep + s.subrange(i + pat.len(), s.len() as int)
    } else {
        s
    }
}

/// Replaces the first occurrence of `pat` in `s` by `rep`.
pub fn replace_first_text(s: &str, pat: &str, rep: &str) -> (r: String)
    ensures
        r@ == replace_first(s@, pat@, rep@),
{
    let cs = chars_of(s);
    let ps = chars_of(pat);
    match find_from(&cs, &ps, 0) {
        None => {
            proof {
                assert forall|i: int| !#[trigger] occurs_at(s@, pat@, i) by {
                    if i < 0 {
                    }
                }
            }
            String::from_str(s)
        },
        Some(i) => {
            proof {
                assert(occurs_at(s@, pat@, i as int) && forall|k: int| 0 <= k < i ==> !#[trigger] occurs_at(s@, pat@, k));
                let j = choose|j: int| occurs_at(s@, pat@, j) && forall|k: int| 0 <= k < j ==> !#[trigger] occurs_at(s@, pat@, k);
                if j < i {
                    assert(!occurs_at(s@, pat@, j));
                } else if j > i {
                    assert(!occurs_at(s@, pat@, i as int));
                }
            }
            assert(occurs_at(cs@, ps@, i as int));
            let n = cs.len();
            let m = ps.len();
            assert(i + m <= n);
            let head = text_between(&cs, 0, i);
            let tail = text_between(&cs, i + m, n);
            crate::text::cat3(head.as_str(), rep, tail.as_str())
        },
    }
}

/// The body markup of a page: the rendered markup formatted, with
/// `body_end` indented one level and placed just before `</body>`.
pub open spec fn document_body(raw_body: Seq<char>, body_end: Seq<char>) -> Seq<char> {
    let formatted = fmt_from(raw_body, 0, 0, Seq::empty());
    if body_end.len() == 0 {
        formatted
    } else {
        replace_first(formatted, "</body>\n"@, indented_lines(body_end, 1) + "\n</body>\n"@)
    }
}

/// The whole page from the markup that the view rendered.
pub fn render_document(
    metadata: &DocumentMetadata,
    raw_body: &str,
    body_end: &str,
    page_stylesheet: Option<(&str, &str)>,
    site_css: &str,
) -> (r: String)
    ensures
        r@ == shell_text(*metadata, document_body(raw_body@, body_end@), page_stylesheet, site_css@),
{
    let formatted = format_html_fragment(raw_body);
    let body = if crate::text::blank_free(body_end) {
        formatted
    } else {
        let end_lines = indent_lines(body_end, 1);
        let replacement = crate::text::cat2(end_lines.as_str(), "\n</body>\n");
        replace_first_text(formatted.as_str(), "</body>\n", replacement.as_str())
    };
    render_shell(metadata, body.as_str(), page_stylesheet, site_css)
}


/// Law: escaped text holds no `<` or `>`, so it can open or close no
/// element.
pub proof fn law_escaped_text_has_no_markup(s: Seq<char>)
    ensures
        !escaped_text(s).contains('<'),
        !escaped_text(s).contains('>'),
    decreases s.len(),
{
    if s.len() > 0 {
        law_escaped_text_has_no_markup(s.drop_last());
        let a = escaped_text(s.drop_last());
        let b = text_entity(s.last());
        reveal_strlit("&amp;");
        reveal_strlit("&lt;");
        reveal_strlit("&gt;");
        assert forall|c: char| (c == '<' || c == '>') implies !(a + b).contains(c) by {
            if (a + b).contains(c) {
                let k = choose|k: int| 0 <= k < (a + b).len() && (a + b)[k] == c;
                if k < a.len() {
                    assert(a[k] == c);
                } else {
                    assert(b[k - a.len()] == c);
                }
            }
        }
    }
}

/// Law: an escaped attribute value holds no `"`, `<` or `>`, so it cannot
/// end its attribute or open an element.
pub proof fn law_escaped_attribute_cannot_break_out(s: Seq<char>)
    ensures
        !escaped_attr(s).contains('"'),
        !escaped_attr(s).contains('<'),
        !escaped_attr(s).contains('>'),
    decreases s.len(),
{
    if s.len() > 0 {
        law_escaped_attribute_cannot_break_out(s.drop_last());
        let a = escaped_attr(s.drop_last());
        let b = attr_entity(s.last());
        reveal_strlit("&amp;");
        reveal_strlit("&lt;");
        reveal_strlit("&gt;");
        reveal_strlit("&quot;");
        assert forall|c: char| (c == '<' || c == '>' || c == '"') implies !(a + b).contains(c) by {
            if (a + b).contains(c) {
                let k = choose|k: int| 0 <= k < (a + b).len() && (a + b)[k] == c;
                if k < a.len() {
                    assert(a[k] == c);
                } else {
                    assert(b[k - a.len()] == c);
                }
            }
        }
    }
}

/// Law: structured data made script-safe holds no `<` or `>`, so no
/// `</script>` can close its element early.
pub proof fn law_script_data_closes_no_element(s: Seq<char>)
    ensures
        !escaped_script(s).contains('<'),
        !escaped_script(s).contains('>'),
    decreases s.len(),
{
    if s.len() > 0 {
        law_script_data_closes_no_element(s.drop_last());
        let a = escaped_script(s.drop_last());
        let b = script_entity(s.last());
        reveal_strlit("\\u0026");
        reveal_strlit("\\u003c");
        reveal_strlit("\\u003e");
        assert forall|c: char| (c == '<' || c == '>') implies !(a + b).contains(c) by {
            if (a + b).contains(c) {
                let k = choose|k: int| 0 <= k < (a + b).len() && (a + b)[k] == c;
                if k < a.len() {
                    assert(a[k] == c);
                } else {
                    assert(b[k - a.len()] == c);
                }
            }
        }
    }
}

} // verus!
