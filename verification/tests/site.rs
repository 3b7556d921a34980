use mer3ly_site::site::{
    ActivePage, DocumentMetadata, nav_link_attributes, SocialImage, content_addressed_href, escape_attr, escape_json_for_script, escape_text,
    format_html_fragment, html_tag_name, indent_lines, is_block_tag, is_container_tag, is_void_tag, render_document,
    render_shell, stylesheet_href,
};

#[test]
fn metadata_escaping_is_safe() {
    assert_eq!(escape_text("A & B < C"), "A &amp; B &lt; C");
    assert_eq!(escape_attr("\"quoted\""), "&quot;quoted&quot;");
}

#[test]
fn stylesheet_href_is_content_addressed() {
    let href = stylesheet_href("body { color: black; }");
    assert!(href.starts_with("/site.css?v="));
    assert_eq!(href.len(), "/site.css?v=".len() + 12);
}

#[test]
fn html_formatter_puts_structural_elements_on_indented_lines() {
    let source = [
        "<body class=\"site-body\"><div class=\"page-shell\">",
        "<p>Hello <a href=\"/\">reader</a>.</p>",
        "<svg><line x1=\"0\" x2=\"1\"></line><text>label</text></svg>",
        "</div></body>",
    ]
    .join("");
    let source = source.as_str();
    let formatted = format_html_fragment(source);

    assert_eq!(
        formatted,
        [
            "<body class=\"site-body\">\n",
            "  <div class=\"page-shell\">\n",
            "    <p>Hello <a href=\"/\">reader</a>.</p>\n",
            "    <svg>\n",
            "      <line x1=\"0\" x2=\"1\"></line>\n",
            "      <text>label</text>\n",
            "    </svg>\n",
            "  </div>\n",
            "</body>\n",
        ]
        .join("")
    );
}

#[test]
fn structured_data_escaping_closes_no_script_element() {
    let mut object = serde_json::Map::new();
    object.insert(
        "description".to_owned(),
        serde_json::Value::String("</script><script>alert(1)</script>".to_owned()),
    );
    let value = serde_json::Value::Object(object);
    let encoded = escape_json_for_script(&serde_json::to_string_pretty(&value).expect("serializable"));
    assert!(!encoded.contains("</script>"));
    assert!(encoded.contains("\\u003c/script\\u003e"));
    assert_eq!(escape_json_for_script("a&b"), "a\\u0026b");
}

#[test]
fn content_addresses_change_with_content() {
    let first = content_addressed_href("/devices.css", "a");
    let second = content_addressed_href("/devices.css", "b");
    assert_ne!(first, second);
    assert_eq!(first, "/devices.css?v=ca978112ca1b");
}

#[test]
fn tag_names_and_classes() {
    assert_eq!(html_tag_name("<div class=\"x\">"), "div");
    assert_eq!(html_tag_name("</section>"), "section");
    assert_eq!(html_tag_name("<br/>"), "br");
    assert_eq!(html_tag_name("<<//p>"), "p");
    assert!(is_block_tag("h3") && !is_block_tag("span"));
    assert!(is_container_tag("tbody") && !is_container_tag("p"));
    assert!(is_void_tag("meta") && !is_void_tag("div"));
}

#[test]
fn unclosed_markup_is_kept_as_text() {
    assert_eq!(format_html_fragment("<p>a</p><b"), "<p>a</p>\n<b");
    assert_eq!(format_html_fragment("plain"), "plain");
    assert_eq!(format_html_fragment("<div><img src=\"x\"><hr/></div>"), "<div>\n  <img src=\"x\">\n  <hr/>\n</div>\n");
}

#[test]
fn body_end_lines_are_indented_before_the_closing_body() {
    assert_eq!(indent_lines("<script></script>\r\n<noscript></noscript>", 1), "  <script></script>\n  <noscript></noscript>");
    let metadata = DocumentMetadata {
        title: "Mer3ly & co",
        description: "A \"quoted\" page",
        canonical_url: "https://mer3ly.net/",
        social_image: SocialImage { url: "https://mer3ly.net/og.jpg", mime_type: "image/jpeg", alt: "Merely" },
        json_ld: "{}",
    };
    let page = render_document(&metadata, "<body><main></main></body>", "<script src=\"/x.js\"></script>", None, "css");
    assert!(page.starts_with("<!doctype html>\n<html lang=\"en\">\n<head>\n"));
    assert!(page.contains("<title>Mer3ly &amp; co</title>"));
    assert!(page.contains("<meta name=\"description\" content=\"A &quot;quoted&quot; page\">"));
    assert!(page.contains("<body>\n  <main>\n  </main>\n  <script src=\"/x.js\"></script>\n</body>\n"));
    assert!(page.ends_with("</body>\n\n</html>\n"));
    let shell = render_shell(&metadata, "<body></body>", Some(("/devices.css", "a")), "css");
    assert!(shell.contains("  <link rel=\"stylesheet\" href=\"/devices.css?v=ca978112ca1b\">\n"));
}

#[test]
fn robots_policy_names_the_canonical_sitemap() {
    assert_eq!(
        mer3ly_site::discovery::ROBOTS_TXT,
        "User-agent: *\nAllow: /\nSitemap: https://mer3ly.net/sitemap.xml\n"
    );
}

#[test]
fn only_the_current_page_link_is_marked_current() {
    assert_eq!(
        nav_link_attributes(ActivePage::Radio, ActivePage::Radio),
        vec![("href", "/radio.html"), ("aria-current", "page"), ("class", "nav-link is-current")]
    );
    assert_eq!(nav_link_attributes(ActivePage::Radio, ActivePage::Devices), vec![("href", "/devices/"), ("class", "nav-link")]);
    assert_eq!(nav_link_attributes(ActivePage::Home, ActivePage::Home)[0], ("href", "/"));
    assert_eq!(nav_link_attributes(ActivePage::Home, ActivePage::Repositories)[0], ("href", "/repos/"));
}

