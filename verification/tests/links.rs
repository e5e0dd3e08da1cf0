use little_crawl::links::{fetch_links, links_from, PageError};
use little_crawl::resolve::{get_full_url, resolve, resolve_as, ResolveError};

#[test]
fn full_url() {
    let base = "https://www.rust-lang.org";

    // Possible relative hyperlinks
    let a1 = "/learn";
    let a2 = "/policies";

    // Connect relative hyperlinks with base
    let full_url1 = get_full_url(base, a1).unwrap();
    let full_url2 = get_full_url(base, a2).unwrap();

    // Are the absolute Urls correct?
    assert_eq!(full_url1.as_str(), "https://www.rust-lang.org/learn");
    assert_eq!(full_url2.as_str(), "https://www.rust-lang.org/policies");
}

#[test]
fn finding_urls() {
    let html = r#"
        <!DOCTYPE html>
        <meta charset="utf-8">
        <html>
            <head>
                <title>Hello, world!</title>
            </head>
            <body>
                <h1 class="foo">Hello, <i>world!</i></h1>
                <a href="https://www.w3schools.com/">Visit W3Schools.com!</a>
                <a href="https://google.com">Google</a>
                <div>
                    <a href="https://neetcode.com">Neetcode</a>
                </div>
            </body>
        </html>
    "#;
    let links = fetch_links("https://www.rust-lang.org", html).unwrap();
    assert_eq!(
        links,
        vec![
            "https://www.w3schools.com/".to_string(),
            "https://google.com".to_string(),
            "https://neetcode.com".to_string(),
        ]
    );
}

#[test]
fn leading_slash_is_dropped_before_joining() {
    assert_eq!(
        get_full_url("https://example.org/docs/index.html", "/guide").unwrap(),
        "https://example.org/docs/guide"
    );
    assert_eq!(
        get_full_url("https://example.org/docs/index.html", "guide").unwrap(),
        "https://example.org/docs/guide"
    );
    assert_eq!(get_full_url("https://example.org", "").unwrap(), "https://example.org/");
}

#[test]
fn unparsable_base_is_an_error() {
    assert_eq!(get_full_url("not a url", "/learn"), Err(ResolveError));
    assert_eq!(resolve("not a url", "learn"), Err(ResolveError));
}

#[test]
fn unparsable_reference_is_an_error() {
    assert_eq!(resolve("https://example.org", "https://exa mple.org/"), Err(ResolveError));
}

#[test]
fn absolute_reference_is_kept_letter_for_letter() {
    assert_eq!(resolve("https://example.org", "https://google.com").unwrap(), "https://google.com");
    assert_eq!(
        resolve("https://example.org", "HTTPS://Google.com/a/../b").unwrap(),
        "HTTPS://Google.com/a/../b"
    );
}

#[test]
fn reference_that_cannot_be_a_base_is_joined() {
    assert_eq!(
        resolve("https://example.org", "mailto:someone@example.org").unwrap(),
        "mailto:someone@example.org"
    );
}

#[test]
fn resolve_as_follows_the_kind() {
    assert_eq!(resolve_as("https://example.org", "/a", Some(false)).unwrap(), "/a");
    assert_eq!(resolve_as("https://example.org", "/a", Some(true)).unwrap(), "https://example.org/a");
    assert_eq!(resolve_as("https://example.org", "/a", None).unwrap(), "https://example.org/a");
}

#[test]
fn links_skip_anchors_without_reference_and_unresolvable_ones() {
    let hrefs = vec![
        Some("/a".to_string()),
        None,
        Some("https://exa mple.org/".to_string()),
        Some("b/c".to_string()),
        Some("https://other.org/x".to_string()),
    ];
    assert_eq!(
        links_from("https://example.org/dir/page", Some(hrefs)).unwrap(),
        vec![
            "https://example.org/dir/a".to_string(),
            "https://example.org/dir/b/c".to_string(),
            "https://other.org/x".to_string(),
        ]
    );
}

#[test]
fn body_that_could_not_be_searched_is_a_parse_error() {
    assert_eq!(links_from("https://example.org/", None), Err(PageError::Parse));
    assert_eq!(links_from("https://example.org/", Some(vec![])), Ok(vec![]));
}

#[test]
fn page_links_come_in_document_order() {
    let html = r#"<html><body>
        <a href="/one">1</a>
        <p><a name="anchor-without-href">x</a></p>
        <a href="two">2</a>
        <a href="https://elsewhere.net/three">3</a>
        <a href="/one">again</a>
    </body></html>"#;
    assert_eq!(
        fetch_links("https://site.test/", html).unwrap(),
        vec![
            "https://site.test/one".to_string(),
            "https://site.test/two".to_string(),
            "https://elsewhere.net/three".to_string(),
            "https://site.test/one".to_string(),
        ]
    );
}

#[test]
fn page_without_anchors_has_no_links() {
    assert_eq!(fetch_links("https://site.test/", "<p>nothing here</p>").unwrap(), Vec::<String>::new());
    assert_eq!(fetch_links("https://site.test/", "").unwrap(), Vec::<String>::new());
}
