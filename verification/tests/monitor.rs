use websave_core::models::LinkStatus;
use websave_core::monitor::{
    answered, downloaded_image, extract_og_image, hex_sha256, image_extension, needs_browser_retry, refused,
    same_destination, settle_retry, no_response,
};

#[test]
fn og_image_extraction_and_resolution() {
    let html = r#"<html><head>
            <meta charset="utf-8">
            <meta name="description" content="not an image">
            <meta property="og:image" content="/static/cover.png?v=2">
        </head></html>"#;
    assert_eq!(
        extract_og_image(html, "https://example.com/post/1"),
        Some("https://example.com/static/cover.png?v=2".into())
    );

    let twitter = r#"<META NAME="twitter:image" CONTENT="https://cdn.example.com/t.jpg">"#;
    assert_eq!(
        extract_og_image(twitter, "https://example.com"),
        Some("https://cdn.example.com/t.jpg".into())
    );

    assert_eq!(extract_og_image("<html>no meta</html>", "https://e.com"), None);
    assert_eq!(
        extract_og_image(
            r#"<meta property="og:image" content="data:image/png;base64,xx">"#,
            "https://e.com"
        ),
        None,
        "non-http schemes rejected"
    );
}

#[test]
fn scheme_and_www_changes_are_same_destination() {
    assert!(same_destination(
        "http://example.com/docs",
        "https://www.example.com/docs/"
    ));
    assert!(!same_destination(
        "https://example.com/docs",
        "https://example.com/other"
    ));
    assert!(!same_destination(
        "https://example.com/docs",
        "https://elsewhere.org/docs"
    ));
}

#[test]
fn image_src_link_fallback() {
    let html = r#"<link rel="image_src" href="img/a.png"><p>x</p>"#;
    assert_eq!(
        extract_og_image(html, "https://e.com/dir/page"),
        Some("https://e.com/dir/img/a.png".into())
    );
}

#[test]
fn sha256_hex_of_empty_body() {
    assert_eq!(
        hex_sha256(b""),
        "e3b0c44298fc1c149afbf4c8996fb92427ae41e4649b934ca495991b7852b855"
    );
}

#[test]
fn classification_of_answers() {
    let page = b"<html><head><meta property=\"og:image\" content=\"/c.png\"></head><body><p>Hi there</p></body></html>";
    let ok = answered("https://e.com/a", "", 200, "https://e.com/a", "text/html; charset=utf-8", page);
    assert_eq!(ok.status, LinkStatus::Active);
    assert_eq!(ok.http_status, Some(200));
    assert_eq!(ok.redirect_url.as_deref(), Some(""));
    assert_eq!(ok.og_image.as_deref(), Some("https://e.com/c.png"));
    assert_eq!(ok.archive_text.as_deref(), Some("Hi there"));
    let hash = ok.content_hash.clone().unwrap();

    let same = answered("https://e.com/a", &hash, 200, "https://e.com/a", "text/html", page);
    assert_eq!(same.status, LinkStatus::Active);
    let changed = answered("https://e.com/a", "abc", 200, "https://e.com/a", "text/html", page);
    assert_eq!(changed.status, LinkStatus::Changed);
    let moved = answered("https://e.com/a", "", 200, "https://other.org/b", "image/png", page);
    assert_eq!(moved.status, LinkStatus::Redirected);
    assert_eq!(moved.redirect_url.as_deref(), Some("https://other.org/b"));
    assert_eq!(moved.archive_text, None, "not html");
}

#[test]
fn classification_of_refusals_and_failures() {
    assert_eq!(refused("https://e.com", 404, "https://e.com").status, LinkStatus::Dead);
    assert_eq!(refused("https://e.com", 410, "https://e.com").status, LinkStatus::Dead);
    assert_eq!(refused("https://e.com", 503, "https://e.com").status, LinkStatus::Dead);
    assert_eq!(refused("https://e.com", 403, "https://e.com").status, LinkStatus::Active);
    assert_eq!(refused("https://e.com", 429, "https://x.org").status, LinkStatus::Redirected);
    let down = no_response();
    assert_eq!(down.status, LinkStatus::Dead);
    assert_eq!(down.http_status, None);
    assert!(!needs_browser_retry(&down), "transport failures are believed");
    let dead = refused("https://e.com", 404, "https://e.com");
    assert!(needs_browser_retry(&dead));
    let retry = refused("https://e.com", 403, "https://e.com");
    assert_eq!(settle_retry(dead.clone(), retry).status, LinkStatus::Active);
    let retry_dead = refused("https://e.com", 500, "https://e.com");
    assert_eq!(settle_retry(dead, retry_dead).http_status, Some(404));
}

#[test]
fn image_extensions() {
    assert_eq!(image_extension("image/JPEG"), Some("jpg"));
    assert_eq!(image_extension("image/jpg"), Some("jpg"));
    assert_eq!(image_extension("image/avif"), Some("avif"));
    assert_eq!(image_extension("text/html"), None);
}

#[test]
fn downloaded_images_need_a_known_type_and_content() {
    assert_eq!(downloaded_image("image/PNG", vec![1, 2]), Some((vec![1, 2], "png")));
    assert_eq!(downloaded_image("image/png", Vec::new()), None);
    assert_eq!(downloaded_image("text/html", vec![1]), None);
}
