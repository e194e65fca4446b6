use websave_core::extract::{extract_readable_text, MAX_ARCHIVE_CHARS};

#[test]
fn strips_noise_and_keeps_prose() {
    let html = r#"<html><head><title>T</title><style>.x{color:red}</style></head>
        <body><script>var x = "ignore me";</script>
        <nav><a href="/">Home</a></nav>
        <p>Hello &amp; welcome to the <b>article</b> body.</p>
        </body></html>"#;
    let text = extract_readable_text(html);
    assert!(text.contains("Hello & welcome to the article body."));
    assert!(!text.contains("ignore me"));
    assert!(!text.contains("color:red"));
    assert!(!text.contains('<'));
}

#[test]
fn prefers_article_over_page_chrome() {
    let html = r#"<body>
          <header>Site chrome everywhere</header>
          <article><h1>Real Title</h1><p>The actual content lives here.</p></article>
          <footer>Copyright chrome</footer>
        </body>"#;
    let text = extract_readable_text(html);
    assert!(text.contains("The actual content lives here."));
    assert!(!text.contains("Site chrome"));
    assert!(!text.contains("Copyright"));
}

#[test]
fn caps_length_and_collapses_whitespace() {
    let big = format!("<body><p>{}</p></body>", "word ".repeat(40_000));
    let text = extract_readable_text(&big);
    assert!(text.len() <= MAX_ARCHIVE_CHARS + 10);
    assert!(!text.contains("  "), "whitespace collapsed");
}

#[test]
fn handles_tagless_and_broken_input() {
    assert_eq!(extract_readable_text("plain words"), "plain words");
    assert_eq!(extract_readable_text("<script>only noise"), "");
    assert_eq!(extract_readable_text(""), "");
}

#[test]
fn main_and_body_are_fallback_scopes() {
    let text = extract_readable_text("<nav>menu</nav><main><p>Main text</p></main>");
    assert_eq!(text, "Main text");
    let text = extract_readable_text("<head><title>x</title></head><body>Body text</body>");
    assert_eq!(text, "Body text");
}

#[test]
fn nested_same_name_blocks_and_artifacts() {
    // `<art` must not match `<artifact>`; the last closing tag bounds the subtree.
    let html = "<artifact>skip</artifact><article>a <article>b</article> c</article>";
    assert_eq!(extract_readable_text(html), "a b c");
}

#[test]
fn noise_blocks_are_case_insensitive_and_unclosed_ones_swallow_the_rest() {
    assert_eq!(extract_readable_text("Keep <SCRIPT type=x>drop</ScRiPt> this"), "Keep this");
    assert_eq!(extract_readable_text("before <style>never closed"), "before");
}

#[test]
fn cap_holds_even_inside_a_long_word() {
    let word = "a".repeat(60_000);
    let html = format!("{w} {w} {w}", w = word);
    let text = extract_readable_text(&html);
    assert_eq!(text.chars().count(), MAX_ARCHIVE_CHARS);
    assert!(html.starts_with(text.as_str()));
    // a cut that would end on the joining space drops it
    let html = format!("{} bbb", "a".repeat(99_999));
    let text = extract_readable_text(&html);
    assert_eq!(text, "a".repeat(99_999));
    let under = format!("{} b", "a".repeat(99_998));
    assert_eq!(extract_readable_text(&under), under);
}

#[test]
fn unicode_whitespace_separates_words() {
    assert_eq!(extract_readable_text("one\u{00a0}two\u{3000}three&nbsp;four"), "one two three four");
}

#[test]
fn plain_text_is_its_words_joined() {
    assert_eq!(extract_readable_text("  plain\twords \n\n here  "), "plain words here");
    let long = "abc ".repeat(30_000);
    let text = extract_readable_text(&long);
    let full = long.split_whitespace().collect::<Vec<_>>().join(" ");
    assert!(full.starts_with(text.as_str()));
    assert!(text.len() < full.len());
}
