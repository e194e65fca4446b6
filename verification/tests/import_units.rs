use websave_core::import::{attr, parse_epoch, parse_timestamp, parse_url_list, ImportFormat};

#[test]
fn timestamps() {
    assert_eq!(parse_epoch("1588327800"), Some(1_588_327_800));
    assert_eq!(parse_epoch("1588327800000"), Some(1_588_327_800)); // ms
    assert_eq!(parse_epoch("99"), None);
    assert_eq!(
        parse_timestamp("2020-05-01T10:10:00.000Z"),
        Some(1_588_327_800)
    );
    assert_eq!(parse_timestamp("2020-05-01"), Some(1_588_291_200));
    assert_eq!(parse_timestamp("not a date"), None);
}

#[test]
fn attrs_and_entities() {
    let tag = r#"<A HREF="https://e.com/?a=1&amp;b=2" ADD_DATE="1588327800" TAGS="rust,web">"#;
    assert_eq!(attr(tag, "href").as_deref(), Some("https://e.com/?a=1&b=2"));
    assert_eq!(attr(tag, "add_date").as_deref(), Some("1588327800"));
    assert_eq!(attr(tag, "missing"), None);
}

#[test]
fn epoch_precision_and_window() {
    assert_eq!(parse_epoch(" 1588327800000000 "), Some(1_588_327_800)); // µs
    assert_eq!(parse_epoch("+1588327800"), Some(1_588_327_800));
    assert_eq!(parse_epoch("-1588327800"), None);
    assert_eq!(parse_epoch("4102444800"), None, "2100 is outside the window");
    assert_eq!(parse_epoch("631152000"), Some(631_152_000));
    assert_eq!(parse_epoch("99999999999999999999"), None, "overflows i64");
    assert_eq!(parse_epoch(""), None);
}

#[test]
fn epochs_read_back_in_any_precision() {
    for n in [631_152_000i64, 1_600_000_000, 4_102_444_799] {
        assert_eq!(parse_epoch(&n.to_string()), Some(n));
        assert_eq!(parse_epoch(&(n * 1_000).to_string()), Some(n));
        assert_eq!(parse_epoch(&(n * 1_000_000).to_string()), Some(n));
        assert_eq!(parse_timestamp(&n.to_string()), Some(n));
    }
    assert_eq!(parse_timestamp("2024-01-31"), Some(1_706_659_200));
}

#[test]
fn iso_dates_before_march_and_with_partial_time() {
    // January and February count towards the previous year in the civil algorithm
    assert_eq!(parse_timestamp("2000-02-29"), Some(951_782_400));
    assert_eq!(parse_timestamp("2000-03-01T00:00:01Z"), Some(951_868_801));
    assert_eq!(parse_timestamp("2020-13-01"), None);
    assert_eq!(parse_timestamp("2020-05"), None);
    assert_eq!(parse_timestamp("1989-12-31"), None);
    assert_eq!(parse_timestamp("2020-05-0é1"), None);
}

#[test]
fn attribute_values_quoting() {
    assert_eq!(attr("<a data-href=x href=y>", "href").as_deref(), Some("y"));
    assert_eq!(attr("<a href='q'>", "href").as_deref(), Some("q"));
    assert_eq!(attr("<a href=\"open", "href").as_deref(), Some("open"));
    assert_eq!(attr("<a href=&lt;b&gt;>", "href").as_deref(), Some("<b>"));
}

#[test]
fn url_list_skips_comments_and_crlf() {
    let items = parse_url_list("#https://hidden.example\r\n> https://quoted.example\r\n");
    assert_eq!(items.len(), 1);
    assert_eq!(items[0].url, "https://quoted.example");
}

#[test]
fn format_labels() {
    assert_eq!(ImportFormat::NetscapeHtml.label(), "Browser bookmarks (HTML)");
    assert_eq!(ImportFormat::RaindropCsv.label(), "Raindrop.io CSV");
    assert_eq!(ImportFormat::PocketCsv.label(), "Pocket CSV");
    assert_eq!(ImportFormat::GenericCsv.label(), "CSV");
    assert_eq!(ImportFormat::UrlList.label(), "URL list");
}

#[test]
fn url_lists_give_at_most_one_item_per_line() {
    let content = "https://a.example https://b.example\n\n- [B](https://c.example)\nnot a link\n";
    let items = parse_url_list(content);
    assert!(items.len() <= content.lines().count());
    let urls: Vec<&str> = items.iter().map(|i| i.url.as_str()).collect();
    assert_eq!(urls, vec!["https://a.example", "https://c.example"]);
    assert!(parse_url_list("").is_empty());
}
