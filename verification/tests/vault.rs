use websave_core::import::ImportItem;
use websave_core::models::{LinkStatus, ListQuery, NewSave, Save, SavePatch};
use websave_core::monitor::CheckOutcome;
use websave_core::summary::summarize;
use websave_core::vault::{
    clean_tags, fts_expression, is_tracking_param, list_plan, needs_thumbnail, normalize_url,
    tags_text, thumbnail_path, union_tags, ImportOutcome, SaveRecord,
};
use websave_core::ImportReport;

fn s(v: &[&str]) -> Vec<String> {
    v.iter().map(|t| t.to_string()).collect()
}

fn record() -> SaveRecord {
    SaveRecord {
        id: 7,
        url: "https://tauri.app/".into(),
        title: "My Tauri title".into(),
        description: String::new(),
        notes: "mine".into(),
        favicon_url: String::new(),
        favorite: false,
        is_read: true,
        status: LinkStatus::Active,
        redirect_url: String::new(),
        http_status: Some(200),
        content_hash: "h".into(),
        archive_text: "old archive".into(),
        archived_at: Some(5),
        thumbnail: String::new(),
        created_at: 1_600_000_000,
        updated_at: 1_600_000_000,
        last_checked_at: Some(5),
    }
}

#[test]
fn urls_are_canonicalized() {
    assert_eq!(
        normalize_url("  https://example.com/a?utm_source=x&id=3&fbclid=y  ").unwrap(),
        "https://example.com/a?id=3"
    );
    assert_eq!(normalize_url("https://example.com/a?UTM_medium=m&si=1").unwrap(), "https://example.com/a");
    assert_eq!(normalize_url("https://tauri.app").unwrap(), "https://tauri.app/");
    for bad in ["not a url", "ftp://example.com/file", "javascript:alert(1)"] {
        assert_eq!(normalize_url(bad).unwrap_err().0, bad);
    }
    assert!(is_tracking_param("utm_campaign"));
    assert!(is_tracking_param("GCLID"));
    assert!(!is_tracking_param("id"));
}

#[test]
fn fts_expressions_quote_every_term() {
    assert_eq!(fts_expression("rust book").as_deref(), Some("\"rust\"* \"book\"*"));
    assert_eq!(
        fts_expression("\"unbalanced AND ( NEAR").as_deref(),
        Some("\"unbalanced\"* \"AND\"* \"(\"* \"NEAR\"*")
    );
    assert_eq!(fts_expression("  \" \"  "), None);
    assert_eq!(fts_expression(""), None);
}

#[test]
fn set_tags_dedupes_case_insensitively() {
    let cleaned = clean_tags(&s(&["Rust", "rust", " rust ", "web", "  "]));
    assert_eq!(cleaned, vec!["Rust", "web"]);
    assert_eq!(tags_text(&cleaned), "Rust web");
    assert_eq!(tags_text(&Vec::new()), "");
}

#[test]
fn import_tag_union_keeps_existing_first() {
    let merged = union_tags(&s(&["desktop"]), &s(&["rust", "Desktop"]));
    assert_eq!(merged, vec!["desktop", "rust"]);
    assert_eq!(clean_tags(&merged), vec!["desktop", "rust"]);
}

#[test]
fn import_merge_rules_per_field() {
    let item = ImportItem {
        url: "https://tauri.app/".into(),
        title: "Tauri — imported title".into(),
        description: "imported description".into(),
        notes: "imported notes".into(),
        tags: s(&["rust"]),
        favorite: true,
        created_at: Some(1_500_000_000),
    };
    let merged = record().imported_into(&item, 42);
    assert_eq!(merged.title, "My Tauri title", "user title not overwritten");
    assert_eq!(merged.description, "imported description", "empty field filled");
    assert_eq!(merged.notes, "mine");
    assert!(merged.favorite, "favorite is sticky");
    assert_eq!(merged.created_at, 1_500_000_000, "earliest date wins");
    assert_eq!(merged.updated_at, 42);

    let later = ImportItem { favorite: false, created_at: Some(1_700_000_000), ..item.clone() };
    let again = merged.imported_into(&later, 43);
    assert!(again.favorite);
    assert_eq!(again.created_at, 1_500_000_000);

    let fresh = SaveRecord::imported_new(9, "https://new.example/".into(), &ImportItem { created_at: None, ..item }, 77);
    assert_eq!(fresh.created_at, 77);
    assert!(!fresh.is_read);
    assert_eq!(fresh.status, LinkStatus::Unchecked);
}

#[test]
fn recapture_with_empty_fields_keeps_metadata() {
    let blank = NewSave { url: "https://tauri.app".into(), ..Default::default() };
    let r = record().recaptured(&blank, 50);
    assert_eq!(r.title, "My Tauri title");
    let better = NewSave { title: "Better title".into(), ..blank };
    let r = r.recaptured(&better, 51);
    assert_eq!(r.title, "Better title");
    assert_eq!(r.updated_at, 51);
    let first = SaveRecord::captured(1, "https://a.example/".into(), &better, 60);
    assert_eq!((first.created_at, first.updated_at), (60, 60));
    assert_eq!(first.status, LinkStatus::Unchecked);
}

#[test]
fn patches_and_repointing() {
    let p = SavePatch { notes: Some("ownership".into()), ..Default::default() };
    let r = record().patched(&p, 70);
    assert_eq!(r.notes, "ownership");
    assert_eq!(r.title, "My Tauri title");
    let moved = r.repointed("https://v2.tauri.app/".into(), 71);
    assert_eq!(moved.url, "https://v2.tauri.app/");
    assert_eq!(moved.status, LinkStatus::Unchecked);
    assert_eq!(moved.http_status, None);
    assert_eq!(moved.last_checked_at, None);
    assert_eq!(moved.content_hash, "");
}

#[test]
fn blank_archive_text_does_not_clobber_snapshot() {
    let blank = CheckOutcome {
        status: LinkStatus::Dead,
        http_status: Some(404),
        redirect_url: None,
        content_hash: None,
        og_image: None,
        archive_text: Some("  \n ".into()),
    };
    let r = record().checked(&blank, 90);
    assert_eq!(r.archive_text, "old archive");
    assert_eq!(r.archived_at, Some(5));
    assert_eq!(r.status, LinkStatus::Dead);
    assert_eq!(r.http_status, Some(404));
    assert_eq!(r.content_hash, "h", "None leaves the stored hash alone");
    assert_eq!(r.last_checked_at, Some(90));

    let fresh = CheckOutcome { archive_text: Some("new text".into()), content_hash: Some("n".into()), ..blank };
    let r = r.checked(&fresh, 91);
    assert_eq!(r.archive_text, "new text");
    assert_eq!(r.archived_at, Some(91));
    assert_eq!(r.content_hash, "n");

    // A transport failure has no HTTP code: the stored one stays.
    let failed = CheckOutcome { http_status: None, archive_text: None, content_hash: None, ..fresh };
    let r = r.checked(&failed, 92);
    assert_eq!(r.http_status, Some(404));
    assert_eq!(r.status, LinkStatus::Dead);
}

#[test]
fn import_reports_count_each_item_once() {
    let report = ImportReport::tally(&vec![ImportOutcome::New, ImportOutcome::Existing, ImportOutcome::Invalid, ImportOutcome::Existing]);
    assert_eq!((report.total, report.new, report.existing, report.invalid), (4, 1, 2, 1));
}

#[test]
fn list_query_limits() {
    let q = ListQuery::default();
    assert_eq!((q.effective_limit(), q.effective_offset()), (200, 0));
    let q = ListQuery { limit: Some(5000), offset: Some(-3), ..Default::default() };
    assert_eq!((q.effective_limit(), q.effective_offset()), (1000, 0));
    let q = ListQuery { limit: Some(0), offset: Some(10), ..Default::default() };
    assert_eq!((q.effective_limit(), q.effective_offset()), (1, 10));
}

#[test]
fn link_status_names_roundtrip() {
    for st in [LinkStatus::Unchecked, LinkStatus::Active, LinkStatus::Changed, LinkStatus::Redirected, LinkStatus::Dead] {
        assert_eq!(LinkStatus::parse(st.as_str()), st);
    }
    assert_eq!(LinkStatus::parse("bogus"), LinkStatus::Unchecked);
}

#[test]
fn summaries_carry_the_status_name() {
    let save = Save {
        id: 3,
        url: "https://a.example/".into(),
        title: "A".into(),
        description: String::new(),
        notes: String::new(),
        favicon_url: "f".into(),
        favorite: true,
        status: LinkStatus::Redirected,
        redirect_url: String::new(),
        http_status: None,
        tags: Vec::new(),
        created_at: 11,
        updated_at: 12,
        last_checked_at: None,
    };
    let sum = summarize(save);
    assert_eq!(sum.status, "redirected");
    assert_eq!((sum.id, sum.favorite, sum.created_at), (3, true, 11));
}

#[test]
fn listings_are_planned_from_the_query() {
    let plan = list_plan(&ListQuery::default());
    assert!(plan.fts.is_none() && plan.tag.is_none() && plan.status.is_none());
    assert!(!plan.favorites_only);
    assert_eq!((plan.limit, plan.offset), (200, 0));

    let q = ListQuery {
        query: Some("rust  book".into()),
        tag: Some("  Web ".into()),
        favorites_only: true,
        status: Some(LinkStatus::Dead),
        limit: Some(5000),
        offset: Some(-3),
    };
    let plan = list_plan(&q);
    assert_eq!(plan.fts.as_deref(), Some("\"rust\"* \"book\"*"));
    assert_eq!(plan.tag.as_deref(), Some("Web"));
    assert!(plan.favorites_only);
    assert_eq!(plan.status, Some(LinkStatus::Dead));
    assert_eq!((plan.limit, plan.offset), (1000, 0));

    let blank = ListQuery { query: Some("\"\" ".into()), tag: Some("   ".into()), limit: Some(0), ..ListQuery::default() };
    let plan = list_plan(&blank);
    assert!(plan.fts.is_none() && plan.tag.is_none());
    assert_eq!(plan.limit, 1);
}

#[test]
fn thumbnails_are_fetched_once_and_named_by_id() {
    let img = Some("https://e.com/c.png".to_string());
    assert!(needs_thumbnail(&img, &Some(String::new())));
    assert!(!needs_thumbnail(&img, &Some("thumbs/1.png".into())));
    assert!(!needs_thumbnail(&img, &None));
    assert!(!needs_thumbnail(&None, &Some(String::new())));
    assert_eq!(thumbnail_path(42, "png"), "thumbs/42.png");
    assert_eq!(thumbnail_path(0, "jpg"), "thumbs/0.jpg");
    assert_eq!(thumbnail_path(-7, "gif"), "thumbs/-7.gif");
    assert_eq!(thumbnail_path(i64::MAX, "webp"), format!("thumbs/{}.webp", i64::MAX));
    assert_eq!(thumbnail_path(i64::MIN, "webp"), format!("thumbs/{}.webp", i64::MIN));
}

/// A vault's saves held in memory: each row with its tag list.
type Store = Vec<(SaveRecord, Vec<String>)>;

fn find(store: &Store, url: &str) -> Option<usize> {
    store.iter().position(|(r, _)| r.url == url)
}

/// A capture applied as the vault applies it.
fn capture(store: &mut Store, new: &NewSave, now: i64) -> Result<i64, String> {
    let url = normalize_url(&new.url).map_err(|e| e.0)?;
    let at = match find(store, &url) {
        Some(i) => {
            let r = store[i].0.clone().recaptured(new, now);
            store[i].0 = r;
            i
        }
        None => {
            let id = store.len() as i64 + 1;
            store.push((SaveRecord::captured(id, url, new, now), Vec::new()));
            store.len() - 1
        }
    };
    if !new.tags.is_empty() {
        store[at].1 = clean_tags(&new.tags);
    }
    Ok(store[at].0.id)
}

/// An import applied as the vault applies it.
fn import(store: &mut Store, items: &[ImportItem], now: i64) -> ImportReport {
    let mut report = ImportReport::starting(items.len());
    for item in items {
        let Ok(url) = normalize_url(&item.url) else {
            report.record(ImportOutcome::Invalid);
            continue;
        };
        let at = match find(store, &url) {
            Some(i) => {
                let r = store[i].0.clone().imported_into(item, now);
                store[i].0 = r;
                report.record(ImportOutcome::Existing);
                i
            }
            None => {
                let id = store.len() as i64 + 1;
                store.push((SaveRecord::imported_new(id, url, item, now), Vec::new()));
                report.record(ImportOutcome::New);
                store.len() - 1
            }
        };
        if !item.tags.is_empty() {
            store[at].1 = clean_tags(&union_tags(&store[at].1, &item.tags));
        }
    }
    report
}

fn preview(store: &Store, items: &[ImportItem]) -> ImportReport {
    let outcomes: Vec<ImportOutcome> = items
        .iter()
        .map(|it| match normalize_url(&it.url) {
            Err(_) => ImportOutcome::Invalid,
            Ok(u) if find(store, &u).is_some() => ImportOutcome::Existing,
            Ok(_) => ImportOutcome::New,
        })
        .collect();
    ImportReport::tally(&outcomes)
}

#[test]
fn import_merges_without_destroying_user_data() {
    let mut store: Store = Vec::new();
    // Pre-existing save with user edits.
    let existing = capture(
        &mut store,
        &NewSave {
            url: "https://tauri.app".into(),
            title: "My Tauri title".into(),
            tags: s(&["desktop"]),
            ..Default::default()
        },
        1_700_000_000,
    )
    .unwrap();

    let items = vec![
        ImportItem {
            url: "https://tauri.app/".into(), // same after normalization
            title: "Tauri — imported title".into(),
            tags: s(&["rust", "Desktop"]),
            favorite: true,
            created_at: Some(1_500_000_000),
            ..Default::default()
        },
        ImportItem {
            url: "https://new.example.com".into(),
            title: "Brand new".into(),
            created_at: Some(1_600_000_000),
            ..Default::default()
        },
        ImportItem {
            url: "javascript:alert(1)".into(),
            ..Default::default()
        },
    ];

    let p = preview(&store, &items);
    assert_eq!((p.total, p.new, p.existing, p.invalid), (3, 1, 1, 1));

    let report = import(&mut store, &items, 1_700_000_100);
    assert_eq!((report.new, report.existing, report.invalid), (1, 1, 1));

    let (merged, tags) = &store[(existing - 1) as usize];
    assert_eq!(merged.title, "My Tauri title", "user title not overwritten");
    assert!(merged.favorite, "favorite is sticky");
    assert_eq!(merged.created_at, 1_500_000_000, "earliest date wins");
    assert_eq!(tags, &vec!["desktop", "rust"], "tag union, case-insensitive dedupe");

    assert_eq!(store.len(), 2);
    let new_save = store.iter().find(|(r, _)| r.title == "Brand new").unwrap();
    assert_eq!(new_save.0.created_at, 1_600_000_000, "original date kept");

    // Re-importing the same file is a no-op for counts of new items.
    let again = import(&mut store, &items, 1_700_000_200);
    assert_eq!((again.new, again.existing), (0, 2));
    assert_eq!(store.len(), 2);
}

#[test]
fn add_same_url_upserts_instead_of_duplicating() {
    let mut store: Store = Vec::new();
    let new = |title: &str| NewSave {
        url: "https://example.com/a".into(),
        title: title.into(),
        ..Default::default()
    };
    let first = capture(&mut store, &new("First title"), 1).unwrap();
    let second = capture(&mut store, &new("Better title"), 2).unwrap();
    assert_eq!(first, second);
    assert_eq!(store[0].0.title, "Better title");
    assert_eq!(store.len(), 1);

    // Empty fields in a re-capture must not wipe existing metadata.
    capture(
        &mut store,
        &NewSave {
            url: "https://example.com/a".into(),
            ..Default::default()
        },
        3,
    )
    .unwrap();
    assert_eq!(store[0].0.title, "Better title");
}

#[test]
fn rejects_invalid_urls() {
    let mut store: Store = Vec::new();
    for bad in ["not a url", "ftp://example.com/file", "javascript:alert(1)"] {
        let r = capture(
            &mut store,
            &NewSave {
                url: bad.into(),
                ..Default::default()
            },
            1,
        );
        assert_eq!(r, Err(bad.to_string()), "expected an invalid URL for {bad:?}");
    }
    assert!(store.is_empty());
}

#[test]
fn merging_the_same_tags_twice_changes_nothing() {
    let new = s(&["rust", " Desktop ", "rust ", "  ", "web"]);
    let once = clean_tags(&union_tags(&s(&["desktop"]), &new));
    assert_eq!(once, vec!["desktop", "rust", "web"]);
    let twice = clean_tags(&union_tags(&once, &new));
    assert_eq!(twice, once);
}
