use websave_core::models::{LinkStatus, Save};
use websave_core::tray::{
    click_hides_panel, menu_action, menu_label, recent_query, recent_saves, starred_query,
    tray_menu, MenuAction, MenuEntry, QuickPanelGuard,
};

fn save(id: i64, url: &str, title: &str, favorite: bool) -> Save {
    Save {
        id,
        url: url.into(),
        title: title.into(),
        description: String::new(),
        notes: String::new(),
        favicon_url: String::new(),
        favorite,
        status: LinkStatus::Unchecked,
        redirect_url: String::new(),
        http_status: None,
        tags: Vec::new(),
        created_at: 0,
        updated_at: 0,
        last_checked_at: None,
    }
}

fn item(e: &MenuEntry) -> Option<(String, String, bool)> {
    match e {
        MenuEntry::Item { id, label, enabled } => Some((id.clone(), label.clone(), *enabled)),
        MenuEntry::Separator => None,
    }
}

#[test]
fn guard_turns_the_closing_click_into_a_close() {
    let mut guard = QuickPanelGuard::new(1_000);
    assert!(!guard.hidden_just_now(1_000));
    assert!(!click_hides_panel(false, &guard, 1_000));
    assert!(click_hides_panel(true, &guard, 1_000));
    guard.mark_hidden(5_000);
    assert!(guard.hidden_just_now(5_000));
    assert!(guard.hidden_just_now(5_299));
    assert!(!guard.hidden_just_now(5_300));
    assert!(click_hides_panel(false, &guard, 5_100));
    assert!(!click_hides_panel(false, &guard, 6_000));
}

#[test]
fn menu_labels_prefer_the_trimmed_title() {
    assert_eq!(menu_label("  Rust Book  ", "https://doc.rust-lang.org/book/"), "Rust Book");
    assert_eq!(menu_label("", "https://www.example.com/a"), "example.com/a");
    assert_eq!(menu_label(" \t", "http://http://x.org"), "x.org");
    let long = "a".repeat(50);
    assert_eq!(menu_label(&long, "https://e.com"), format!("{}\u{2026}", "a".repeat(48)));
    let exact = "b".repeat(48);
    assert_eq!(menu_label(&exact, "https://e.com"), exact);
}

#[test]
fn recent_section_skips_starred_and_keeps_five() {
    let listing: Vec<Save> = (1..=9).map(|i| save(i, "https://e.com", "t", i % 2 == 0)).collect();
    let ids: Vec<i64> = recent_saves(listing).iter().map(|s| s.id).collect();
    assert_eq!(ids, vec![1, 3, 5, 7, 9]);
    let few: Vec<Save> = vec![save(1, "u", "t", true), save(2, "u", "t", false)];
    let ids: Vec<i64> = recent_saves(few).iter().map(|s| s.id).collect();
    assert_eq!(ids, vec![2]);
}

#[test]
fn listings_behind_the_menu() {
    let starred = starred_query();
    assert!(starred.favorites_only);
    assert_eq!(starred.limit, Some(12));
    let recent = recent_query();
    assert!(!recent.favorites_only);
    assert_eq!(recent.limit, Some(17));
}

#[test]
fn empty_menu_says_so() {
    let menu = tray_menu(&Vec::new(), &Vec::new());
    assert_eq!(menu.len(), 5);
    assert_eq!(item(&menu[0]), Some(("hdr-starred".into(), "Starred".into(), false)));
    assert_eq!(
        item(&menu[1]),
        Some(("hdr-no-starred".into(), "No starred saves yet".into(), false))
    );
    assert_eq!(item(&menu[2]), None);
    assert_eq!(item(&menu[3]), Some(("open".into(), "Open WebSave".into(), true)));
    assert_eq!(item(&menu[4]), Some(("quit".into(), "Quit WebSave".into(), true)));
}

#[test]
fn menu_lists_starred_then_recent() {
    let starred = vec![save(1, "https://a.com/", "A", true)];
    let recent = vec![save(2, "https://www.b.com/x", "", false)];
    let menu = tray_menu(&starred, &recent);
    assert_eq!(menu.len(), 8);
    assert_eq!(item(&menu[1]), Some(("url:https://a.com/".into(), "A".into(), true)));
    assert_eq!(item(&menu[2]), None);
    assert_eq!(item(&menu[3]), Some(("hdr-recent".into(), "Recent".into(), false)));
    assert_eq!(item(&menu[4]), Some(("url:https://www.b.com/x".into(), "b.com/x".into(), true)));
    assert_eq!(item(&menu[5]), None);
}

#[test]
fn menu_items_do_what_they_say() {
    assert!(matches!(menu_action("open"), MenuAction::ShowMain));
    assert!(matches!(menu_action("quit"), MenuAction::Quit));
    match menu_action("url:https://a.com/?q=1") {
        MenuAction::OpenUrl(u) => assert_eq!(u, "https://a.com/?q=1"),
        _ => panic!("expected a URL"),
    }
    assert!(matches!(menu_action("hdr-starred"), MenuAction::Nothing));
}
