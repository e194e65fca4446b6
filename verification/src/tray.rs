//! Quick access from the system tray: what the dropdown menu lists, what a
//! click on one of its items does, and the guard that keeps a click on the
//! tray icon from reopening the panel that the same click just closed.
use vstd::prelude::*;

use crate::models::{ListQuery, Save};
use crate::text::{
    append_chars, chars_of, eq_chars, slice_chars, starts_with, starts_with_exec, string_of, trim,
    trim_vec,
};

verus! {

/// Starred saves listed in the dropdown, at most.
pub const MAX_STARRED: i64 = 12;

/// Recent (not starred) saves listed in the dropdown, at most.
pub const MAX_RECENT: usize = 5;

/// Characters of a save's label before it is cut short with an ellipsis.
pub const TITLE_MAX_CHARS: usize = 48;

/// How long after the panel hid a click on the tray still counts as the
/// click that hid it, in milliseconds.
pub const REOPEN_GUARD_MS: i64 = 300;

// ------------------------------------------------------------ the guard --

/// Clicking the tray while the panel is open first blurs the panel (hiding
/// it), then delivers the click (which would show it again). The guard
/// remembers when the panel last hid, on a monotonic millisecond clock that
/// the host reads, so that click closes the panel instead.
pub struct QuickPanelGuard {
    pub hidden_at_ms: i64,
}

/// The panel hid less than `REOPEN_GUARD_MS` before `now` (or, on a clock
/// read out of order, after it).
pub open spec fn hid_just_before(hidden_at: int, now: int) -> bool {
    now - hidden_at < REOPEN_GUARD_MS
}

impl QuickPanelGuard {
    /// A guard whose panel last hid a minute before `now_ms`.
    pub fn new(now_ms: i64) -> (r: QuickPanelGuard)
        requires
            now_ms >= i64::MIN + 60000,
        ensures
            r.hidden_at_ms == now_ms - 60000,
    {
        QuickPanelGuard { hidden_at_ms: now_ms - 60000 }
    }

    /// The panel hid at `now_ms`.
    pub fn mark_hidden(&mut self, now_ms: i64)
        ensures
            final(self).hidden_at_ms == now_ms,
    {
        self.hidden_at_ms = now_ms;
    }

    pub fn hidden_just_now(&self, now_ms: i64) -> (r: bool)
        ensures
            r == hid_just_before(self.hidden_at_ms as int, now_ms as int),
    {
        let elapsed: i128 = now_ms as i128 - self.hidden_at_ms as i128;
        elapsed < REOPEN_GUARD_MS as i128
    }
}

/// A left click on the tray icon hides the panel when it is showing or has
/// just been hidden by that same click; otherwise it shows the panel.
pub fn click_hides_panel(visible: bool, guard: &QuickPanelGuard, now_ms: i64) -> (r: bool)
    ensures
        r == (visible || hid_just_before(guard.hidden_at_ms as int, now_ms as int)),
{
    visible || guard.hidden_just_now(now_ms)
}

/// A click that arrives within the guard window after the panel hid closes
/// the panel, whether or not the panel still reports itself visible.
pub proof fn lemma_click_after_hide_closes(hidden_at: int, now: int, visible: bool)
    requires
        hidden_at <= now < hidden_at + REOPEN_GUARD_MS,
    ensures
        visible || hid_just_before(hidden_at, now),
{
}

/// A fresh guard never reports a recent hide at or after the moment it was
/// made: the first click on the tray opens the panel.
pub proof fn lemma_fresh_guard_opens(created: int, now: int)
    requires
        created <= now,
    ensures
        !hid_just_before(created - 60000, now),
{
}

// ------------------------------------------------------------- the menu --

/// The listing that fills the "Starred" section.
pub fn starred_query() -> (r: ListQuery)
    ensures
        r.query is None && r.tag is None && r.favorites_only && r.status is None
            && r.limit == Some(MAX_STARRED) && r.offset is None,
{
    ListQuery {
        query: None,
        tag: None,
        favorites_only: true,
        status: None,
        limit: Some(MAX_STARRED),
        offset: None,
    }
}

/// The listing the "Recent" section is picked from: enough newest saves
/// that `MAX_RECENT` unstarred ones remain even when all the starred ones
/// are among them.
pub fn recent_query() -> (r: ListQuery)
    ensures
        r.query is None && r.tag is None && !r.favorites_only && r.status is None
            && r.limit == Some((MAX_STARRED + MAX_RECENT) as i64) && r.offset is None,
{
    ListQuery {
        query: None,
        tag: None,
        favorites_only: false,
        status: None,
        limit: Some(MAX_STARRED + MAX_RECENT as i64),
        offset: None,
    }
}

/// The saves of `s` that are not starred, in order.
pub open spec fn unstarred(s: Seq<Save>) -> Seq<Save>
    decreases s.len(),
{
    if s.len() == 0 {
        seq![]
    } else if s.last().favorite {
        unstarred(s.drop_last())
    } else {
        unstarred(s.drop_last()).push(s.last())
    }
}

/// At most the first `n` elements of `s`.
pub open spec fn first_n<T>(s: Seq<T>, n: nat) -> Seq<T> {
    if s.len() <= n {
        s
    } else {
        s.take(n as int)
    }
}

/// The "Recent" section: the first `MAX_RECENT` unstarred saves of a
/// newest-first listing.
pub fn recent_saves(listing: Vec<Save>) -> (r: Vec<Save>)
    ensures
        r@ == first_n(unstarred(listing@), MAX_RECENT as nat),
{
    let ghost all = listing@;
    let mut out: Vec<Save> = Vec::new();
    for s in it: listing.into_iter()
        invariant
            it.seq() == all,
            out@ == first_n(unstarred(all.take(it.index() as int)), MAX_RECENT as nat),
    {
        let ghost k = it.index() as int;
        proof {
            assert(all.take(k + 1).drop_last() =~= all.take(k));
            assert(all.take(k + 1).last() == s);
        }
        if !s.favorite && out.len() < MAX_RECENT {
            out.push(s);
            assert(out@ =~= first_n(unstarred(all.take(k + 1)), MAX_RECENT as nat));
        } else {
            assert(out@ =~= first_n(unstarred(all.take(k + 1)), MAX_RECENT as nat));
        }
    }
    assert(all.take(all.len() as int) =~= all);
    out
}

/// The recent section never lists a starred save and holds at most
/// `MAX_RECENT` saves; it is cut short only when there are more.
pub proof fn lemma_recent_section(listing: Seq<Save>)
    ensures
        first_n(unstarred(listing), MAX_RECENT as nat).len() <= MAX_RECENT,
        forall|i: int|
            0 <= i < first_n(unstarred(listing), MAX_RECENT as nat).len() ==> !(
            #[trigger] first_n(unstarred(listing), MAX_RECENT as nat)[i]).favorite,
        first_n(unstarred(listing), MAX_RECENT as nat).len() == MAX_RECENT || first_n(
            unstarred(listing),
            MAX_RECENT as nat,
        ) == unstarred(listing),
{
    lemma_unstarred(listing);
}

proof fn lemma_unstarred(s: Seq<Save>)
    ensures
        forall|i: int| 0 <= i < unstarred(s).len() ==> !(#[trigger] unstarred(s)[i]).favorite,
    decreases s.len(),
{
    if s.len() > 0 {
        lemma_unstarred(s.drop_last());
        let rest = unstarred(s.drop_last());
        if !s.last().favorite {
            assert forall|i: int| 0 <= i < unstarred(s).len() implies !(
            #[trigger] unstarred(s)[i]).favorite by {
                if i < rest.len() {
                    assert(unstarred(s)[i] == rest[i]);
                }
            }
        }
    }
}

/// `str::trim_start_matches`: every leading occurrence of `p` removed.
pub open spec fn strip_leading(s: Seq<char>, p: Seq<char>) -> Seq<char>
    decreases s.len(),
{
    if p.len() > 0 && starts_with(s, p) {
        strip_leading(s.skip(p.len() as int), p)
    } else {
        s
    }
}

/// What a save is called in the menu before it is cut short: its trimmed
/// title, or, without one, its URL without scheme and `www.`.
pub open spec fn menu_name(title: Seq<char>, url: Seq<char>) -> Seq<char> {
    if trim(title).len() == 0 {
        strip_leading(strip_leading(strip_leading(url, "https://"@), "http://"@), "www."@)
    } else {
        trim(title)
    }
}

/// A name of more than `TITLE_MAX_CHARS` characters is cut to that many
/// and ends in an ellipsis.
pub open spec fn shortened(name: Seq<char>) -> Seq<char> {
    if name.len() > TITLE_MAX_CHARS {
        name.take(TITLE_MAX_CHARS as int).push('\u{2026}')
    } else {
        name
    }
}

pub open spec fn menu_label_spec(title: Seq<char>, url: Seq<char>) -> Seq<char> {
    shortened(menu_name(title, url))
}

fn strip_leading_exec(s: &Vec<char>, p: &Vec<char>) -> (r: Vec<char>)
    ensures
        r@ == strip_leading(s@, p@),
{
    if p.len() == 0 {
        return slice_chars(s, 0, s.len());
    }
    let mut rest = slice_chars(s, 0, s.len());
    assert(rest@ =~= s@);
    while starts_with_exec(&rest, p)
        invariant
            p.len() > 0,
            strip_leading(rest@, p@) == strip_leading(s@, p@),
        decreases rest.len(),
    {
        rest = slice_chars(&rest, p.len(), rest.len());
    }
    rest
}

/// The label of a save in the menu.
pub fn menu_label(title: &str, url: &str) -> (r: String)
    ensures
        r@ == menu_label_spec(title@, url@),
{
    let t = trim_vec(&chars_of(title));
    let name = if t.len() == 0 {
        let a = strip_leading_exec(&chars_of(url), &chars_of("https://"));
        let b = strip_leading_exec(&a, &chars_of("http://"));
        strip_leading_exec(&b, &chars_of("www."))
    } else {
        t
    };
    if name.len() > TITLE_MAX_CHARS {
        let mut cut = slice_chars(&name, 0, TITLE_MAX_CHARS);
        cut.push('\u{2026}');
        string_of(&cut)
    } else {
        string_of(&name)
    }
}

/// One line of the dropdown: an item (disabled items are the grey section
/// headers) or a separator.
pub enum MenuEntry {
    Item { id: String, label: String, enabled: bool },
    Separator,
}

pub enum MenuEntryView {
    Item { id: Seq<char>, label: Seq<char>, enabled: bool },
    Separator,
}

impl View for MenuEntry {
    type V = MenuEntryView;

    open spec fn view(&self) -> MenuEntryView {
        match self {
            MenuEntry::Item { id, label, enabled } => MenuEntryView::Item {
                id: id@,
                label: label@,
                enabled: *enabled,
            },
            MenuEntry::Separator => MenuEntryView::Separator,
        }
    }
}

pub open spec fn entry_views(v: Seq<MenuEntry>) -> Seq<MenuEntryView> {
    Seq::new(v.len(), |i: int| v[i]@)
}

pub open spec fn header(id: Seq<char>, label: Seq<char>) -> MenuEntryView {
    MenuEntryView::Item { id, label, enabled: false }
}

/// The item that opens a save: its id is `url:` followed by the URL.
pub open spec fn link_entry(s: Save) -> MenuEntryView {
    MenuEntryView::Item {
        id: "url:"@ + s.url@,
        label: menu_label_spec(s.title@, s.url@),
        enabled: true,
    }
}

pub open spec fn links(saves: Seq<Save>) -> Seq<MenuEntryView> {
    Seq::new(saves.len(), |i: int| link_entry(saves[i]))
}

/// The dropdown: the starred section (with a note when it is empty), the
/// recent section when there is one, then the app's own controls.
pub open spec fn tray_menu_spec(starred: Seq<Save>, recent: Seq<Save>) -> Seq<MenuEntryView> {
    seq![header("hdr-starred"@, "Starred"@)] + (if starred.len() == 0 {
        seq![header("hdr-no-starred"@, "No starred saves yet"@)]
    } else {
        seq![]
    }) + links(starred) + (if recent.len() > 0 {
        seq![MenuEntryView::Separator, header("hdr-recent"@, "Recent"@)] + links(recent)
    } else {
        seq![]
    }) + seq![
        MenuEntryView::Separator,
        MenuEntryView::Item { id: "open"@, label: "Open WebSave"@, enabled: true },
        MenuEntryView::Item { id: "quit"@, label: "Quit WebSave"@, enabled: true },
    ]
}

fn item(id: &str, label: &str, enabled: bool) -> (r: MenuEntry)
    ensures
        r@ == (MenuEntryView::Item { id: id@, label: label@, enabled }),
{
    MenuEntry::Item { id: string_of(&chars_of(id)), label: string_of(&chars_of(label)), enabled }
}

fn link_item(s: &Save) -> (r: MenuEntry)
    ensures
        r@ == link_entry(*s),
{
    let mut id = chars_of("url:");
    append_chars(&mut id, &chars_of(s.url.as_str()));
    MenuEntry::Item {
        id: string_of(&id),
        label: menu_label(s.title.as_str(), s.url.as_str()),
        enabled: true,
    }
}

fn push_links(out: &mut Vec<MenuEntry>, saves: &Vec<Save>)
    ensures
        entry_views(final(out)@) == entry_views(old(out)@) + links(saves@),
{
    let ghost start = entry_views(out@);
    for i in 0..saves.len()
        invariant
            entry_views(out@) == start + links(saves@.take(i as int)),
    {
        let e = link_item(&saves[i]);
        push_entry(out, e);
        assert(links(saves@.take(i + 1)) =~= links(saves@.take(i as int)).push(link_entry(saves@[i as int])));
        assert(entry_views(out@) =~= start + links(saves@.take(i + 1)));
    }
    assert(saves@.take(saves.len() as int) =~= saves@);
}

fn push_entry(out: &mut Vec<MenuEntry>, e: MenuEntry)
    ensures
        entry_views(final(out)@) == entry_views(old(out)@).push(e@),
{
    out.push(e);
    assert(entry_views(out@) =~= entry_views(old(out)@).push(e@));
}

/// The dropdown for the given starred and recent saves.
pub fn tray_menu(starred: &Vec<Save>, recent: &Vec<Save>) -> (r: Vec<MenuEntry>)
    ensures
        entry_views(r@) == tray_menu_spec(starred@, recent@),
{
    let mut out: Vec<MenuEntry> = Vec::new();
    let ghost mut expect: Seq<MenuEntryView> = seq![];
    assert(entry_views(out@) =~= expect);
    push_entry(&mut out, item("hdr-starred", "Starred", false));
    proof {
        expect = expect.push(header("hdr-starred"@, "Starred"@));
    }
    if starred.len() == 0 {
        push_entry(&mut out, item("hdr-no-starred", "No starred saves yet", false));
        proof {
            expect = expect.push(header("hdr-no-starred"@, "No starred saves yet"@));
        }
    }
    push_links(&mut out, starred);
    proof {
        expect = expect + links(starred@);
    }
    if recent.len() > 0 {
        push_entry(&mut out, MenuEntry::Separator);
        push_entry(&mut out, item("hdr-recent", "Recent", false));
        push_links(&mut out, recent);
        proof {
            expect = expect + (seq![MenuEntryView::Separator, header("hdr-recent"@, "Recent"@)]
                + links(recent@));
        }
    }
    push_entry(&mut out, MenuEntry::Separator);
    push_entry(&mut out, item("open", "Open WebSave", true));
    push_entry(&mut out, item("quit", "Quit WebSave", true));
    assert(entry_views(out@) =~= tray_menu_spec(starred@, recent@));
    out
}

/// What choosing a menu item does.
pub enum MenuAction {
    ShowMain,
    Quit,
    /// Open this URL in the default browser.
    OpenUrl(String),
    Nothing,
}

pub enum MenuActionView {
    ShowMain,
    Quit,
    OpenUrl(Seq<char>),
    Nothing,
}

impl View for MenuAction {
    type V = MenuActionView;

    open spec fn view(&self) -> MenuActionView {
        match self {
            MenuAction::ShowMain => MenuActionView::ShowMain,
            MenuAction::Quit => MenuActionView::Quit,
            MenuAction::OpenUrl(u) => MenuActionView::OpenUrl(u@),
            MenuAction::Nothing => MenuActionView::Nothing,
        }
    }
}

pub open spec fn menu_action_spec(id: Seq<char>) -> MenuActionView {
    if id == "open"@ {
        MenuActionView::ShowMain
    } else if id == "quit"@ {
        MenuActionView::Quit
    } else if starts_with(id, "url:"@) {
        MenuActionView::OpenUrl(id.skip("url:"@.len() as int))
    } else {
        MenuActionView::Nothing
    }
}

/// The action of the menu item with this id.
pub fn menu_action(id: &str) -> (r: MenuAction)
    ensures
        r@ == menu_action_spec(id@),
{
    let c = chars_of(id);
    let prefix = chars_of("url:");
    if eq_chars(&c, &chars_of("open")) {
        MenuAction::ShowMain
    } else if eq_chars(&c, &chars_of("quit")) {
        MenuAction::Quit
    } else if starts_with_exec(&c, &prefix) {
        MenuAction::OpenUrl(string_of(&slice_chars(&c, prefix.len(), c.len())))
    } else {
        MenuAction::Nothing
    }
}

/// Choosing a save's item opens exactly that save's URL.
pub proof fn lemma_link_opens_its_url(s: Save)
    ensures
        link_entry(s) matches MenuEntryView::Item { id, .. } && menu_action_spec(id)
            == MenuActionView::OpenUrl(s.url@),
{
    reveal_strlit("url:");
    reveal_strlit("open");
    reveal_strlit("quit");
    let id = "url:"@ + s.url@;
    assert(id.subrange(0, 4) =~= "url:"@);
    assert(id.skip(4) =~= s.url@);
    assert(id != "open"@ && id != "quit"@) by {
        assert(id[0] == 'u');
    }
}

} // verus!
