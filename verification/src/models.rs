//! The data a vault stores and hands out.
use vstd::prelude::*;

use crate::text::{chars_of, eq_chars};

verus! {

/// Health of a saved link, maintained by the monitoring service.
#[derive(Debug, Clone, Copy, PartialEq, Eq, Structural)]
pub enum LinkStatus {
    /// Never checked yet.
    Unchecked,
    /// Reachable and unchanged since the last check.
    Active,
    /// Reachable, but the content hash differs from the previous check.
    Changed,
    /// The URL now resolves to a meaningfully different location.
    Redirected,
    /// Unreachable: DNS/transport failure, 404/410, or server error.
    Dead,
}

/// The name a status is stored under.
pub open spec fn status_name(s: LinkStatus) -> Seq<char> {
    match s {
        LinkStatus::Unchecked => "unchecked"@,
        LinkStatus::Active => "active"@,
        LinkStatus::Changed => "changed"@,
        LinkStatus::Redirected => "redirected"@,
        LinkStatus::Dead => "dead"@,
    }
}

/// The status a stored name denotes; unknown names read as `Unchecked`.
pub open spec fn status_from_name(s: Seq<char>) -> LinkStatus {
    if s == "active"@ {
        LinkStatus::Active
    } else if s == "changed"@ {
        LinkStatus::Changed
    } else if s == "redirected"@ {
        LinkStatus::Redirected
    } else if s == "dead"@ {
        LinkStatus::Dead
    } else {
        LinkStatus::Unchecked
    }
}

impl LinkStatus {
    pub fn as_str(self) -> (r: &'static str)
        ensures
            r@ == status_name(self),
    {
        match self {
            LinkStatus::Unchecked => "unchecked",
            LinkStatus::Active => "active",
            LinkStatus::Changed => "changed",
            LinkStatus::Redirected => "redirected",
            LinkStatus::Dead => "dead",
        }
    }

    pub fn parse(s: &str) -> (r: LinkStatus)
        ensures
            r == status_from_name(s@),
    {
        let c = chars_of(s);
        if eq_chars(&c, &chars_of("active")) {
            LinkStatus::Active
        } else if eq_chars(&c, &chars_of("changed")) {
            LinkStatus::Changed
        } else if eq_chars(&c, &chars_of("redirected")) {
            LinkStatus::Redirected
        } else if eq_chars(&c, &chars_of("dead")) {
            LinkStatus::Dead
        } else {
            LinkStatus::Unchecked
        }
    }
}

/// Reading back the name a status is stored under gives that status.
pub proof fn lemma_status_name_roundtrip(s: LinkStatus)
    ensures
        status_from_name(status_name(s)) == s,
{
    reveal_strlit("unchecked");
    reveal_strlit("active");
    reveal_strlit("changed");
    reveal_strlit("redirected");
    reveal_strlit("dead");
    assert("unchecked"@.len() == 9 && "active"@.len() == 6 && "changed"@.len() == 7
        && "redirected"@.len() == 10 && "dead"@.len() == 4);
}

/// A saved web reference with its full metadata.
#[derive(Debug, Clone)]
pub struct Save {
    pub id: i64,
    pub url: String,
    pub title: String,
    pub description: String,
    pub notes: String,
    pub favicon_url: String,
    pub favorite: bool,
    pub status: LinkStatus,
    /// Final URL after redirects, when it differs from `url`.
    pub redirect_url: String,
    /// Last observed HTTP status code, if any.
    pub http_status: Option<i64>,
    pub tags: Vec<String>,
    /// Unix epoch seconds.
    pub created_at: i64,
    pub updated_at: i64,
    pub last_checked_at: Option<i64>,
}

/// Input for capturing a page (from the extension, UI, or any other client).
#[derive(Debug, Clone)]
pub struct NewSave {
    pub url: String,
    pub title: String,
    pub description: String,
    pub favicon_url: String,
    pub tags: Vec<String>,
}

impl Default for NewSave {
    fn default() -> (r: NewSave)
        ensures
            r.url@.len() == 0 && r.title@.len() == 0 && r.description@.len() == 0
                && r.favicon_url@.len() == 0 && r.tags@.len() == 0,
    {
        NewSave {
            url: String::new(),
            title: String::new(),
            description: String::new(),
            favicon_url: String::new(),
            tags: Vec::new(),
        }
    }
}

/// Partial update of user-editable metadata. `None` fields are left untouched.
#[derive(Debug, Clone)]
pub struct SavePatch {
    pub title: Option<String>,
    pub description: Option<String>,
    pub notes: Option<String>,
    pub favicon_url: Option<String>,
}

impl Default for SavePatch {
    fn default() -> (r: SavePatch)
        ensures
            r.title is None && r.description is None && r.notes is None && r.favicon_url is None,
    {
        SavePatch { title: None, description: None, notes: None, favicon_url: None }
    }
}

/// Filters for listing/searching saves. All filters combine with AND.
#[derive(Debug, Clone)]
pub struct ListQuery {
    /// Full-text query over title, url, description, notes and tags.
    pub query: Option<String>,
    pub tag: Option<String>,
    pub favorites_only: bool,
    pub status: Option<LinkStatus>,
    pub limit: Option<i64>,
    pub offset: Option<i64>,
}

impl Default for ListQuery {
    fn default() -> (r: ListQuery)
        ensures
            r.query is None && r.tag is None && !r.favorites_only && r.status is None
                && r.limit is None && r.offset is None,
    {
        ListQuery {
            query: None,
            tag: None,
            favorites_only: false,
            status: None,
            limit: None,
            offset: None,
        }
    }
}

/// Page size of a listing: 200 unless given, clamped to 1..=1000.
pub open spec fn page_limit(limit: Option<i64>) -> i64 {
    match limit {
        Some(l) => if l < 1 {
            1
        } else if l > 1000 {
            1000
        } else {
            l
        },
        None => 200,
    }
}

/// Rows skipped before a listing starts: 0 unless given, never negative.
pub open spec fn page_offset(offset: Option<i64>) -> i64 {
    match offset {
        Some(o) => if o < 0 {
            0
        } else {
            o
        },
        None => 0,
    }
}

impl ListQuery {
    pub fn effective_limit(&self) -> (r: i64)
        ensures
            r == page_limit(self.limit),
            1 <= r <= 1000,
    {
        match self.limit {
            Some(l) => if l < 1 {
                1
            } else if l > 1000 {
                1000
            } else {
                l
            },
            None => 200,
        }
    }

    pub fn effective_offset(&self) -> (r: i64)
        ensures
            r == page_offset(self.offset),
            r >= 0,
    {
        match self.offset {
            Some(o) => if o < 0 {
                0
            } else {
                o
            },
            None => 0,
        }
    }
}

#[derive(Debug, Clone)]
pub struct TagCount {
    pub name: String,
    pub count: i64,
}

#[derive(Debug, Clone)]
pub struct VaultStats {
    pub total: i64,
    pub favorites: i64,
    pub unchecked: i64,
    pub active: i64,
    pub changed: i64,
    pub redirected: i64,
    pub dead: i64,
}

impl Default for VaultStats {
    fn default() -> (r: VaultStats)
        ensures
            r.total == 0 && r.favorites == 0 && r.unchecked == 0 && r.active == 0 && r.changed == 0
                && r.redirected == 0 && r.dead == 0,
    {
        VaultStats { total: 0, favorites: 0, unchecked: 0, active: 0, changed: 0, redirected: 0, dead: 0 }
    }
}

} // verus!
