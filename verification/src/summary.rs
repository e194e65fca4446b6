//! The slice of the library a quick-access native client needs: save
//! summaries and a flat error.
use vstd::prelude::*;

use crate::models::{status_name, Save};
use crate::text::{chars_of, string_of};

verus! {

/// An error as a quick-access client sees it: a message.
#[derive(Debug)]
pub enum VaultError {
    Failure { message: String },
}

/// The slice of a save a quick-access UI needs.
#[derive(Debug, Clone)]
pub struct SaveSummary {
    pub id: i64,
    pub url: String,
    pub title: String,
    pub favicon_url: String,
    pub favorite: bool,
    pub status: String,
    pub created_at: i64,
}

/// The summary of a save: its identity, url, title, favicon, favorite flag,
/// status name and creation time.
pub fn summarize(s: Save) -> (r: SaveSummary)
    ensures
        r.id == s.id,
        r.url@ == s.url@,
        r.title@ == s.title@,
        r.favicon_url@ == s.favicon_url@,
        r.favorite == s.favorite,
        r.status@ == status_name(s.status),
        r.created_at == s.created_at,
{
    let status = string_of(&chars_of(s.status.as_str()));
    SaveSummary {
        id: s.id,
        url: s.url,
        title: s.title,
        favicon_url: s.favicon_url,
        favorite: s.favorite,
        status,
        created_at: s.created_at,
    }
}

} // verus!
