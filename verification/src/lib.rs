//! # websave-core
//!
//! Portable, local-first logic for saved web references: bookmark import
//! (Netscape HTML, CSV exports, URL lists), readable-text extraction for
//! archive snapshots, link-check classification, URL canonicalization, tag
//! cleaning, search expressions, the rules by which every write changes a
//! stored save, and the decisions of the capture endpoint and the tray
//! quick-access menu. Storage (SQLite), networking and windows are the
//! host's: it hands this crate plain values and applies what comes back.
pub mod capture;
pub mod extract;
pub mod import;
pub mod models;
pub mod monitor;
pub mod summary;
pub mod text;
pub mod tray;
pub mod urls;
pub mod vault;

pub use import::{ImportFormat, ImportItem, ImportPreview, ImportReport};
pub use models::{LinkStatus, ListQuery, NewSave, Save, SavePatch, TagCount, VaultStats};
pub use monitor::{CheckOutcome, CheckTarget};
pub use summary::{summarize, SaveSummary, VaultError};
pub use vault::{ImportOutcome, InvalidUrl, SaveRecord};
