# websave-core

The rules of a local-first bookmark vault, verified with Verus: bookmark
import (browser HTML exports, Raindrop.io and Pocket CSV, URL and markdown
lists), readable-text extraction for archive snapshots, link-check
classification, URL canonicalization, tag cleaning, full-text search
expressions, the transitions every write applies to a stored save, the
decisions of the localhost capture endpoint and the tray quick-access menu.

## Layout

- `src/` — the verified library.
  - `text.rs` — character-level search, trimming and case folding.
  - `import.rs` — format sniffing and the bookmark parsers.
  - `extract.rs` — readable text of an HTML page.
  - `monitor.rs` — how a response is classified, cover-image discovery,
    content hashes.
  - `vault.rs` — URL canonicalization, tags, search expressions, listing
    plans, and `SaveRecord` with its transitions.
  - `capture.rs` — routing and screenshot decoding of the capture endpoint.
  - `tray.rs` — the tray dropdown and the quick-panel click guard.
  - `models.rs`, `summary.rs` — the data handed out.
  - `urls.rs` — what the library asks of the `url` crate.
- `tests/` — tests on concrete values.
- `app/` — the host: SQLite storage (`rusqlite`), HTTP checks (`ureq`), the
  capture server (`tiny_http`), the monitor thread, and serializable copies
  of the library's types.

Calls into `url`, `csv`, `sha2` and `base64` stand behind small trusted
wrappers whose contracts name what the crate computes; everything around
them is proved.
