//! Link-check decisions: how a response (or its absence) is classified,
//! what a checked page yields (hash, cover image, archive text), and
//! whether two URLs are the same destination. The HTTP requests themselves
//! are made by the host, which hands the response's parts to these
//! functions.
use vstd::prelude::*;

use crate::extract::{extract_readable_text, readable_text};
use crate::import::{attr_spec, attr_chars};
use crate::models::LinkStatus;
use crate::text::{
    chars_of, contains, contains_exec, eq_chars, find_from, find_from_exec, lemma_find_from_bounds,
    lower, lower_vec, rfind, rfind_exec, slice_chars, starts_with, starts_with_exec, string_of,
    trim, trim_vec,
};
use crate::urls::{join_url, parse_url, url_joined, url_parsed};
use sha2::Digest;

verus! {

/// The minimal data needed to check one save without holding the vault lock.
#[derive(Debug, Clone)]
pub struct CheckTarget {
    pub id: i64,
    pub url: String,
    pub content_hash: String,
}

/// Result of probing a URL. `None` fields mean "leave the stored value alone".
#[derive(Debug, Clone)]
pub struct CheckOutcome {
    pub status: LinkStatus,
    pub http_status: Option<u16>,
    pub redirect_url: Option<String>,
    pub content_hash: Option<String>,
    /// Cover image URL (og:image and friends) found in the page, absolute.
    pub og_image: Option<String>,
    /// Readable text extracted from the page, for the archive snapshot.
    pub archive_text: Option<String>,
}

pub struct CheckOutcomeView {
    pub status: LinkStatus,
    pub http_status: Option<u16>,
    pub redirect_url: Option<Seq<char>>,
    pub content_hash: Option<Seq<char>>,
    pub og_image: Option<Seq<char>>,
    pub archive_text: Option<Seq<char>>,
}

pub open spec fn opt_view(s: Option<String>) -> Option<Seq<char>> {
    match s {
        Some(v) => Some(v@),
        None => None,
    }
}

impl View for CheckOutcome {
    type V = CheckOutcomeView;

    open spec fn view(&self) -> CheckOutcomeView {
        CheckOutcomeView {
            status: self.status,
            http_status: self.http_status,
            redirect_url: opt_view(self.redirect_url),
            content_hash: opt_view(self.content_hash),
            og_image: opt_view(self.og_image),
            archive_text: opt_view(self.archive_text),
        }
    }
}

// ------------------------------------------------------------ destinations --

/// A host without its leading `www.` prefixes.
pub open spec fn strip_www(h: Seq<char>) -> Seq<char>
    decreases h.len(),
{
    if h.len() >= 4 && starts_with(h, "www."@) {
        strip_www(h.subrange(4, h.len() as int))
    } else {
        h
    }
}

/// A path without its trailing slashes.
pub open spec fn strip_trailing_slashes(p: Seq<char>) -> Seq<char>
    decreases p.len(),
{
    if p.len() > 0 && p.last() == '/' {
        strip_trailing_slashes(p.drop_last())
    } else {
        p
    }
}

/// Host (without `www.`), path (without trailing `/`) and query of a URL
/// that parses and has a host.
pub open spec fn destination_key(raw: Seq<char>) -> Option<(Seq<char>, Seq<char>, Seq<char>)> {
    match url_parsed(raw) {
        Some(p) => match p.host {
            Some(h) => Some(
                (
                    strip_www(h),
                    strip_trailing_slashes(p.path),
                    match p.query {
                        Some(q) => q,
                        None => seq![],
                    },
                ),
            ),
            None => None,
        },
        None => None,
    }
}

/// Whether two URLs point at the same place for monitoring purposes:
/// scheme upgrades and `www.` prefixes are ignored, trailing slashes
/// trimmed; URLs without a key compare as text.
pub open spec fn same_destination_spec(a: Seq<char>, b: Seq<char>) -> bool {
    match (destination_key(a), destination_key(b)) {
        (Some(ka), Some(kb)) => ka == kb,
        _ => a == b,
    }
}

fn strip_www_exec(h: &Vec<char>) -> (r: Vec<char>)
    ensures
        r@ == strip_www(h@),
{
    let www = chars_of("www.");
    let mut k: usize = 0;
    assert(h@.subrange(0, h.len() as int) =~= h@);
    loop
        invariant
            k <= h.len(),
            www@ == "www."@,
            strip_www(h@) == strip_www(h@.subrange(k as int, h.len() as int)),
        decreases h.len() - k,
    {
        let rest = slice_chars(h, k, h.len());
        if rest.len() >= 4 && starts_with_exec(&rest, &www) {
            proof {
                assert(rest@.subrange(4, rest@.len() as int) =~= h@.subrange(k + 4, h.len() as int));
                reveal_strlit("www.");
            }
            k = k + 4;
        } else {
            return rest;
        }
    }
}

fn strip_trailing_slashes_exec(p: &Vec<char>) -> (r: Vec<char>)
    ensures
        r@ == strip_trailing_slashes(p@),
{
    let mut k = p.len();
    assert(p@.subrange(0, p.len() as int) =~= p@);
    while k > 0 && p[k - 1] == '/'
        invariant
            k <= p.len(),
            strip_trailing_slashes(p@) == strip_trailing_slashes(p@.subrange(0, k as int)),
        decreases k,
    {
        assert(p@.subrange(0, k as int).drop_last() =~= p@.subrange(0, k - 1));
        k = k - 1;
    }
    slice_chars(p, 0, k)
}

fn destination_key_exec(raw: &str) -> (r: Option<(Vec<char>, Vec<char>, Vec<char>)>)
    ensures
        r matches Some((h, p, q)) ==> destination_key(raw@) == Some((h@, p@, q@)),
        r is None ==> destination_key(raw@) is None,
{
    let u = parse_url(raw)?;
    let host = match &u.host {
        Some(h) => h,
        None => {
            return None;
        },
    };
    let h = strip_www_exec(&chars_of(host.as_str()));
    let p = strip_trailing_slashes_exec(&chars_of(u.path.as_str()));
    let q = match &u.query {
        Some(q) => chars_of(q.as_str()),
        None => Vec::new(),
    };
    Some((h, p, q))
}

/// Whether two URLs point at the same place for monitoring purposes.
pub fn same_destination(a: &str, b: &str) -> (r: bool)
    ensures
        r == same_destination_spec(a@, b@),
{
    match (destination_key_exec(a), destination_key_exec(b)) {
        (Some((ha, pa, qa)), Some((hb, pb, qb))) => {
            let r = eq_chars(&ha, &hb) && eq_chars(&pa, &pb) && eq_chars(&qa, &qb);
            assert(r == ((ha@, pa@, qa@) == (hb@, pb@, qb@)));
            r
        },
        _ => eq_chars(&chars_of(a), &chars_of(b)),
    }
}

/// Every URL is the same destination as itself.
pub proof fn lemma_same_destination_reflexive(a: Seq<char>)
    ensures
        same_destination_spec(a, a),
{
}

/// Being the same destination does not depend on the order of the URLs.
pub proof fn lemma_same_destination_symmetric(a: Seq<char>, b: Seq<char>)
    ensures
        same_destination_spec(a, b) == same_destination_spec(b, a),
{
}

/// Being the same destination carries over: two URLs that are each the
/// same destination as a third are the same destination as each other.
pub proof fn lemma_same_destination_transitive(a: Seq<char>, b: Seq<char>, c: Seq<char>)
    requires
        same_destination_spec(a, b),
        same_destination_spec(b, c),
    ensures
        same_destination_spec(a, c),
{
}

// ----------------------------------------------------------------- hashes --

/// SHA-256 digest of `data`, as the `sha2` crate computes it.
pub uninterp spec fn sha256_of(data: Seq<u8>) -> Seq<u8>;

/// Calls `sha2::Sha256::digest`. The digest is named `sha256_of(data)`; its
/// length is 32 bytes, the output size of SHA-256.
#[verifier::external_body]
fn sha256(data: &[u8]) -> (r: Vec<u8>)
    ensures
        r@ == sha256_of(data@),
        r@.len() == 32,
{
    sha2::Sha256::digest(data).to_vec()
}

/// Lowercase hex digit of a value below 16.
pub open spec fn hex_digit(n: int) -> char {
    if n < 10 {
        (('0' as int) + n) as char
    } else {
        (('a' as int) + n - 10) as char
    }
}

/// Lowercase hex encoding, two digits per byte.
pub open spec fn hex_lower(bytes: Seq<u8>) -> Seq<char>
    decreases bytes.len(),
{
    if bytes.len() == 0 {
        seq![]
    } else {
        hex_lower(bytes.drop_last()) + seq![
            hex_digit(bytes.last() as int / 16),
            hex_digit(bytes.last() as int % 16),
        ]
    }
}

fn hex_digit_exec(n: u8) -> (r: char)
    requires
        n < 16,
    ensures
        r == hex_digit(n as int),
{
    if n < 10 {
        (('0' as u8) + n) as char
    } else {
        (('a' as u8) + n - 10) as char
    }
}

/// Lowercase hex SHA-256 of the body: the content hash of a page.
pub open spec fn content_hash_of(body: Seq<u8>) -> Seq<char> {
    hex_lower(sha256_of(body))
}

pub fn hex_sha256(bytes: &[u8]) -> (r: String)
    ensures
        r@ == content_hash_of(bytes@),
        r@.len() == 64,
{
    let digest = sha256(bytes);
    let mut out: Vec<char> = Vec::new();
    let mut i: usize = 0;
    while i < digest.len()
        invariant
            i <= digest.len() == 32,
            out@ == hex_lower(digest@.take(i as int)),
            out@.len() == 2 * i,
        decreases digest.len() - i,
    {
        let b = digest[i];
        out.push(hex_digit_exec(b / 16));
        out.push(hex_digit_exec(b % 16));
        i = i + 1;
        assert(digest@.take(i as int).drop_last() =~= digest@.take(i - 1));
        assert(out@ =~= hex_lower(digest@.take(i as int)));
    }
    assert(digest@.take(32) =~= digest@);
    string_of(&out)
}

// ------------------------------------------------------------- og:image --

/// Metadata keys that name a page's cover image.
pub open spec fn is_image_key(k: Seq<char>) -> bool {
    k == "og:image"@ || k == "og:image:url"@ || k == "twitter:image"@ || k == "twitter:image:src"@
}

/// Lowercased `property` (else `name`) attribute of a meta tag.
pub open spec fn meta_key(tag: Seq<char>) -> Seq<char> {
    lower(
        match attr_spec(tag, "property"@) {
            Some(k) => k,
            None => match attr_spec(tag, "name"@) {
                Some(k) => k,
                None => seq![],
            },
        },
    )
}

pub open spec fn meta_open() -> Seq<char> {
    seq!['<', 'm', 'e', 't', 'a']
}

/// The first `<meta>` from `pos` on that names a cover image with a
/// non-blank `content`; that content, trimmed.
pub open spec fn og_meta_from(h: Seq<char>, pos: int) -> Option<Seq<char>>
    decreases h.len() - pos,
{
    let l = lower(h);
    if pos < 0 || pos > h.len() {
        None
    } else {
        match find_from(l, meta_open(), pos) {
            None => None,
            Some(start) => {
                proof {
                    lemma_find_from_bounds(l, meta_open(), pos);
                    lemma_find_from_bounds(l, seq!['>'], start);
                }
                match find_from(l, seq!['>'], start) {
                    None => None,
                    Some(end) => {
                        let tag = h.subrange(start, end);
                        proof {
                            assert(l.subrange(start, start + 5)[0] == l[start]);
                            assert(l.subrange(end, end + 1)[0] == l[end]);
                        }
                        match attr_spec(tag, "content"@) {
                            Some(c) => if is_image_key(meta_key(tag)) && trim(c).len() > 0 {
                                Some(trim(c))
                            } else {
                                og_meta_from(h, end)
                            },
                            None => og_meta_from(h, end),
                        }
                    },
                }
            },
        }
    }
}

/// The `href` of the `<link rel="image_src">` tag, if there is one.
pub open spec fn image_src_link(h: Seq<char>) -> Option<Seq<char>> {
    let l = lower(h);
    let i = match find_from(l, "rel=\"image_src\""@, 0) {
        Some(i) => Some(i),
        None => find_from(l, "rel='image_src'"@, 0),
    };
    match i {
        None => None,
        Some(i) => {
            let start = match rfind(l.take(i), "<link"@) {
                Some(s) => s,
                None => i,
            };
            match find_from(l, seq!['>'], start) {
                Some(end) => attr_spec(h.subrange(start, end), "href"@),
                None => None,
            }
        },
    }
}

/// The page's cover image: `og:image`, `og:image:url`, `twitter:image`, or
/// `link rel="image_src"`, resolved against `base_url`; only http(s) URLs.
pub open spec fn og_image_spec(html: Seq<char>, base_url: Seq<char>) -> Option<Seq<char>> {
    let found = match og_meta_from(html, 0) {
        Some(c) => Some(c),
        None => image_src_link(html),
    };
    match found {
        None => None,
        Some(raw) => match url_joined(base_url, raw) {
            Some((scheme, s)) => if scheme == "http"@ || scheme == "https"@ {
                Some(s)
            } else {
                None
            },
            None => None,
        },
    }
}

fn meta_key_exec(tag: &Vec<char>) -> (r: Vec<char>)
    ensures
        r@ == meta_key(tag@),
{
    let k = match attr_chars(tag, &chars_of("property")) {
        Some(k) => k,
        None => match attr_chars(tag, &chars_of("name")) {
            Some(k) => k,
            None => Vec::new(),
        },
    };
    lower_vec(&k)
}

fn is_image_key_exec(k: &Vec<char>) -> (r: bool)
    ensures
        r == is_image_key(k@),
{
    eq_chars(k, &chars_of("og:image")) || eq_chars(k, &chars_of("og:image:url")) || eq_chars(
        k,
        &chars_of("twitter:image"),
    ) || eq_chars(k, &chars_of("twitter:image:src"))
}

fn og_meta_exec(h: &Vec<char>) -> (r: Option<Vec<char>>)
    ensures
        r matches Some(v) ==> og_meta_from(h@, 0) == Some(v@),
        r is None ==> og_meta_from(h@, 0) is None,
{
    let l = lower_vec(h);
    let meta = vec!['<', 'm', 'e', 't', 'a'];
    let gt = vec!['>'];
    assert(gt@ == seq!['>']);
    let mut pos: usize = 0;
    loop
        invariant
            l@ == lower(h@),
            l.len() == h.len(),
            meta@ == meta_open(),
            gt@ == seq!['>'],
            pos <= h.len(),
            og_meta_from(h@, 0) == og_meta_from(h@, pos as int),
        decreases h.len() - pos,
    {
        let start = match find_from_exec(&l, &meta, pos) {
            None => {
                return None;
            },
            Some(s) => s,
        };
        proof {
            lemma_find_from_bounds(l@, meta@, pos as int);
            lemma_find_from_bounds(l@, gt@, start as int);
        }
        let end = match find_from_exec(&l, &gt, start) {
            None => {
                return None;
            },
            Some(e) => e,
        };
        let tag = slice_chars(h, start, end);
        match attr_chars(&tag, &chars_of("content")) {
            Some(c) => {
                let t = trim_vec(&c);
                if is_image_key_exec(&meta_key_exec(&tag)) && t.len() > 0 {
                    return Some(t);
                }
            },
            None => {},
        }
        proof {
            assert(l@.subrange(start as int, start + 5)[0] == l@[start as int]);
            assert(l@.subrange(end as int, end + 1)[0] == l@[end as int]);
        }
        pos = end;
    }
}

fn image_src_link_exec(h: &Vec<char>) -> (r: Option<Vec<char>>)
    ensures
        r matches Some(v) ==> image_src_link(h@) == Some(v@),
        r is None ==> image_src_link(h@) is None,
{
    let l = lower_vec(h);
    let gt = vec!['>'];
    assert(gt@ == seq!['>']);
    let i = match find_from_exec(&l, &chars_of("rel=\"image_src\""), 0) {
        Some(i) => i,
        None => match find_from_exec(&l, &chars_of("rel='image_src'"), 0) {
            Some(i) => i,
            None => {
                return None;
            },
        },
    };
    proof {
        lemma_find_from_bounds(l@, "rel=\"image_src\""@, 0);
        lemma_find_from_bounds(l@, "rel='image_src'"@, 0);
    }
    let prefix = slice_chars(&l, 0, i);
    assert(prefix@ =~= l@.take(i as int));
    let start = match rfind_exec(&prefix, &chars_of("<link")) {
        Some(s) => s,
        None => i,
    };
    proof {
        crate::text::lemma_rfind_before(prefix@, "<link"@, prefix@.len() + 1int);
        lemma_find_from_bounds(l@, gt@, start as int);
    }
    match find_from_exec(&l, &gt, start) {
        Some(end) => attr_chars(&slice_chars(h, start, end), &chars_of("href")),
        None => None,
    }
}

/// Pull the page's cover image URL out of its HTML head metadata:
/// `og:image`, `og:image:url`, `twitter:image`, or `link rel="image_src"`.
/// Relative URLs are resolved against the page's final URL.
pub fn extract_og_image(html: &str, base_url: &str) -> (r: Option<String>)
    ensures
        opt_view(r) == og_image_spec(html@, base_url@),
{
    let h = chars_of(html);
    let found = match og_meta_exec(&h) {
        Some(c) => Some(c),
        None => image_src_link_exec(&h),
    };
    let raw = match found {
        Some(raw) => raw,
        None => {
            return None;
        },
    };
    let reference = string_of(&raw);
    match join_url(base_url, reference.as_str()) {
        Some((scheme, s)) => {
            let sc = chars_of(scheme.as_str());
            if eq_chars(&sc, &chars_of("http")) || eq_chars(&sc, &chars_of("https")) {
                Some(s)
            } else {
                None
            }
        },
        None => None,
    }
}

// --------------------------------------------------------- classification --

/// Lossy UTF-8 decoding of a page body, as `String::from_utf8_lossy` does it.
pub uninterp spec fn utf8_lossy(bytes: Seq<u8>) -> Seq<char>;

/// Calls `String::from_utf8_lossy`; the text is named `utf8_lossy(bytes)`.
#[verifier::external_body]
fn decode_lossy(bytes: &[u8]) -> (r: String)
    ensures
        r@ == utf8_lossy(bytes@),
{
    String::from_utf8_lossy(bytes).into_owned()
}

/// Status of a page that answered: redirected when the code is 3xx or the
/// request ended somewhere else, changed when a previous hash differs from
/// the body's, else active.
pub open spec fn answered_status(code: u16, redirected: bool, previous_hash: Seq<char>, hash: Seq<
    char,
>) -> LinkStatus {
    if (300 <= code && code < 400) || redirected {
        LinkStatus::Redirected
    } else if previous_hash.len() > 0 && previous_hash != hash {
        LinkStatus::Changed
    } else {
        LinkStatus::Active
    }
}

/// The outcome of a request that got a successful response.
pub open spec fn answered_outcome(
    url: Seq<char>,
    previous_hash: Seq<char>,
    code: u16,
    final_url: Seq<char>,
    content_type: Seq<char>,
    body: Seq<u8>,
) -> CheckOutcomeView {
    let redirected = !same_destination_spec(url, final_url);
    let hash = content_hash_of(body);
    let is_html = contains(lower(content_type), "html"@);
    CheckOutcomeView {
        status: answered_status(code, redirected, previous_hash, hash),
        http_status: Some(code),
        redirect_url: Some(
            if redirected {
                final_url
            } else {
                seq![]
            },
        ),
        content_hash: Some(hash),
        og_image: if is_html {
            og_image_spec(utf8_lossy(body), final_url)
        } else {
            None
        },
        archive_text: if is_html {
            Some(readable_text(utf8_lossy(body)))
        } else {
            None
        },
    }
}

/// Classify a response that arrived: `code` is its HTTP status,
/// `final_url` where the redirects ended, `body` its (capped) content.
pub fn answered(
    url: &str,
    previous_hash: &str,
    code: u16,
    final_url: &str,
    content_type: &str,
    body: &[u8],
) -> (r: CheckOutcome)
    ensures
        r@ == answered_outcome(url@, previous_hash@, code, final_url@, content_type@, body@),
        r.status != LinkStatus::Dead,
{
    let redirected = !same_destination(url, final_url);
    let hash = hex_sha256(body);
    let is_html = contains_exec(&lower_vec(&chars_of(content_type)), &chars_of("html"));
    let (og_image, archive_text) = if is_html {
        let html = decode_lossy(body);
        (
            extract_og_image(html.as_str(), final_url),
            Some(extract_readable_text(html.as_str())),
        )
    } else {
        (None, None)
    };
    let prev = chars_of(previous_hash);
    let status = if (300 <= code && code < 400) || redirected {
        LinkStatus::Redirected
    } else if prev.len() > 0 && !eq_chars(&prev, &chars_of(hash.as_str())) {
        LinkStatus::Changed
    } else {
        LinkStatus::Active
    };
    let redirect_url = if redirected {
        string_of(&chars_of(final_url))
    } else {
        String::new()
    };
    CheckOutcome {
        status,
        http_status: Some(code),
        redirect_url: Some(redirect_url),
        content_hash: Some(hash),
        og_image,
        archive_text,
    }
}

/// Codes of pages that exist but refuse to talk to a bot.
pub open spec fn is_bot_refusal(code: u16) -> bool {
    code == 401 || code == 403 || code == 405 || code == 406 || code == 429
}

/// The outcome of a request answered with an error status.
pub open spec fn refused_outcome(url: Seq<char>, code: u16, final_url: Seq<char>) -> CheckOutcomeView {
    let redirected = !same_destination_spec(url, final_url);
    CheckOutcomeView {
        status: if is_bot_refusal(code) {
            if redirected {
                LinkStatus::Redirected
            } else {
                LinkStatus::Active
            }
        } else {
            LinkStatus::Dead
        },
        http_status: Some(code),
        redirect_url: Some(
            if redirected {
                final_url
            } else {
                seq![]
            },
        ),
        content_hash: None,
        og_image: None,
        archive_text: None,
    }
}

/// Classify a response with an error status (4xx/5xx). 401, 403, 405, 406
/// and 429 count as alive; every other error status is dead.
pub fn refused(url: &str, code: u16, final_url: &str) -> (r: CheckOutcome)
    ensures
        r@ == refused_outcome(url@, code, final_url@),
        is_bot_refusal(code) ==> r.status != LinkStatus::Dead,
{
    let redirected = !same_destination(url, final_url);
    let status = if code == 401 || code == 403 || code == 405 || code == 406 || code == 429 {
        if redirected {
            LinkStatus::Redirected
        } else {
            LinkStatus::Active
        }
    } else {
        LinkStatus::Dead
    };
    let redirect_url = if redirected {
        string_of(&chars_of(final_url))
    } else {
        String::new()
    };
    CheckOutcome {
        status,
        http_status: Some(code),
        redirect_url: Some(redirect_url),
        content_hash: None,
        og_image: None,
        archive_text: None,
    }
}

/// An error status from a page that answered at the URL asked for: 401,
/// 403, 405, 406 and 429 mean the page exists but refuses a bot, so the
/// link is active; every other error status is dead.
pub proof fn lemma_refusal_classes(url: Seq<char>, code: u16)
    ensures
        (code == 401 || code == 403 || code == 405 || code == 406 || code == 429) ==> refused_outcome(
            url,
            code,
            url,
        ).status == LinkStatus::Active,
        !(code == 401 || code == 403 || code == 405 || code == 406 || code == 429) ==> refused_outcome(
            url,
            code,
            url,
        ).status == LinkStatus::Dead,
        refused_outcome(url, code, url).http_status == Some(code),
{
    lemma_same_destination_reflexive(url);
}

/// The outcome of a request that got no response (DNS or transport
/// failure): dead, with nothing else known.
pub fn no_response() -> (r: CheckOutcome)
    ensures
        r.status == LinkStatus::Dead,
        r.http_status is None && r.redirect_url is None && r.content_hash is None
            && r.og_image is None && r.archive_text is None,
{
    CheckOutcome {
        status: LinkStatus::Dead,
        http_status: None,
        redirect_url: None,
        content_hash: None,
        og_image: None,
        archive_text: None,
    }
}

/// A dead verdict from an HTTP status (not a transport failure) may just be
/// bot filtering: it is confirmed with a browser identity before it is
/// believed.
pub fn needs_browser_retry(first: &CheckOutcome) -> (r: bool)
    ensures
        r == (first.status == LinkStatus::Dead && first.http_status is Some),
{
    first.status == LinkStatus::Dead && first.http_status.is_some()
}

/// The verdict after a browser retry: the retry's unless it is dead too.
pub fn settle_retry(first: CheckOutcome, second: CheckOutcome) -> (r: CheckOutcome)
    ensures
        r == (if second.status != LinkStatus::Dead {
            second
        } else {
            first
        }),
{
    if second.status != LinkStatus::Dead {
        second
    } else {
        first
    }
}

/// A link is reported dead after a browser retry only when the retry is
/// dead too; a verdict that was not dead is never turned into a dead one.
pub proof fn lemma_dead_needs_confirmation(first: CheckOutcome, second: CheckOutcome)
    ensures
        ({
            let settled = if second.status != LinkStatus::Dead {
                second
            } else {
                first
            };
            settled.status == LinkStatus::Dead <==> (first.status == LinkStatus::Dead
                && second.status == LinkStatus::Dead)
        }),
{
}

/// File extension for a downloaded cover image's content type; `None` for
/// anything that is not a supported image.
pub open spec fn image_extension_spec(content_type: Seq<char>) -> Option<Seq<char>> {
    let t = lower(content_type);
    if t == "image/jpeg"@ || t == "image/jpg"@ {
        Some("jpg"@)
    } else if t == "image/png"@ {
        Some("png"@)
    } else if t == "image/webp"@ {
        Some("webp"@)
    } else if t == "image/gif"@ {
        Some("gif"@)
    } else if t == "image/avif"@ {
        Some("avif"@)
    } else {
        None
    }
}

pub fn image_extension(content_type: &str) -> (r: Option<&'static str>)
    ensures
        match r {
            Some(e) => image_extension_spec(content_type@) == Some(e@),
            None => image_extension_spec(content_type@) is None,
        },
{
    let t = lower_vec(&chars_of(content_type));
    if eq_chars(&t, &chars_of("image/jpeg")) || eq_chars(&t, &chars_of("image/jpg")) {
        Some("jpg")
    } else if eq_chars(&t, &chars_of("image/png")) {
        Some("png")
    } else if eq_chars(&t, &chars_of("image/webp")) {
        Some("webp")
    } else if eq_chars(&t, &chars_of("image/gif")) {
        Some("gif")
    } else if eq_chars(&t, &chars_of("image/avif")) {
        Some("avif")
    } else {
        None
    }
}

/// A downloaded cover image is kept only when its content type is a
/// supported image and it is not empty.
pub open spec fn kept_image(content_type: Seq<char>, bytes: Seq<u8>) -> Option<(Seq<u8>, Seq<char>)> {
    match image_extension_spec(content_type) {
        Some(ext) => if bytes.len() > 0 {
            Some((bytes, ext))
        } else {
            None
        },
        None => None,
    }
}

/// The cover image to store from a download: its bytes and file extension.
pub fn downloaded_image(content_type: &str, bytes: Vec<u8>) -> (r: Option<(Vec<u8>, &'static str)>)
    ensures
        match r {
            Some((b, e)) => kept_image(content_type@, bytes@) == Some((b@, e@)),
            None => kept_image(content_type@, bytes@) is None,
        },
{
    match image_extension(content_type) {
        Some(ext) => if bytes.len() > 0 {
            Some((bytes, ext))
        } else {
            None
        },
        None => None,
    }
}

} // verus!
