//! Decisions of the localhost capture endpoint: which route a request takes,
//! whether it carries the client header that keeps web pages out, and how a
//! screenshot sent as a data URL is read.
use vstd::prelude::*;

use crate::text::{
    chars_of, eq_chars, find_from, find_from_exec, lower, lower_vec, slice_chars, starts_with,
    starts_with_exec, string_of, trim, trim_vec,
};

verus! {

/// Largest screenshot, in bytes, that a capture may attach.
pub const MAX_SCREENSHOT_BYTES: usize = 6291456;

/// Where a request to the capture endpoint goes.
#[derive(Debug, Clone, Copy, PartialEq, Eq, Structural)]
pub enum CaptureRoute {
    /// `GET /ping`: the endpoint says who it is.
    Ping,
    /// `GET /show`: raise the main window.
    Show,
    /// `GET /reload`: the vault changed elsewhere; refresh every view.
    Reload,
    /// `POST /save`: store a capture.
    Save,
    /// Anything else.
    NotFound,
}

pub open spec fn capture_route(method: Seq<char>, path: Seq<char>) -> CaptureRoute {
    if method == "GET"@ && path == "/ping"@ {
        CaptureRoute::Ping
    } else if method == "GET"@ && path == "/show"@ {
        CaptureRoute::Show
    } else if method == "GET"@ && path == "/reload"@ {
        CaptureRoute::Reload
    } else if method == "POST"@ && path == "/save"@ {
        CaptureRoute::Save
    } else {
        CaptureRoute::NotFound
    }
}

/// Route a request by its method (as the HTTP request line spells it) and
/// its request target, query included.
pub fn route(method: &str, path: &str) -> (r: CaptureRoute)
    ensures
        r == capture_route(method@, path@),
{
    let m = chars_of(method);
    let p = chars_of(path);
    let get = eq_chars(&m, &chars_of("GET"));
    if get && eq_chars(&p, &chars_of("/ping")) {
        CaptureRoute::Ping
    } else if get && eq_chars(&p, &chars_of("/show")) {
        CaptureRoute::Show
    } else if get && eq_chars(&p, &chars_of("/reload")) {
        CaptureRoute::Reload
    } else if eq_chars(&m, &chars_of("POST")) && eq_chars(&p, &chars_of("/save")) {
        CaptureRoute::Save
    } else {
        CaptureRoute::NotFound
    }
}

/// `str::eq_ignore_ascii_case`.
pub open spec fn eq_ignore_ascii_case(a: Seq<char>, b: Seq<char>) -> bool {
    lower(a) == lower(b)
}

/// The header that only the capture clients send. A custom header forces
/// browsers into a CORS preflight, which this endpoint never answers, so an
/// arbitrary web page cannot post into the vault.
pub open spec fn is_client_header(field: Seq<char>) -> bool {
    eq_ignore_ascii_case(field, "x-websave-client"@)
}

/// Whether any of the request's header names is the client header, compared
/// as HTTP compares header names: ignoring ASCII case.
pub fn has_client_header(fields: &Vec<String>) -> (r: bool)
    ensures
        r == exists|i: int| 0 <= i < fields.len() && #[trigger] is_client_header(fields@[i]@),
{
    let want = lower_vec(&chars_of("x-websave-client"));
    let mut i: usize = 0;
    while i < fields.len()
        invariant
            i <= fields.len(),
            want@ == lower("x-websave-client"@),
            forall|j: int| 0 <= j < i ==> !#[trigger] is_client_header(fields@[j]@),
        decreases fields.len() - i,
    {
        let f = lower_vec(&chars_of(fields[i].as_str()));
        if eq_chars(&f, &want) {
            assert(is_client_header(fields@[i as int]@));
            return true;
        }
        i = i + 1;
    }
    false
}

/// The media type and the payload of a `data:<mime>;base64,<payload>` URL.
pub open spec fn data_url_split(s: Seq<char>) -> Option<(Seq<char>, Seq<char>)> {
    if starts_with(s, "data:"@) {
        let rest = s.skip("data:"@.len() as int);
        match find_from(rest, ";base64,"@, 0) {
            Some(i) => Some((rest.take(i), rest.skip(i + ";base64,"@.len()))),
            None => None,
        }
    } else {
        None
    }
}

/// File extension of a screenshot's media type (ASCII case ignored); only
/// JPEG, PNG and WebP are taken.
pub open spec fn screenshot_extension(mime: Seq<char>) -> Option<Seq<char>> {
    let m = lower(mime);
    if m == "image/jpeg"@ || m == "image/jpg"@ {
        Some("jpg"@)
    } else if m == "image/png"@ {
        Some("png"@)
    } else if m == "image/webp"@ {
        Some("webp"@)
    } else {
        None
    }
}

/// What the standard-alphabet, padded base64 engine of the `base64` crate
/// decodes `text` to; `None` when it rejects the text.
pub uninterp spec fn base64_decoded(text: Seq<char>) -> Option<Seq<u8>>;

/// Calls `base64::engine::general_purpose::STANDARD.decode`; the result is
/// named `base64_decoded(text)`. Nothing else is claimed of it: the
/// alphabet, padding and trailing-bit rules are the crate's.
#[verifier::external_body]
fn decode_base64(text: &str) -> (r: Option<Vec<u8>>)
    ensures
        r matches Some(b) ==> base64_decoded(text@) == Some(b@),
        r is None ==> base64_decoded(text@) is None,
{
    base64::Engine::decode(&base64::engine::general_purpose::STANDARD, text).ok()
}

/// The screenshot a data URL carries, with its file extension: the media
/// type must be JPEG, PNG or WebP, the (trimmed) payload must decode, and
/// the image must be non-empty and at most `MAX_SCREENSHOT_BYTES`.
pub open spec fn decoded_screenshot(s: Seq<char>) -> Option<(Seq<u8>, Seq<char>)> {
    match data_url_split(s) {
        None => None,
        Some((mime, payload)) => match screenshot_extension(mime) {
            None => None,
            Some(ext) => match base64_decoded(trim(payload)) {
                None => None,
                Some(bytes) => if 0 < bytes.len() <= MAX_SCREENSHOT_BYTES {
                    Some((bytes, ext))
                } else {
                    None
                },
            },
        },
    }
}

fn screenshot_ext(mime: &Vec<char>) -> (r: Option<&'static str>)
    ensures
        match r {
            Some(e) => screenshot_extension(mime@) == Some(e@),
            None => screenshot_extension(mime@) is None,
        },
{
    let m = lower_vec(mime);
    if eq_chars(&m, &chars_of("image/jpeg")) || eq_chars(&m, &chars_of("image/jpg")) {
        Some("jpg")
    } else if eq_chars(&m, &chars_of("image/png")) {
        Some("png")
    } else if eq_chars(&m, &chars_of("image/webp")) {
        Some("webp")
    } else {
        None
    }
}

/// `data:image/jpeg;base64,...` to the image's bytes and file extension.
pub fn decode_data_url(data_url: &str) -> (r: Option<(Vec<u8>, &'static str)>)
    ensures
        match r {
            Some((bytes, ext)) => decoded_screenshot(data_url@) == Some((bytes@, ext@)),
            None => decoded_screenshot(data_url@) is None,
        },
{
    let s = chars_of(data_url);
    let prefix = chars_of("data:");
    if !starts_with_exec(&s, &prefix) {
        return None;
    }
    let rest = slice_chars(&s, prefix.len(), s.len());
    assert(rest@ == s@.skip("data:"@.len() as int));
    let sep = chars_of(";base64,");
    let i = match find_from_exec(&rest, &sep, 0) {
        Some(i) => i,
        None => return None,
    };
    proof {
        crate::text::lemma_find_from_bounds(rest@, sep@, 0);
    }
    let mime = slice_chars(&rest, 0, i);
    let payload = slice_chars(&rest, i + sep.len(), rest.len());
    assert(mime@ == rest@.take(i as int));
    assert(payload@ == rest@.skip(i + ";base64,"@.len()));
    let ext = match screenshot_ext(&mime) {
        Some(e) => e,
        None => return None,
    };
    let text = string_of(&trim_vec(&payload));
    let bytes = match decode_base64(text.as_str()) {
        Some(b) => b,
        None => return None,
    };
    if bytes.len() > 0 && bytes.len() <= MAX_SCREENSHOT_BYTES {
        Some((bytes, ext))
    } else {
        None
    }
}

} // verus!
