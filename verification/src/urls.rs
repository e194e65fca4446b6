//! What the library asks of the `url` crate: parsing a URL into its parts,
//! rewriting its query, and resolving a reference against a base.
use vstd::prelude::*;

verus! {

/// The parts of a parsed URL that the library reads.
pub struct ParsedUrl {
    pub scheme: String,
    /// The whole URL as `Url::to_string` writes it.
    pub serialization: String,
    pub host: Option<String>,
    pub path: String,
    pub query: Option<String>,
    /// `Url::query_pairs`: the percent-decoded `key=value` pairs.
    pub query_pairs: Vec<(String, String)>,
}

pub struct ParsedUrlView {
    pub scheme: Seq<char>,
    pub serialization: Seq<char>,
    pub host: Option<Seq<char>>,
    pub path: Seq<char>,
    pub query: Option<Seq<char>>,
    pub query_pairs: Seq<(Seq<char>, Seq<char>)>,
}

pub open spec fn opt_string_view(s: Option<String>) -> Option<Seq<char>> {
    match s {
        Some(v) => Some(v@),
        None => None,
    }
}

pub open spec fn pair_views(v: Seq<(String, String)>) -> Seq<(Seq<char>, Seq<char>)> {
    Seq::new(v.len(), |i: int| (v[i].0@, v[i].1@))
}

impl View for ParsedUrl {
    type V = ParsedUrlView;

    open spec fn view(&self) -> ParsedUrlView {
        ParsedUrlView {
            scheme: self.scheme@,
            serialization: self.serialization@,
            host: opt_string_view(self.host),
            path: self.path@,
            query: opt_string_view(self.query),
            query_pairs: pair_views(self.query_pairs@),
        }
    }
}

/// What `url::Url::parse(raw)` yields, read into its parts; `None` when the
/// URL does not parse.
pub uninterp spec fn url_parsed(raw: Seq<char>) -> Option<ParsedUrlView>;

/// `url::Url::parse(raw)` followed by `set_query(None)`, serialized.
pub uninterp spec fn url_without_query(raw: Seq<char>) -> Option<Seq<char>>;

/// `url::Url::parse(raw)` with its query replaced by exactly `pairs`
/// (`query_pairs_mut().clear().extend_pairs(..)`), serialized.
pub uninterp spec fn url_with_query_pairs(raw: Seq<char>, pairs: Seq<(Seq<char>, Seq<char>)>) -> Option<Seq<char>>;

/// `url::Url::parse(base)` then `join(reference)`: scheme and serialization
/// of the resolved URL.
pub uninterp spec fn url_joined(base: Seq<char>, reference: Seq<char>) -> Option<(Seq<char>, Seq<char>)>;

/// Calls `url::Url::parse` and reads the scheme, serialization, host, path,
/// query and decoded query pairs of the result. The contract names the
/// result `url_parsed(raw)` and claims nothing else: URL parsing (WHATWG
/// rules, IDNA, percent-encoding) is the `url` crate's.
#[verifier::external_body]
pub(crate) fn parse_url(raw: &str) -> (r: Option<ParsedUrl>)
    ensures
        r matches Some(p) ==> url_parsed(raw@) == Some(p@),
        r is None ==> url_parsed(raw@) is None,
{
    let u = url::Url::parse(raw).ok()?;
    Some(ParsedUrl {
        scheme: u.scheme().to_string(),
        serialization: u.to_string(),
        host: u.host_str().map(String::from),
        path: u.path().to_string(),
        query: u.query().map(String::from),
        query_pairs: u.query_pairs().map(|(k, v)| (k.into_owned(), v.into_owned())).collect(),
    })
}

/// Calls `url::Url::parse`, then `Url::set_query(None)`, and serializes.
/// The result is named `url_without_query(raw)`; it exists exactly when
/// the parse succeeds, since clearing the query cannot fail.
#[verifier::external_body]
pub(crate) fn strip_query(raw: &str) -> (r: Option<String>)
    ensures
        r matches Some(s) ==> url_without_query(raw@) == Some(s@),
        r is None ==> url_without_query(raw@) is None,
        r is Some <==> url_parsed(raw@) is Some,
{
    let mut u = url::Url::parse(raw).ok()?;
    u.set_query(None);
    Some(u.to_string())
}

/// Calls `url::Url::parse`, then replaces the query with `pairs` through
/// `Url::query_pairs_mut` (`clear` then `extend_pairs`), and serializes.
/// The result is named `url_with_query_pairs(raw, pairs)`; it exists exactly
/// when the parse succeeds.
#[verifier::external_body]
pub(crate) fn replace_query(raw: &str, pairs: &Vec<(String, String)>) -> (r: Option<String>)
    ensures
        r matches Some(s) ==> url_with_query_pairs(raw@, pair_views(pairs@)) == Some(s@),
        r is None ==> url_with_query_pairs(raw@, pair_views(pairs@)) is None,
        r is Some <==> url_parsed(raw@) is Some,
{
    let mut u = url::Url::parse(raw).ok()?;
    u.query_pairs_mut().clear().extend_pairs(pairs.iter().map(|(k, v)| (k.as_str(), v.as_str())));
    Some(u.to_string())
}

/// Calls `url::Url::parse(base)` and `Url::join(reference)`, and reads the
/// scheme and serialization of the result, named `url_joined(base,
/// reference)`.
#[verifier::external_body]
pub(crate) fn join_url(base: &str, reference: &str) -> (r: Option<(String, String)>)
    ensures
        r matches Some((scheme, s)) ==> url_joined(base@, reference@) == Some((scheme@, s@)),
        r is None ==> url_joined(base@, reference@) is None,
{
    let joined = url::Url::parse(base).ok()?.join(reference).ok()?;
    Some((joined.scheme().to_string(), joined.to_string()))
}

} // verus!
