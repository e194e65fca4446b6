//! The rules a vault applies to what it stores: URL canonicalization, tag
//! cleaning, search expressions, and how each write changes a stored save.
//! The host keeps saves in its database; it reads a row into a
//! [`SaveRecord`], applies one of the transitions here, and writes the
//! result back.
use vstd::prelude::*;

use crate::import::{ImportItem, ImportReport};
use crate::models::{page_limit, page_offset, LinkStatus, ListQuery, NewSave, Save, SavePatch};
use crate::monitor::CheckOutcome;
use crate::text::{
    append_chars, chars_of, eq_chars, is_whitespace, is_ws, lower, lower_char, lower_vec,
    slice_chars, starts_with, starts_with_exec, string_of, trim, trim_end, trim_start, trim_vec,
    digits, digit_char, decimal, lemma_trim_idempotent,
};
use crate::urls::{
    pair_views, parse_url, replace_query, strip_query, url_parsed, url_with_query_pairs,
    url_without_query,
};

verus! {

// ------------------------------------------------------------------- URLs --

/// A URL that is not an absolute http(s) URL, as given (trimmed).
#[derive(Debug, Clone)]
pub struct InvalidUrl(pub String);

/// Query parameters that only track the click, never select content
/// (compared in lowercase).
pub open spec fn is_tracking_key(key: Seq<char>) -> bool {
    let k = lower(key);
    ||| starts_with(k, "utm_"@)
    ||| k == "fbclid"@
    ||| k == "gclid"@
    ||| k == "gbraid"@
    ||| k == "wbraid"@
    ||| k == "msclkid"@
    ||| k == "yclid"@
    ||| k == "twclid"@
    ||| k == "igshid"@
    ||| k == "mc_cid"@
    ||| k == "mc_eid"@
    ||| k == "si"@
}

pub fn is_tracking_param(key: &str) -> (r: bool)
    ensures
        r == is_tracking_key(key@),
{
    let k = lower_vec(&chars_of(key));
    starts_with_exec(&k, &chars_of("utm_")) || eq_chars(&k, &chars_of("fbclid")) || eq_chars(
        &k,
        &chars_of("gclid"),
    ) || eq_chars(&k, &chars_of("gbraid")) || eq_chars(&k, &chars_of("wbraid")) || eq_chars(
        &k,
        &chars_of("msclkid"),
    ) || eq_chars(&k, &chars_of("yclid")) || eq_chars(&k, &chars_of("twclid")) || eq_chars(
        &k,
        &chars_of("igshid"),
    ) || eq_chars(&k, &chars_of("mc_cid")) || eq_chars(&k, &chars_of("mc_eid")) || eq_chars(
        &k,
        &chars_of("si"),
    )
}

/// The click-tracking parameters, in any letter case: every `utm_` key,
/// and `fbclid`, `gclid`, `gbraid`, `wbraid`, `msclkid`, `yclid`, `twclid`,
/// `igshid`, `mc_cid`, `mc_eid` and `si`.
pub proof fn lemma_tracking_keys(key: Seq<char>)
    ensures
        lower(key).len() >= 4 && lower(key).take(4) == seq!['u', 't', 'm', '_'] ==> is_tracking_key(key),
        lower(key) == seq!['f', 'b', 'c', 'l', 'i', 'd'] ==> is_tracking_key(key),
        lower(key) == seq!['g', 'c', 'l', 'i', 'd'] ==> is_tracking_key(key),
        lower(key) == seq!['g', 'b', 'r', 'a', 'i', 'd'] ==> is_tracking_key(key),
        lower(key) == seq!['w', 'b', 'r', 'a', 'i', 'd'] ==> is_tracking_key(key),
        lower(key) == seq!['m', 's', 'c', 'l', 'k', 'i', 'd'] ==> is_tracking_key(key),
        lower(key) == seq!['y', 'c', 'l', 'i', 'd'] ==> is_tracking_key(key),
        lower(key) == seq!['t', 'w', 'c', 'l', 'i', 'd'] ==> is_tracking_key(key),
        lower(key) == seq!['i', 'g', 's', 'h', 'i', 'd'] ==> is_tracking_key(key),
        lower(key) == seq!['m', 'c', '_', 'c', 'i', 'd'] ==> is_tracking_key(key),
        lower(key) == seq!['m', 'c', '_', 'e', 'i', 'd'] ==> is_tracking_key(key),
        lower(key) == seq!['s', 'i'] ==> is_tracking_key(key),
{
    reveal_strlit("utm_");
    reveal_strlit("fbclid");
    reveal_strlit("gclid");
    reveal_strlit("gbraid");
    reveal_strlit("wbraid");
    reveal_strlit("msclkid");
    reveal_strlit("yclid");
    reveal_strlit("twclid");
    reveal_strlit("igshid");
    reveal_strlit("mc_cid");
    reveal_strlit("mc_eid");
    reveal_strlit("si");
    let k = lower(key);
    if k.len() >= 4 && k.take(4) == seq!['u', 't', 'm', '_'] {
        assert(k.subrange(0, 4) =~= "utm_"@);
    }
    assert("fbclid"@ =~= seq!['f', 'b', 'c', 'l', 'i', 'd']);
    assert("gclid"@ =~= seq!['g', 'c', 'l', 'i', 'd']);
    assert("gbraid"@ =~= seq!['g', 'b', 'r', 'a', 'i', 'd']);
    assert("wbraid"@ =~= seq!['w', 'b', 'r', 'a', 'i', 'd']);
    assert("msclkid"@ =~= seq!['m', 's', 'c', 'l', 'k', 'i', 'd']);
    assert("yclid"@ =~= seq!['y', 'c', 'l', 'i', 'd']);
    assert("twclid"@ =~= seq!['t', 'w', 'c', 'l', 'i', 'd']);
    assert("igshid"@ =~= seq!['i', 'g', 's', 'h', 'i', 'd']);
    assert("mc_cid"@ =~= seq!['m', 'c', '_', 'c', 'i', 'd']);
    assert("mc_eid"@ =~= seq!['m', 'c', '_', 'e', 'i', 'd']);
    assert("si"@ =~= seq!['s', 'i']);
}

/// The query pairs that are not tracking parameters, in order.
pub open spec fn kept_pairs(pairs: Seq<(Seq<char>, Seq<char>)>) -> Seq<(Seq<char>, Seq<char>)>
    decreases pairs.len(),
{
    if pairs.len() == 0 {
        seq![]
    } else {
        let rest = kept_pairs(pairs.drop_last());
        if is_tracking_key(pairs.last().0) {
            rest
        } else {
            rest.push(pairs.last())
        }
    }
}

/// Canonicalization strips exactly the tracking parameters: every kept
/// pair is a real parameter, and every real parameter is kept.
pub proof fn lemma_kept_pairs(pairs: Seq<(Seq<char>, Seq<char>)>)
    ensures
        forall|j: int|
            0 <= j < kept_pairs(pairs).len() ==> !is_tracking_key(#[trigger] kept_pairs(pairs)[j].0),
        forall|j: int|
            0 <= j < pairs.len() && !is_tracking_key(#[trigger] pairs[j].0) ==> kept_pairs(
                pairs,
            ).contains(pairs[j]),
    decreases pairs.len(),
{
    if pairs.len() > 0 {
        let init = pairs.drop_last();
        lemma_kept_pairs(init);
        let rest = kept_pairs(init);
        assert forall|j: int|
            0 <= j < pairs.len() && !is_tracking_key(#[trigger] pairs[j].0) implies kept_pairs(
                pairs,
            ).contains(pairs[j]) by {
            if j < pairs.len() - 1 {
                assert(init[j] == pairs[j]);
                let k = choose|k: int| 0 <= k < rest.len() && rest[k] == init[j];
                if !is_tracking_key(pairs.last().0) {
                    assert(kept_pairs(pairs)[k] == rest[k]);
                }
            } else {
                assert(kept_pairs(pairs)[rest.len() as int] == pairs.last());
            }
        }
        assert forall|j: int| 0 <= j < kept_pairs(pairs).len() implies !is_tracking_key(
            #[trigger] kept_pairs(pairs)[j].0,
        ) by {
            if j < rest.len() {
                assert(kept_pairs(pairs)[j] == rest[j]);
            }
        }
    }
}

/// The canonical form of a URL: trimmed, parsed, http(s) only, with
/// tracking parameters removed from its query (and an emptied query
/// dropped); `None` when it is not an http(s) URL.
pub open spec fn canonical_url(raw: Seq<char>) -> Option<Seq<char>> {
    let t = trim(raw);
    match url_parsed(t) {
        None => None,
        Some(p) => if !(p.scheme == "http"@ || p.scheme == "https"@) {
            None
        } else if p.query is None {
            Some(p.serialization)
        } else if kept_pairs(p.query_pairs).len() == 0 {
            url_without_query(t)
        } else {
            url_with_query_pairs(t, kept_pairs(p.query_pairs))
        },
    }
}

/// The `url` crate reads the text as an absolute http or https URL.
pub open spec fn parses_as_web_url(t: Seq<char>) -> bool {
    match url_parsed(t) {
        Some(p) => p.scheme == "http"@ || p.scheme == "https"@,
        None => false,
    }
}

/// Validate and canonicalize: the same article shared via three tracking
/// links must land on one save. Every absolute http(s) URL is accepted.
pub fn normalize_url(raw: &str) -> (r: Result<String, InvalidUrl>)
    ensures
        r is Ok <==> parses_as_web_url(trim(raw@)),
        r matches Ok(u) ==> canonical_url(raw@) == Some(u@),
        r matches Err(e) ==> canonical_url(raw@) is None && e.0@ == trim(raw@),
{
    let trimmed = string_of(&trim_vec(&chars_of(raw)));
    let parsed = match parse_url(trimmed.as_str()) {
        Some(p) => p,
        None => {
            return Err(InvalidUrl(trimmed));
        },
    };
    let scheme = chars_of(parsed.scheme.as_str());
    if !(eq_chars(&scheme, &chars_of("http")) || eq_chars(&scheme, &chars_of("https"))) {
        return Err(InvalidUrl(trimmed));
    }
    if parsed.query.is_none() {
        return Ok(parsed.serialization);
    }
    let mut kept: Vec<(String, String)> = Vec::new();
    let mut i: usize = 0;
    while i < parsed.query_pairs.len()
        invariant
            i <= parsed.query_pairs.len(),
            pair_views(kept@) == kept_pairs(pair_views(parsed.query_pairs@).take(i as int)),
        decreases parsed.query_pairs.len() - i,
    {
        let ghost all = pair_views(parsed.query_pairs@);
        assert(all.take(i + 1).drop_last() =~= all.take(i as int));
        let (k, v) = &parsed.query_pairs[i];
        if !is_tracking_param(k.as_str()) {
            let ghost before = pair_views(kept@);
            kept.push((k.clone(), v.clone()));
            assert(pair_views(kept@) =~= before.push(all[i as int]));
        }
        i = i + 1;
    }
    assert(pair_views(parsed.query_pairs@).take(parsed.query_pairs.len() as int) =~= pair_views(
        parsed.query_pairs@,
    ));
    let rebuilt = if kept.len() == 0 {
        strip_query(trimmed.as_str())
    } else {
        replace_query(trimmed.as_str(), &kept)
    };
    match rebuilt {
        Some(u) => Ok(u),
        None => Err(InvalidUrl(trimmed)),
    }
}

// ---------------------------------------------------------------- search --

/// `s` without its `"` characters.
pub open spec fn without_quotes(s: Seq<char>) -> Seq<char>
    decreases s.len(),
{
    if s.len() == 0 {
        seq![]
    } else {
        let rest = without_quotes(s.drop_last());
        if s.last() == '"' {
            rest
        } else {
            rest.push(s.last())
        }
    }
}

/// Index of the first whitespace at or after `i` (or the length).
pub open spec fn word_end(s: Seq<char>, i: int) -> int
    decreases s.len() - i,
{
    if i < 0 || i >= s.len() {
        s.len() as int
    } else if is_ws(s[i]) {
        i
    } else {
        word_end(s, i + 1)
    }
}

pub proof fn lemma_word_end(s: Seq<char>, i: int)
    requires
        0 <= i <= s.len(),
    ensures
        i <= word_end(s, i) <= s.len(),
        i < s.len() && !is_ws(s[i]) ==> i < word_end(s, i),
    decreases s.len() - i,
{
    if i < s.len() && !is_ws(s[i]) {
        lemma_word_end(s, i + 1);
    }
}

/// The search terms of user input from `i` on: its whitespace-separated
/// words with `"` removed, empty ones dropped.
pub open spec fn search_terms(s: Seq<char>, i: int) -> Seq<Seq<char>>
    decreases s.len() - i,
{
    if i < 0 || i >= s.len() {
        seq![]
    } else if is_ws(s[i]) {
        search_terms(s, i + 1)
    } else {
        let e = word_end(s, i);
        proof {
            lemma_word_end(s, i);
        }
        let t = without_quotes(s.subrange(i, e));
        if t.len() > 0 {
            seq![t] + search_terms(s, e)
        } else {
            search_terms(s, e)
        }
    }
}

/// A term quoted and matched by prefix: `"term"*`.
pub open spec fn quoted_term(t: Seq<char>) -> Seq<char> {
    seq!['"'] + t + seq!['"', '*']
}

/// Quoted terms separated by single spaces.
pub open spec fn join_quoted(ts: Seq<Seq<char>>) -> Seq<char>
    decreases ts.len(),
{
    if ts.len() == 0 {
        seq![]
    } else if ts.len() == 1 {
        quoted_term(ts[0])
    } else {
        join_quoted(ts.drop_last()) + seq![' '] + quoted_term(ts.last())
    }
}

/// The FTS5 MATCH expression for user input; `None` when it has no terms.
pub open spec fn fts_expression_spec(input: Seq<char>) -> Option<Seq<char>> {
    let ts = search_terms(input, 0);
    if ts.len() == 0 {
        None
    } else {
        Some(join_quoted(ts))
    }
}

fn without_quotes_exec(s: &Vec<char>) -> (r: Vec<char>)
    ensures
        r@ == without_quotes(s@),
{
    let mut out: Vec<char> = Vec::new();
    let mut i: usize = 0;
    while i < s.len()
        invariant
            i <= s.len(),
            out@ == without_quotes(s@.take(i as int)),
        decreases s.len() - i,
    {
        assert(s@.take(i + 1).drop_last() =~= s@.take(i as int));
        if s[i] != '"' {
            out.push(s[i]);
        }
        i = i + 1;
    }
    assert(s@.take(s.len() as int) =~= s@);
    out
}

/// Every search term is free of `"`, so quoting it cannot be escaped.
pub proof fn lemma_without_quotes(s: Seq<char>)
    ensures
        forall|j: int| 0 <= j < without_quotes(s).len() ==> #[trigger] without_quotes(s)[j] != '"',
    decreases s.len(),
{
    if s.len() > 0 {
        lemma_without_quotes(s.drop_last());
        let rest = without_quotes(s.drop_last());
        if s.last() != '"' {
            assert forall|j: int| 0 <= j < without_quotes(s).len() implies #[trigger] without_quotes(
                s,
            )[j] != '"' by {
                if j < rest.len() {
                    assert(without_quotes(s)[j] == rest[j]);
                }
            }
        }
    }
}

/// Every search term is non-empty and free of `"`: quoting a term cannot be
/// escaped, so no FTS5 operator or punctuation in the input survives as
/// syntax.
pub proof fn lemma_search_terms_safe(s: Seq<char>, i: int)
    ensures
        forall|k: int| 0 <= k < search_terms(s, i).len() ==> (#[trigger] search_terms(s, i)[k]).len() > 0,
        forall|k: int, j: int|
            0 <= k < search_terms(s, i).len() && 0 <= j < search_terms(s, i)[k].len()
                ==> #[trigger] search_terms(s, i)[k][j] != '"',
    decreases s.len() - i,
{
    if i < 0 || i >= s.len() {
    } else if is_ws(s[i]) {
        lemma_search_terms_safe(s, i + 1);
        assert(search_terms(s, i) == search_terms(s, i + 1));
    } else {
        lemma_word_end(s, i);
        let e = word_end(s, i);
        lemma_search_terms_safe(s, e);
        let t = without_quotes(s.subrange(i, e));
        lemma_without_quotes(s.subrange(i, e));
        let rest = search_terms(s, e);
        if t.len() > 0 {
            let all = search_terms(s, i);
            assert(all == seq![t] + rest);
            assert forall|k: int| 0 <= k < all.len() implies (#[trigger] all[k]).len() > 0 by {
                if k > 0 {
                    assert(all[k] == rest[k - 1]);
                }
            }
            assert forall|k: int, j: int| 0 <= k < all.len() && 0 <= j < all[k].len()
                implies #[trigger] all[k][j] != '"' by {
                if k > 0 {
                    assert(all[k] == rest[k - 1]);
                } else {
                    assert(all[k] == t);
                }
            }
        } else {
            assert(search_terms(s, i) == rest);
        }
    }
}

/// Build an FTS5 MATCH expression from free-form user input: each token is
/// quoted (so FTS5 operators/punctuation can't break the query) and matched
/// by prefix.
pub fn fts_expression(input: &str) -> (r: Option<String>)
    ensures
        opt_view(r) == fts_expression_spec(input@),
{
    let s = chars_of(input);
    let mut out: Vec<char> = Vec::new();
    let mut count: usize = 0;
    let mut i: usize = 0;
    let ghost mut done: Seq<Seq<char>> = seq![];
    while i < s.len()
        invariant
            i <= s.len(),
            s@ == input@,
            done + search_terms(s@, i as int) == search_terms(s@, 0),
            count == done.len(),
            count <= i,
            out@ == join_quoted(done),
        decreases s.len() - i,
    {
        if is_whitespace(s[i]) {
            i = i + 1;
        } else {
            let mut e = i;
            while e < s.len() && !is_whitespace(s[e])
                invariant
                    i <= e <= s.len(),
                    word_end(s@, i as int) == word_end(s@, e as int),
                decreases s.len() - e,
            {
                e = e + 1;
            }
            proof {
                lemma_word_end(s@, i as int);
            }
            let t = without_quotes_exec(&slice_chars(&s, i, e));
            if t.len() > 0 {
                let ghost before = out@;
                if count > 0 {
                    out.push(' ');
                }
                out.push('"');
                append_chars(&mut out, &t);
                out.push('"');
                out.push('*');
                proof {
                    let nd = done.push(t@);
                    assert(nd.drop_last() =~= done);
                    if count > 0 {
                        assert(out@ =~= join_quoted(nd));
                    } else {
                        assert(out@ =~= join_quoted(nd));
                    }
                    assert(nd + search_terms(s@, e as int) =~= done + (seq![t@] + search_terms(
                        s@,
                        e as int,
                    )));
                    done = nd;
                }
                count = count + 1;
            }
            i = e;
        }
    }
    assert(done + search_terms(s@, i as int) =~= done);
    if count == 0 {
        None
    } else {
        Some(string_of(&out))
    }
}

pub open spec fn opt_view(s: Option<String>) -> Option<Seq<char>> {
    match s {
        Some(v) => Some(v@),
        None => None,
    }
}

// -------------------------------------------------------------- listings --

/// How a listing is fetched. With a full-text expression the hits come in
/// order of relevance, otherwise newest first.
pub struct ListPlan {
    pub fts: Option<String>,
    pub favorites_only: bool,
    pub status: Option<LinkStatus>,
    /// The tag a listing is narrowed to, trimmed.
    pub tag: Option<String>,
    pub limit: i64,
    pub offset: i64,
}

/// The full-text expression of a listing's query, when it has searchable
/// terms.
pub open spec fn fts_filter(query: Option<Seq<char>>) -> Option<Seq<char>> {
    match query {
        Some(q) => fts_expression_spec(q),
        None => None,
    }
}

/// The tag filter of a listing: the trimmed tag; a blank one filters nothing.
pub open spec fn tag_filter(tag: Option<Seq<char>>) -> Option<Seq<char>> {
    match tag {
        Some(t) => if trim(t).len() > 0 {
            Some(trim(t))
        } else {
            None
        },
        None => None,
    }
}

/// The plan of a listing: every filter of the query combined with AND.
pub fn list_plan(q: &ListQuery) -> (r: ListPlan)
    ensures
        opt_view(r.fts) == fts_filter(opt_view(q.query)),
        r.favorites_only == q.favorites_only,
        r.status == q.status,
        opt_view(r.tag) == tag_filter(opt_view(q.tag)),
        r.limit == page_limit(q.limit),
        r.offset == page_offset(q.offset),
{
    let fts = match &q.query {
        Some(text) => fts_expression(text.as_str()),
        None => None,
    };
    let tag = match &q.tag {
        Some(t) => {
            let trimmed = trim_vec(&chars_of(t.as_str()));
            if trimmed.len() > 0 {
                Some(string_of(&trimmed))
            } else {
                None
            }
        },
        None => None,
    };
    ListPlan {
        fts,
        favorites_only: q.favorites_only,
        status: q.status,
        tag,
        limit: q.effective_limit(),
        offset: q.effective_offset(),
    }
}

// ------------------------------------------------------------------ tags --

/// Two tags are the same when they are equal ignoring ASCII case.
pub open spec fn same_tag(a: Seq<char>, b: Seq<char>) -> bool {
    lower(a) == lower(b)
}

pub open spec fn has_tag(ts: Seq<Seq<char>>, t: Seq<char>) -> bool {
    exists|i: int| 0 <= i < ts.len() && same_tag(#[trigger] ts[i], t)
}

/// A tag list as stored: trimmed, empty ones dropped, and only the first
/// of tags that are the same ignoring ASCII case kept.
pub open spec fn clean_tags_spec(tags: Seq<Seq<char>>) -> Seq<Seq<char>>
    decreases tags.len(),
{
    if tags.len() == 0 {
        seq![]
    } else {
        let prev = clean_tags_spec(tags.drop_last());
        let t = trim(tags.last());
        if t.len() == 0 || has_tag(prev, t) {
            prev
        } else {
            prev.push(t)
        }
    }
}

/// `existing` followed by each tag of `new` that it does not already have
/// (ignoring ASCII case).
pub open spec fn union_tags_spec(existing: Seq<Seq<char>>, new: Seq<Seq<char>>) -> Seq<Seq<char>>
    decreases new.len(),
{
    if new.len() == 0 {
        existing
    } else {
        let prev = union_tags_spec(existing, new.drop_last());
        if has_tag(prev, new.last()) {
            prev
        } else {
            prev.push(new.last())
        }
    }
}

/// Tags joined by single spaces (the text the search index sees).
pub open spec fn join_spaced(ts: Seq<Seq<char>>) -> Seq<char>
    decreases ts.len(),
{
    if ts.len() == 0 {
        seq![]
    } else if ts.len() == 1 {
        ts[0]
    } else {
        join_spaced(ts.drop_last()) + seq![' '] + ts.last()
    }
}

pub open spec fn string_views(v: Seq<String>) -> Seq<Seq<char>> {
    Seq::new(v.len(), |i: int| v[i]@)
}

fn same_tag_exec(a: &Vec<char>, b: &Vec<char>) -> (r: bool)
    ensures
        r == same_tag(a@, b@),
{
    eq_chars(&lower_vec(a), &lower_vec(b))
}

fn has_tag_exec(ts: &Vec<String>, t: &Vec<char>) -> (r: bool)
    ensures
        r == has_tag(string_views(ts@), t@),
{
    let mut i: usize = 0;
    while i < ts.len()
        invariant
            i <= ts.len(),
            forall|j: int| 0 <= j < i ==> !same_tag(#[trigger] string_views(ts@)[j], t@),
        decreases ts.len() - i,
    {
        if same_tag_exec(&chars_of(ts[i].as_str()), t) {
            assert(same_tag(string_views(ts@)[i as int], t@));
            return true;
        }
        i = i + 1;
    }
    false
}

fn push_string(v: &mut Vec<String>, s: String)
    ensures
        string_views(final(v)@) == string_views(old(v)@).push(s@),
{
    let ghost before = string_views(v@);
    v.push(s);
    assert(string_views(v@) =~= before.push(s@));
}

/// Replace-the-tag-set cleaning: trimmed, non-empty, deduplicated ignoring
/// ASCII case (the first spelling wins).
pub fn clean_tags(tags: &Vec<String>) -> (r: Vec<String>)
    ensures
        string_views(r@) == clean_tags_spec(string_views(tags@)),
{
    let ghost tv = string_views(tags@);
    let mut out: Vec<String> = Vec::new();
    let mut i: usize = 0;
    while i < tags.len()
        invariant
            i <= tags.len(),
            tv == string_views(tags@),
            string_views(out@) == clean_tags_spec(tv.take(i as int)),
        decreases tags.len() - i,
    {
        assert(tv.take(i + 1).drop_last() =~= tv.take(i as int));
        assert(tv.take(i + 1).last() == tags@[i as int]@);
        let t = trim_vec(&chars_of(tags[i].as_str()));
        if t.len() > 0 && !has_tag_exec(&out, &t) {
            push_string(&mut out, string_of(&t));
        }
        i = i + 1;
    }
    assert(tv.take(tags.len() as int) =~= tv);
    out
}

/// `existing` plus each tag of `new` it does not have yet (ignoring ASCII
/// case), in order.
pub fn union_tags(existing: &Vec<String>, new: &Vec<String>) -> (r: Vec<String>)
    ensures
        string_views(r@) == union_tags_spec(string_views(existing@), string_views(new@)),
{
    let ghost ev = string_views(existing@);
    let ghost nv = string_views(new@);
    let mut out = existing.clone();
    assert(string_views(out@) =~= ev);
    let mut i: usize = 0;
    while i < new.len()
        invariant
            i <= new.len(),
            ev == string_views(existing@),
            nv == string_views(new@),
            string_views(out@) == union_tags_spec(ev, nv.take(i as int)),
        decreases new.len() - i,
    {
        assert(nv.take(i + 1).drop_last() =~= nv.take(i as int));
        assert(nv.take(i + 1).last() == new@[i as int]@);
        let t = chars_of(new[i].as_str());
        if !has_tag_exec(&out, &t) {
            push_string(&mut out, new[i].clone());
        }
        i = i + 1;
    }
    assert(nv.take(new.len() as int) =~= nv);
    out
}

/// Tags joined by single spaces.
pub fn tags_text(tags: &Vec<String>) -> (r: String)
    ensures
        r@ == join_spaced(string_views(tags@)),
{
    let ghost tv = string_views(tags@);
    let mut out: Vec<char> = Vec::new();
    let mut i: usize = 0;
    while i < tags.len()
        invariant
            i <= tags.len(),
            tv == string_views(tags@),
            out@ == join_spaced(tv.take(i as int)),
        decreases tags.len() - i,
    {
        assert(tv.take(i + 1).drop_last() =~= tv.take(i as int));
        assert(tv.take(i + 1).last() == tags@[i as int]@);
        if i > 0 {
            out.push(' ');
        }
        append_chars(&mut out, &chars_of(tags[i].as_str()));
        proof {
            if i == 0 {
                assert(out@ =~= join_spaced(tv.take(1)));
            }
        }
        i = i + 1;
    }
    assert(tv.take(tags.len() as int) =~= tv);
    string_of(&out)
}

/// A cleaned tag list holds no empty tag and no two tags that are the same
/// ignoring ASCII case.
pub proof fn lemma_clean_tags_distinct(tags: Seq<Seq<char>>)
    ensures
        forall|i: int|
            0 <= i < clean_tags_spec(tags).len() ==> #[trigger] clean_tags_spec(tags)[i].len() > 0,
        forall|i: int, j: int|
            0 <= i < j < clean_tags_spec(tags).len() ==> !same_tag(
                #[trigger] clean_tags_spec(tags)[i],
                #[trigger] clean_tags_spec(tags)[j],
            ),
    decreases tags.len(),
{
    if tags.len() > 0 {
        lemma_clean_tags_distinct(tags.drop_last());
        let prev = clean_tags_spec(tags.drop_last());
        let t = trim(tags.last());
        if !(t.len() == 0 || has_tag(prev, t)) {
            let r = prev.push(t);
            assert forall|i: int, j: int| 0 <= i < j < r.len() implies !same_tag(
                #[trigger] r[i],
                #[trigger] r[j],
            ) by {
                if j == r.len() - 1 {
                    assert(r[i] == prev[i]);
                    if same_tag(r[i], r[j]) {
                        assert(same_tag(prev[i], t));
                    }
                } else {
                    assert(r[i] == prev[i] && r[j] == prev[j]);
                }
            }
            assert forall|i: int| 0 <= i < r.len() implies #[trigger] r[i].len() > 0 by {
                if i < prev.len() {
                    assert(r[i] == prev[i]);
                }
            }
        }
    }
}

/// Every non-blank input tag is kept, under its own spelling or under an
/// earlier one that is the same ignoring ASCII case.
pub proof fn lemma_clean_tags_complete(tags: Seq<Seq<char>>)
    ensures
        forall|i: int|
            0 <= i < tags.len() && trim(#[trigger] tags[i]).len() > 0 ==> has_tag(
                clean_tags_spec(tags),
                trim(tags[i]),
            ),
    decreases tags.len(),
{
    if tags.len() > 0 {
        lemma_clean_tags_complete(tags.drop_last());
        let prev = clean_tags_spec(tags.drop_last());
        let r = clean_tags_spec(tags);
        assert forall|i: int| 0 <= i < tags.len() && trim(#[trigger] tags[i]).len() > 0 implies has_tag(
            r,
            trim(tags[i]),
        ) by {
            if i < tags.len() - 1 {
                assert(tags.drop_last()[i] == tags[i]);
                let k = choose|k: int| 0 <= k < prev.len() && same_tag(#[trigger] prev[k], trim(tags[i]));
                assert(r[k] == prev[k]);
            } else {
                let t = trim(tags.last());
                if has_tag(prev, t) {
                    let k = choose|k: int| 0 <= k < prev.len() && same_tag(#[trigger] prev[k], t);
                    assert(r[k] == prev[k]);
                } else {
                    assert(r[r.len() - 1] == t);
                }
            }
        }
    }
}

/// Merging tags never drops an existing tag, and every added tag is
/// present afterwards (ignoring ASCII case).
pub proof fn lemma_union_tags(existing: Seq<Seq<char>>, new: Seq<Seq<char>>)
    ensures
        union_tags_spec(existing, new).len() >= existing.len(),
        union_tags_spec(existing, new).take(existing.len() as int) == existing,
        forall|i: int| 0 <= i < new.len() ==> has_tag(union_tags_spec(existing, new), #[trigger] new[i]),
    decreases new.len(),
{
    if new.len() > 0 {
        lemma_union_tags(existing, new.drop_last());
        let prev = union_tags_spec(existing, new.drop_last());
        let r = union_tags_spec(existing, new);
        assert(r.take(existing.len() as int) =~= existing);
        assert forall|i: int| 0 <= i < new.len() implies has_tag(r, #[trigger] new[i]) by {
            if i < new.len() - 1 {
                assert(new.drop_last()[i] == new[i]);
                let k = choose|k: int| 0 <= k < prev.len() && same_tag(#[trigger] prev[k], new[i]);
                assert(r[k] == prev[k]);
            } else if !has_tag(prev, new.last()) {
                assert(r[r.len() - 1] == new.last());
            }
        }
    }
}

proof fn lemma_trim_start_lower(x: Seq<char>)
    ensures
        trim_start(lower(x)) == lower(trim_start(x)),
    decreases x.len(),
{
    if x.len() > 0 {
        assert(lower(x)[0] == lower_char(x[0]));
        assert(lower(x).drop_first() =~= lower(x.drop_first()));
        if is_ws(x[0]) {
            lemma_trim_start_lower(x.drop_first());
        }
    }
}

proof fn lemma_trim_end_lower(x: Seq<char>)
    ensures
        trim_end(lower(x)) == lower(trim_end(x)),
    decreases x.len(),
{
    if x.len() > 0 {
        assert(lower(x).last() == lower_char(x.last()));
        assert(lower(x).drop_last() =~= lower(x.drop_last()));
        if is_ws(x.last()) {
            lemma_trim_end_lower(x.drop_last());
        }
    }
}

/// Tags that are the same ignoring ASCII case stay so once trimmed.
proof fn lemma_same_tag_trim(a: Seq<char>, b: Seq<char>)
    requires
        same_tag(a, b),
    ensures
        same_tag(trim(a), trim(b)),
        trim(a).len() == trim(b).len(),
{
    lemma_trim_start_lower(a);
    lemma_trim_start_lower(b);
    lemma_trim_end_lower(trim_start(a));
    lemma_trim_end_lower(trim_start(b));
    assert(lower(trim(a)).len() == trim(a).len());
    assert(lower(trim(b)).len() == trim(b).len());
}

/// A cleaned prefix of a tag list is a prefix of the cleaned list.
proof fn lemma_clean_tags_prefix(s: Seq<Seq<char>>, k: int)
    requires
        0 <= k <= s.len(),
    ensures
        clean_tags_spec(s.take(k)).len() <= clean_tags_spec(s).len(),
        clean_tags_spec(s).take(clean_tags_spec(s.take(k)).len() as int) == clean_tags_spec(s.take(k)),
    decreases s.len(),
{
    if k == s.len() {
        assert(s.take(k) =~= s);
    } else {
        lemma_clean_tags_prefix(s.drop_last(), k);
        assert(s.drop_last().take(k) =~= s.take(k));
        let prev = clean_tags_spec(s.drop_last());
        let c = clean_tags_spec(s.take(k));
        assert(clean_tags_spec(s).take(prev.len() as int) =~= prev);
        assert(clean_tags_spec(s).take(c.len() as int) =~= prev.take(c.len() as int));
    }
}

/// Every tag a cleaned list holds is the trimmed form of an input tag.
proof fn lemma_clean_tags_sound(s: Seq<Seq<char>>)
    ensures
        forall|i: int|
            0 <= i < clean_tags_spec(s).len() ==> exists|j: int|
                0 <= j < s.len() && #[trigger] clean_tags_spec(s)[i] == trim(#[trigger] s[j]),
    decreases s.len(),
{
    if s.len() > 0 {
        lemma_clean_tags_sound(s.drop_last());
        let prev = clean_tags_spec(s.drop_last());
        let r = clean_tags_spec(s);
        assert forall|i: int| 0 <= i < r.len() implies exists|j: int|
            0 <= j < s.len() && #[trigger] r[i] == trim(#[trigger] s[j]) by {
            if i < prev.len() {
                assert(r[i] == prev[i]);
                let j = choose|j: int| 0 <= j < s.drop_last().len() && prev[i] == trim(s.drop_last()[j]);
                assert(s.drop_last()[j] == s[j]);
            } else {
                assert(r[i] == trim(s[s.len() - 1]));
            }
        }
    }
}

/// Every tag of a union comes from one of its two lists.
proof fn lemma_union_tags_sound(existing: Seq<Seq<char>>, new: Seq<Seq<char>>)
    ensures
        forall|i: int|
            0 <= i < union_tags_spec(existing, new).len() ==> existing.contains(
                #[trigger] union_tags_spec(existing, new)[i],
            ) || new.contains(union_tags_spec(existing, new)[i]),
    decreases new.len(),
{
    if new.len() > 0 {
        lemma_union_tags_sound(existing, new.drop_last());
        let prev = union_tags_spec(existing, new.drop_last());
        let r = union_tags_spec(existing, new);
        assert forall|i: int| 0 <= i < r.len() implies existing.contains(#[trigger] r[i]) || new.contains(
            r[i],
        ) by {
            if i < prev.len() {
                assert(r[i] == prev[i]);
                if new.drop_last().contains(prev[i]) {
                    let j = choose|j: int| 0 <= j < new.drop_last().len() && new.drop_last()[j] == prev[i];
                    assert(new[j] == prev[i]);
                }
            } else {
                assert(r[i] == new[new.len() - 1]);
            }
        }
    }
}

/// The tags a save has after an import: its stored (clean) tags first,
/// under their own spelling, then the imported tags it did not have,
/// trimmed, with blanks dropped and duplicates ignoring ASCII case removed.
pub proof fn lemma_imported_tags(old: Seq<Seq<char>>, new: Seq<Seq<char>>)
    requires
        clean_tags_spec(old) == old,
    ensures
        ({
            let r = clean_tags_spec(union_tags_spec(old, new));
            &&& r.take(old.len() as int) == old
            &&& forall|i: int|
                0 <= i < new.len() && trim(#[trigger] new[i]).len() > 0 ==> has_tag(r, trim(new[i]))
            &&& forall|i: int| 0 <= i < r.len() ==> old.contains(#[trigger] r[i]) || exists|j: int|
                0 <= j < new.len() && r[i] == trim(#[trigger] new[j])
            &&& forall|i: int, j: int| 0 <= i < j < r.len() ==> !same_tag(#[trigger] r[i], #[trigger] r[j])
        }),
{
    let u = union_tags_spec(old, new);
    let r = clean_tags_spec(u);
    lemma_union_tags(old, new);
    lemma_union_tags_sound(old, new);
    lemma_clean_tags_distinct(u);
    lemma_clean_tags_complete(u);
    lemma_clean_tags_sound(u);
    lemma_clean_tags_prefix(u, old.len() as int);
    assert(u.take(old.len() as int) == old);
    assert(r.take(old.len() as int) == old);
    assert forall|i: int| 0 <= i < new.len() && trim(#[trigger] new[i]).len() > 0 implies has_tag(
        r,
        trim(new[i]),
    ) by {
        let k = choose|k: int| 0 <= k < u.len() && same_tag(#[trigger] u[k], new[i]);
        lemma_same_tag_trim(u[k], new[i]);
        assert(trim(u[k]).len() > 0);
        assert(has_tag(r, trim(u[k])));
        let m = choose|m: int| 0 <= m < r.len() && same_tag(#[trigger] r[m], trim(u[k]));
        assert(same_tag(r[m], trim(new[i])));
    }
    assert forall|i: int| 0 <= i < r.len() implies old.contains(#[trigger] r[i]) || exists|j: int|
        0 <= j < new.len() && r[i] == trim(#[trigger] new[j]) by {
        let j = choose|j: int| 0 <= j < u.len() && r[i] == trim(u[j]);
        if old.contains(u[j]) {
            let k = choose|k: int| 0 <= k < old.len() && old[k] == u[j];
            lemma_clean_tags_distinct(old);
            assert(old[k] == clean_tags_spec(old)[k]);
            lemma_clean_is_trimmed(old, k);
            assert(r[i] == old[k]);
        } else {
            let k = choose|k: int| 0 <= k < new.len() && new[k] == u[j];
            assert(r[i] == trim(new[k]));
        }
    }
}

/// A cleaned tag is already trimmed.
proof fn lemma_clean_is_trimmed(s: Seq<Seq<char>>, k: int)
    requires
        0 <= k < clean_tags_spec(s).len(),
    ensures
        trim(clean_tags_spec(s)[k]) == clean_tags_spec(s)[k],
    decreases s.len(),
{
    let prev = clean_tags_spec(s.drop_last());
    if k < prev.len() {
        assert(clean_tags_spec(s)[k] == prev[k]);
        lemma_clean_is_trimmed(s.drop_last(), k);
    } else {
        lemma_trim_idempotent(s.last());
    }
}

/// A tag list as the vault stores it: trimmed, non-blank, and free of
/// duplicates ignoring ASCII case.
pub open spec fn clean_shaped(t: Seq<Seq<char>>) -> bool {
    &&& forall|i: int| 0 <= i < t.len() ==> (#[trigger] t[i]).len() > 0 && trim(t[i]) == t[i]
    &&& forall|i: int, j: int| 0 <= i < j < t.len() ==> !same_tag(#[trigger] t[i], #[trigger] t[j])
}

proof fn lemma_clean_shaped_fixed(t: Seq<Seq<char>>)
    requires
        clean_shaped(t),
    ensures
        clean_tags_spec(t) == t,
    decreases t.len(),
{
    if t.len() > 0 {
        let init = t.drop_last();
        assert forall|i: int| 0 <= i < init.len() implies (#[trigger] init[i]).len() > 0 && trim(init[i])
            == init[i] by {
            assert(init[i] == t[i]);
        }
        assert forall|i: int, j: int| 0 <= i < j < init.len() implies !same_tag(
            #[trigger] init[i],
            #[trigger] init[j],
        ) by {
            assert(init[i] == t[i] && init[j] == t[j]);
        }
        lemma_clean_shaped_fixed(init);
        let last = t[t.len() - 1];
        assert(!has_tag(init, last)) by {
            if has_tag(init, last) {
                let k = choose|k: int| 0 <= k < init.len() && same_tag(#[trigger] init[k], last);
                assert(init[k] == t[k]);
            }
        }
        assert(init.push(last) =~= t);
    }
}

/// What tag cleaning gives is clean-shaped, and cleaning it again changes
/// nothing.
pub proof fn lemma_clean_tags_idempotent(tags: Seq<Seq<char>>)
    ensures
        clean_shaped(clean_tags_spec(tags)),
        clean_tags_spec(clean_tags_spec(tags)) == clean_tags_spec(tags),
{
    let c = clean_tags_spec(tags);
    lemma_clean_tags_distinct(tags);
    assert forall|i: int| 0 <= i < c.len() implies (#[trigger] c[i]).len() > 0 && trim(c[i]) == c[i] by {
        lemma_clean_is_trimmed(tags, i);
    }
    lemma_clean_shaped_fixed(c);
}

proof fn lemma_clean_absorbs(t: Seq<Seq<char>>, e: Seq<Seq<char>>)
    requires
        clean_shaped(t),
        forall|k: int| 0 <= k < e.len() ==> trim(#[trigger] e[k]).len() == 0 || has_tag(t, trim(e[k])),
    ensures
        clean_tags_spec(t + e) == t,
    decreases e.len(),
{
    if e.len() == 0 {
        assert(t + e =~= t);
        lemma_clean_shaped_fixed(t);
    } else {
        let e0 = e.drop_last();
        assert forall|k: int| 0 <= k < e0.len() implies trim(#[trigger] e0[k]).len() == 0 || has_tag(
            t,
            trim(e0[k]),
        ) by {
            assert(e0[k] == e[k]);
        }
        lemma_clean_absorbs(t, e0);
        assert((t + e).drop_last() =~= t + e0);
        assert((t + e).last() == e[e.len() - 1]);
    }
}

/// Merging the same tags a second time changes nothing: after an import,
/// importing the same bookmark again leaves the save's tags as they are.
pub proof fn lemma_imported_tags_idempotent(old: Seq<Seq<char>>, new: Seq<Seq<char>>)
    requires
        clean_tags_spec(old) == old,
    ensures
        clean_tags_spec(union_tags_spec(clean_tags_spec(union_tags_spec(old, new)), new))
            == clean_tags_spec(union_tags_spec(old, new)),
{
    let t = clean_tags_spec(union_tags_spec(old, new));
    lemma_imported_tags(old, new);
    lemma_clean_tags_idempotent(union_tags_spec(old, new));
    let u2 = union_tags_spec(t, new);
    lemma_union_tags(t, new);
    lemma_union_tags_sound(t, new);
    let e = u2.skip(t.len() as int);
    assert(u2 =~= t + e);
    assert forall|k: int| 0 <= k < e.len() implies trim(#[trigger] e[k]).len() == 0 || has_tag(
        t,
        trim(e[k]),
    ) by {
        let x = e[k];
        assert(x == u2[t.len() + k]);
        if t.contains(x) {
            let m = choose|m: int| 0 <= m < t.len() && t[m] == x;
            assert(trim(t[m]) == t[m]);
            assert(same_tag(t[m], trim(x)));
        } else {
            let m = choose|m: int| 0 <= m < new.len() && new[m] == x;
            assert(trim(new[m]).len() > 0 ==> has_tag(t, trim(new[m])));
        }
    }
    lemma_clean_absorbs(t, e);
}

/// One import of a bookmark into a stored save, whose tags the vault keeps
/// cleaned: the fields follow `imported_into_spec`, and the tags are the
/// stored ones first, then each non-blank imported tag it did not have,
/// trimmed, without duplicates ignoring ASCII case.
pub proof fn lemma_import_merge(
    old: SaveRecordView,
    stored_tags: Seq<Seq<char>>,
    item: ImportItem,
    now: i64,
)
    requires
        exists|raw: Seq<Seq<char>>| stored_tags == clean_tags_spec(raw),
    ensures
        ({
            let r = imported_into_spec(old, item, now);
            &&& r.id == old.id && r.url == old.url
            &&& r.title == (if old.title.len() > 0 { old.title } else { item.title@ })
            &&& r.description == (if old.description.len() > 0 { old.description } else { item.description@ })
            &&& r.notes == (if old.notes.len() > 0 { old.notes } else { item.notes@ })
            &&& r.favorite == (old.favorite || item.favorite)
            &&& r.created_at == (match item.created_at {
                Some(t) => if t < old.created_at { t } else { old.created_at },
                None => old.created_at,
            })
        }),
        ({
            let tags = clean_tags_spec(union_tags_spec(stored_tags, item@.tags));
            &&& tags.take(stored_tags.len() as int) == stored_tags
            &&& forall|i: int|
                0 <= i < item@.tags.len() && trim(#[trigger] item@.tags[i]).len() > 0 ==> has_tag(
                    tags,
                    trim(item@.tags[i]),
                )
            &&& forall|i: int| 0 <= i < tags.len() ==> stored_tags.contains(#[trigger] tags[i]) || exists|j: int|
                0 <= j < item@.tags.len() && tags[i] == trim(#[trigger] item@.tags[j])
            &&& forall|i: int, j: int| 0 <= i < j < tags.len() ==> !same_tag(#[trigger] tags[i], #[trigger] tags[j])
            &&& clean_tags_spec(union_tags_spec(tags, item@.tags)) == tags
        }),
{
    let raw = choose|raw: Seq<Seq<char>>| stored_tags == clean_tags_spec(raw);
    lemma_clean_tags_idempotent(raw);
    lemma_imported_tags(stored_tags, item@.tags);
    lemma_imported_tags_idempotent(stored_tags, item@.tags);
}

// ------------------------------------------------------------- records --

/// One stored save, as the database row holds it (tags are kept apart).
#[derive(Debug, Clone)]
pub struct SaveRecord {
    pub id: i64,
    pub url: String,
    pub title: String,
    pub description: String,
    pub notes: String,
    pub favicon_url: String,
    pub favorite: bool,
    pub is_read: bool,
    pub status: LinkStatus,
    pub redirect_url: String,
    pub http_status: Option<i64>,
    pub content_hash: String,
    pub archive_text: String,
    pub archived_at: Option<i64>,
    pub thumbnail: String,
    pub created_at: i64,
    pub updated_at: i64,
    pub last_checked_at: Option<i64>,
}

pub struct SaveRecordView {
    pub id: i64,
    pub url: Seq<char>,
    pub title: Seq<char>,
    pub description: Seq<char>,
    pub notes: Seq<char>,
    pub favicon_url: Seq<char>,
    pub favorite: bool,
    pub is_read: bool,
    pub status: LinkStatus,
    pub redirect_url: Seq<char>,
    pub http_status: Option<i64>,
    pub content_hash: Seq<char>,
    pub archive_text: Seq<char>,
    pub archived_at: Option<i64>,
    pub thumbnail: Seq<char>,
    pub created_at: i64,
    pub updated_at: i64,
    pub last_checked_at: Option<i64>,
}

impl View for SaveRecord {
    type V = SaveRecordView;

    open spec fn view(&self) -> SaveRecordView {
        SaveRecordView {
            id: self.id,
            url: self.url@,
            title: self.title@,
            description: self.description@,
            notes: self.notes@,
            favicon_url: self.favicon_url@,
            favorite: self.favorite,
            is_read: self.is_read,
            status: self.status,
            redirect_url: self.redirect_url@,
            http_status: self.http_status,
            content_hash: self.content_hash@,
            archive_text: self.archive_text@,
            archived_at: self.archived_at,
            thumbnail: self.thumbnail@,
            created_at: self.created_at,
            updated_at: self.updated_at,
            last_checked_at: self.last_checked_at,
        }
    }
}

/// `new` unless it is empty, in which case `old` stays.
pub open spec fn unless_empty(new: Seq<char>, old: Seq<char>) -> Seq<char> {
    if new.len() == 0 {
        old
    } else {
        new
    }
}

fn pick_unless_empty(new: &String, old: String) -> (r: String)
    ensures
        r@ == unless_empty(new@, old@),
{
    if new.as_str().is_empty() {
        old
    } else {
        new.clone()
    }
}

/// A save captured under a URL that is not stored yet: unread, unchecked,
/// created and updated `now`.
pub open spec fn captured_spec(id: i64, url: Seq<char>, new: NewSave, now: i64) -> SaveRecordView {
    SaveRecordView {
        id: id,
        url: url,
        title: new.title@,
        description: new.description@,
        notes: seq![],
        favicon_url: new.favicon_url@,
        favorite: false,
        is_read: false,
        status: LinkStatus::Unchecked,
        redirect_url: seq![],
        http_status: None,
        content_hash: seq![],
        archive_text: seq![],
        archived_at: None,
        thumbnail: seq![],
        created_at: now,
        updated_at: now,
        last_checked_at: None,
    }
}

/// A new capture of an already stored URL: title, description and favicon
/// are refreshed from the capture where it has them, everything else stays.
pub open spec fn recaptured_spec(old: SaveRecordView, new: NewSave, now: i64) -> SaveRecordView {
    SaveRecordView {
        title: unless_empty(new.title@, old.title),
        description: unless_empty(new.description@, old.description),
        favicon_url: unless_empty(new.favicon_url@, old.favicon_url),
        updated_at: now,
        ..old
    }
}

/// An imported bookmark whose URL is not stored yet; created at the
/// bookmark's own date when it has one.
pub open spec fn imported_new_spec(id: i64, url: Seq<char>, item: ImportItem, now: i64) -> SaveRecordView {
    SaveRecordView {
        id: id,
        url: url,
        title: item.title@,
        description: item.description@,
        notes: item.notes@,
        favicon_url: seq![],
        favorite: item.favorite,
        is_read: false,
        status: LinkStatus::Unchecked,
        redirect_url: seq![],
        http_status: None,
        content_hash: seq![],
        archive_text: seq![],
        archived_at: None,
        thumbnail: seq![],
        created_at: match item.created_at {
            Some(t) => t,
            None => now,
        },
        updated_at: now,
        last_checked_at: None,
    }
}

/// An imported bookmark merged into a stored save: only empty fields are
/// filled, `favorite` is sticky, and the earliest creation date wins.
pub open spec fn imported_into_spec(old: SaveRecordView, item: ImportItem, now: i64) -> SaveRecordView {
    SaveRecordView {
        title: if old.title.len() == 0 {
            item.title@
        } else {
            old.title
        },
        description: if old.description.len() == 0 {
            item.description@
        } else {
            old.description
        },
        notes: if old.notes.len() == 0 {
            item.notes@
        } else {
            old.notes
        },
        favorite: old.favorite || item.favorite,
        created_at: match item.created_at {
            Some(t) => if t < old.created_at {
                t
            } else {
                old.created_at
            },
            None => old.created_at,
        },
        updated_at: now,
        ..old
    }
}

/// A metadata edit: each given field replaces the stored one.
pub open spec fn patched_spec(old: SaveRecordView, patch: SavePatch, now: i64) -> SaveRecordView {
    SaveRecordView {
        title: match patch.title {
            Some(t) => t@,
            None => old.title,
        },
        description: match patch.description {
            Some(t) => t@,
            None => old.description,
        },
        notes: match patch.notes {
            Some(t) => t@,
            None => old.notes,
        },
        favicon_url: match patch.favicon_url {
            Some(t) => t@,
            None => old.favicon_url,
        },
        updated_at: now,
        ..old
    }
}

/// Editing metadata sets each field the patch names to the patch's value
/// and leaves every other field as it was; only the edit time moves.
pub proof fn lemma_patch_edits_named_fields(old: SaveRecordView, patch: SavePatch, now: i64)
    ensures
        ({
            let r = patched_spec(old, patch, now);
            &&& patch.title matches Some(v) ==> r.title == v@
            &&& patch.title is None ==> r.title == old.title
            &&& patch.description matches Some(v) ==> r.description == v@
            &&& patch.description is None ==> r.description == old.description
            &&& patch.notes matches Some(v) ==> r.notes == v@
            &&& patch.notes is None ==> r.notes == old.notes
            &&& patch.favicon_url matches Some(v) ==> r.favicon_url == v@
            &&& patch.favicon_url is None ==> r.favicon_url == old.favicon_url
            &&& r.id == old.id && r.url == old.url && r.favorite == old.favorite
            &&& r.is_read == old.is_read && r.status == old.status
            &&& r.created_at == old.created_at && r.updated_at == now
        }),
{
}

/// Whether extracted text is worth keeping as an archive (not blank).
pub open spec fn archive_worthy(t: Seq<char>) -> bool {
    trim(t).len() > 0
}

/// The outcome of a link check persisted: the status always; the HTTP code,
/// redirect target and content hash when the check has them (a missing one
/// leaves the stored value alone); the archive text only when the page
/// yielded non-blank text.
pub open spec fn checked_spec(old: SaveRecordView, outcome: CheckOutcome, now: i64) -> SaveRecordView {
    let archive = match outcome.archive_text {
        Some(t) => if archive_worthy(t@) {
            Some(t@)
        } else {
            None
        },
        None => None,
    };
    SaveRecordView {
        status: outcome.status,
        http_status: match outcome.http_status {
            Some(c) => Some(c as i64),
            None => old.http_status,
        },
        redirect_url: match outcome.redirect_url {
            Some(u) => u@,
            None => old.redirect_url,
        },
        content_hash: match outcome.content_hash {
            Some(h) => h@,
            None => old.content_hash,
        },
        archive_text: match archive {
            Some(t) => t,
            None => old.archive_text,
        },
        archived_at: match archive {
            Some(_) => Some(now),
            None => old.archived_at,
        },
        last_checked_at: Some(now),
        ..old
    }
}

/// A save pointed at a new URL (accepting a redirect): its check state
/// resets so the monitor re-verifies the new location promptly.
pub open spec fn repointed_spec(old: SaveRecordView, url: Seq<char>, now: i64) -> SaveRecordView {
    SaveRecordView {
        url: url,
        redirect_url: seq![],
        status: LinkStatus::Unchecked,
        content_hash: seq![],
        http_status: None,
        last_checked_at: None,
        updated_at: now,
        ..old
    }
}

impl SaveRecord {
    /// The row for a capture of a URL that is not stored yet.
    pub fn captured(id: i64, url: String, new: &NewSave, now: i64) -> (r: SaveRecord)
        ensures
            r@ == captured_spec(id, url@, *new, now),
    {
        SaveRecord {
            id,
            url,
            title: new.title.clone(),
            description: new.description.clone(),
            notes: String::new(),
            favicon_url: new.favicon_url.clone(),
            favorite: false,
            is_read: false,
            status: LinkStatus::Unchecked,
            redirect_url: String::new(),
            http_status: None,
            content_hash: String::new(),
            archive_text: String::new(),
            archived_at: None,
            thumbnail: String::new(),
            created_at: now,
            updated_at: now,
            last_checked_at: None,
        }
    }

    /// A re-capture of this save: empty capture fields never wipe stored
    /// metadata.
    pub fn recaptured(self, new: &NewSave, now: i64) -> (r: SaveRecord)
        ensures
            r@ == recaptured_spec(self@, *new, now),
    {
        let mut r = self;
        r.title = pick_unless_empty(&new.title, r.title);
        r.description = pick_unless_empty(&new.description, r.description);
        r.favicon_url = pick_unless_empty(&new.favicon_url, r.favicon_url);
        r.updated_at = now;
        r
    }

    /// The row for an imported bookmark whose URL is not stored yet.
    pub fn imported_new(id: i64, url: String, item: &ImportItem, now: i64) -> (r: SaveRecord)
        ensures
            r@ == imported_new_spec(id, url@, *item, now),
    {
        SaveRecord {
            id,
            url,
            title: item.title.clone(),
            description: item.description.clone(),
            notes: item.notes.clone(),
            favicon_url: String::new(),
            favorite: item.favorite,
            is_read: false,
            status: LinkStatus::Unchecked,
            redirect_url: String::new(),
            http_status: None,
            content_hash: String::new(),
            archive_text: String::new(),
            archived_at: None,
            thumbnail: String::new(),
            created_at: match item.created_at {
                Some(t) => t,
                None => now,
            },
            updated_at: now,
            last_checked_at: None,
        }
    }

    /// An imported bookmark merged into this save without destroying user
    /// data.
    pub fn imported_into(self, item: &ImportItem, now: i64) -> (r: SaveRecord)
        ensures
            r@ == imported_into_spec(self@, *item, now),
    {
        let mut r = self;
        if r.title.as_str().is_empty() {
            r.title = item.title.clone();
        }
        if r.description.as_str().is_empty() {
            r.description = item.description.clone();
        }
        if r.notes.as_str().is_empty() {
            r.notes = item.notes.clone();
        }
        r.favorite = r.favorite || item.favorite;
        match item.created_at {
            Some(t) => {
                if t < r.created_at {
                    r.created_at = t;
                }
            },
            None => {},
        }
        r.updated_at = now;
        r
    }

    /// A metadata edit applied to this save.
    pub fn patched(self, patch: &SavePatch, now: i64) -> (r: SaveRecord)
        ensures
            r@ == patched_spec(self@, *patch, now),
    {
        let mut r = self;
        match &patch.title {
            Some(t) => {
                r.title = t.clone();
            },
            None => {},
        }
        match &patch.description {
            Some(t) => {
                r.description = t.clone();
            },
            None => {},
        }
        match &patch.notes {
            Some(t) => {
                r.notes = t.clone();
            },
            None => {},
        }
        match &patch.favicon_url {
            Some(t) => {
                r.favicon_url = t.clone();
            },
            None => {},
        }
        r.updated_at = now;
        r
    }

    /// The outcome of a link check applied to this save.
    pub fn checked(self, outcome: &CheckOutcome, now: i64) -> (r: SaveRecord)
        ensures
            r@ == checked_spec(self@, *outcome, now),
    {
        let mut r = self;
        r.status = outcome.status;
        match outcome.http_status {
            Some(c) => {
                r.http_status = Some(c as i64);
            },
            None => {},
        }
        match &outcome.redirect_url {
            Some(u) => {
                r.redirect_url = u.clone();
            },
            None => {},
        }
        match &outcome.content_hash {
            Some(h) => {
                r.content_hash = h.clone();
            },
            None => {},
        }
        match &outcome.archive_text {
            Some(t) => {
                if trim_vec(&chars_of(t.as_str())).len() > 0 {
                    r.archive_text = t.clone();
                    r.archived_at = Some(now);
                }
            },
            None => {},
        }
        r.last_checked_at = Some(now);
        r
    }

    /// This save pointed at a new URL, with its check state reset.
    pub fn repointed(self, url: String, now: i64) -> (r: SaveRecord)
        ensures
            r@ == repointed_spec(self@, url@, now),
    {
        let mut r = self;
        r.url = url;
        r.redirect_url = String::new();
        r.status = LinkStatus::Unchecked;
        r.content_hash = String::new();
        r.http_status = None;
        r.last_checked_at = None;
        r.updated_at = now;
        r
    }

    /// The save as the vault hands it out, with its tags.
    pub fn into_save(self, tags: Vec<String>) -> (r: Save)
        ensures
            r.id == self.id && r.url == self.url && r.title == self.title,
            r.description == self.description && r.notes == self.notes,
            r.favicon_url == self.favicon_url && r.favorite == self.favorite,
            r.status == self.status && r.redirect_url == self.redirect_url,
            r.http_status == self.http_status && r.tags == tags,
            r.created_at == self.created_at && r.updated_at == self.updated_at,
            r.last_checked_at == self.last_checked_at,
    {
        Save {
            id: self.id,
            url: self.url,
            title: self.title,
            description: self.description,
            notes: self.notes,
            favicon_url: self.favicon_url,
            favorite: self.favorite,
            status: self.status,
            redirect_url: self.redirect_url,
            http_status: self.http_status,
            tags,
            created_at: self.created_at,
            updated_at: self.updated_at,
            last_checked_at: self.last_checked_at,
        }
    }
}

/// Import never destroys user data: fields the user filled keep their
/// value, a favorite stays a favorite, the creation date never moves later,
/// and the save keeps its identity, URL and link state.
pub proof fn lemma_import_preserves_user_data(old: SaveRecordView, item: ImportItem, now: i64)
    ensures
        ({
            let r = imported_into_spec(old, item, now);
            &&& old.title.len() > 0 ==> r.title == old.title
            &&& old.description.len() > 0 ==> r.description == old.description
            &&& old.notes.len() > 0 ==> r.notes == old.notes
            &&& old.favorite ==> r.favorite
            &&& r.created_at <= old.created_at
            &&& r.id == old.id && r.url == old.url && r.favicon_url == old.favicon_url
            &&& r.status == old.status && r.is_read == old.is_read
        }),
{
}

/// Importing the same bookmark twice gives the same save as importing it
/// once (up to the update time).
pub proof fn lemma_import_idempotent(old: SaveRecordView, item: ImportItem, t1: i64, t2: i64)
    ensures
        imported_into_spec(imported_into_spec(old, item, t1), item, t2) == imported_into_spec(
            old,
            item,
            t2,
        ),
{
}

/// A re-capture with empty fields never wipes stored metadata, and a
/// re-capture never touches notes, favorite, read state or link state.
pub proof fn lemma_recapture_keeps_metadata(old: SaveRecordView, new: NewSave, now: i64)
    ensures
        ({
            let r = recaptured_spec(old, new, now);
            &&& new.title@.len() == 0 ==> r.title == old.title
            &&& new.description@.len() == 0 ==> r.description == old.description
            &&& new.favicon_url@.len() == 0 ==> r.favicon_url == old.favicon_url
            &&& r.notes == old.notes && r.favorite == old.favorite && r.is_read == old.is_read
            &&& r.status == old.status && r.created_at == old.created_at && r.url == old.url
        }),
{
}

/// A check whose page yields no text (or only blank text) keeps the
/// previous archive snapshot.
pub proof fn lemma_blank_text_keeps_archive(old: SaveRecordView, outcome: CheckOutcome, now: i64)
    requires
        match outcome.archive_text {
            Some(t) => !archive_worthy(t@),
            None => true,
        },
    ensures
        checked_spec(old, outcome, now).archive_text == old.archive_text,
        checked_spec(old, outcome, now).archived_at == old.archived_at,
{
}

// ------------------------------------------------------------ thumbnails --

/// Folder, inside the vault's assets, of the cached cover images.
pub const THUMBS_DIR: &'static str = "thumbs";

/// A cover image is fetched only when the page names one and the save is
/// there with no cover yet (a missing save reads as `None`).
pub open spec fn wants_thumbnail(og_image: Option<Seq<char>>, stored: Option<Seq<char>>) -> bool {
    &&& og_image is Some
    &&& stored matches Some(t) && t.len() == 0
}

/// A cover is fetched only into a gap: a save that has one keeps it.
pub proof fn lemma_cover_never_replaced(og_image: Option<Seq<char>>, stored: Seq<char>)
    requires
        stored.len() > 0,
    ensures
        !wants_thumbnail(og_image, Some(stored)),
{
}

pub fn needs_thumbnail(og_image: &Option<String>, stored: &Option<String>) -> (r: bool)
    ensures
        r == wants_thumbnail(opt_view(*og_image), opt_view(*stored)),
{
    match (og_image, stored) {
        (Some(_), Some(t)) => t.as_str().is_empty(),
        _ => false,
    }
}

fn push_digits(out: &mut Vec<char>, n: u64)
    ensures
        final(out)@ == old(out)@ + digits(n as nat),
    decreases n,
{
    if n < 10 {
        out.push(((n as u8) + 48) as char);
        assert(digits(n as nat) =~= seq![digit_char(n as nat)]);
    } else {
        push_digits(out, n / 10);
        out.push((((n % 10) as u8) + 48) as char);
        assert(old(out)@ + digits(n as nat) =~= old(out)@ + digits((n / 10) as nat) + seq![
            digit_char((n % 10) as nat),
        ]);
    }
}

/// Where, inside the assets folder, the cover image of save `id` is kept:
/// `thumbs/<id>.<ext>`.
pub open spec fn thumbnail_path_spec(id: i64, ext: Seq<char>) -> Seq<char> {
    "thumbs/"@ + decimal(id as int) + seq!['.'] + ext
}

pub fn thumbnail_path(id: i64, ext: &str) -> (r: String)
    ensures
        r@ == thumbnail_path_spec(id, ext@),
{
    let mut out = chars_of(THUMBS_DIR);
    out.push('/');
    proof {
        reveal_strlit("thumbs/");
        reveal_strlit("thumbs");
        assert(out@ =~= "thumbs/"@);
    }
    let ghost head = out@;
    if id < 0 {
        out.push('-');
        let m: u64 = (-(id as i128)) as u64;
        push_digits(&mut out, m);
    } else {
        push_digits(&mut out, id as u64);
    }
    assert(out@ =~= head + decimal(id as int));
    out.push('.');
    append_chars(&mut out, &chars_of(ext));
    assert(out@ =~= thumbnail_path_spec(id, ext@));
    string_of(&out)
}

// ---------------------------------------------------------------- import --

/// What importing one bookmark did.
#[derive(Debug, Clone, Copy)]
pub enum ImportOutcome {
    /// A save that did not exist in the vault yet.
    New,
    /// A save whose URL was already in the vault (merged).
    Existing,
    /// No usable http(s) URL.
    Invalid,
}

/// How many of the outcomes are of the kind of `k`.
pub open spec fn count_outcomes(v: Seq<ImportOutcome>, k: ImportOutcome) -> nat
    decreases v.len(),
{
    if v.len() == 0 {
        0
    } else {
        count_outcomes(v.drop_last(), k) + (if same_outcome(v.last(), k) {
            1nat
        } else {
            0
        })
    }
}

pub open spec fn same_outcome(a: ImportOutcome, b: ImportOutcome) -> bool {
    match (a, b) {
        (ImportOutcome::New, ImportOutcome::New) => true,
        (ImportOutcome::Existing, ImportOutcome::Existing) => true,
        (ImportOutcome::Invalid, ImportOutcome::Invalid) => true,
        _ => false,
    }
}

/// Re-importing what is already stored counts nothing as new: when every
/// bookmark is existing or invalid, the report has no new saves and the
/// existing ones are all but the invalid ones.
pub proof fn lemma_rerun_counts_nothing_new(outcomes: Seq<ImportOutcome>)
    requires
        forall|i: int| 0 <= i < outcomes.len() ==> !(#[trigger] outcomes[i] is New),
    ensures
        count_outcomes(outcomes, ImportOutcome::New) == 0,
        count_outcomes(outcomes, ImportOutcome::Existing) + count_outcomes(
            outcomes,
            ImportOutcome::Invalid,
        ) == outcomes.len(),
    decreases outcomes.len(),
{
    if outcomes.len() > 0 {
        let init = outcomes.drop_last();
        assert forall|i: int| 0 <= i < init.len() implies !(#[trigger] init[i] is New) by {
            assert(init[i] == outcomes[i]);
        }
        lemma_rerun_counts_nothing_new(init);
        assert(!(outcomes[outcomes.len() - 1] is New));
    }
}

impl ImportReport {
    /// The report before any bookmark is counted (`total` is the number of
    /// bookmarks, truncated to 32 bits).
    pub fn starting(total: usize) -> (r: ImportReport)
        ensures
            r.total == total as u32,
            r.new == 0 && r.existing == 0 && r.invalid == 0,
    {
        ImportReport { total: total as u32, new: 0, existing: 0, invalid: 0 }
    }

    /// Counts the bookmarks of an import, one outcome each.
    pub fn tally(outcomes: &Vec<ImportOutcome>) -> (r: ImportReport)
        requires
            outcomes.len() <= u32::MAX,
        ensures
            r.total == outcomes.len(),
            r.new == count_outcomes(outcomes@, ImportOutcome::New),
            r.existing == count_outcomes(outcomes@, ImportOutcome::Existing),
            r.invalid == count_outcomes(outcomes@, ImportOutcome::Invalid),
            r.new + r.existing + r.invalid == r.total,
    {
        let mut r = ImportReport::starting(outcomes.len());
        let mut i: usize = 0;
        while i < outcomes.len()
            invariant
                i <= outcomes.len() <= u32::MAX,
                r.total == outcomes.len(),
                r.new == count_outcomes(outcomes@.take(i as int), ImportOutcome::New),
                r.existing == count_outcomes(outcomes@.take(i as int), ImportOutcome::Existing),
                r.invalid == count_outcomes(outcomes@.take(i as int), ImportOutcome::Invalid),
                r.new + r.existing + r.invalid == i,
            decreases outcomes.len() - i,
        {
            assert(outcomes@.take(i + 1).drop_last() =~= outcomes@.take(i as int));
            r.record(outcomes[i]);
            i = i + 1;
        }
        assert(outcomes@.take(outcomes.len() as int) =~= outcomes@);
        r
    }

    /// Counts one bookmark.
    pub fn record(&mut self, outcome: ImportOutcome)
        requires
            old(self).new < u32::MAX && old(self).existing < u32::MAX && old(self).invalid
                < u32::MAX,
        ensures
            final(self).total == old(self).total,
            final(self).new == old(self).new + (if outcome is New {
                1int
            } else {
                0
            }),
            final(self).existing == old(self).existing + (if outcome is Existing {
                1int
            } else {
                0
            }),
            final(self).invalid == old(self).invalid + (if outcome is Invalid {
                1int
            } else {
                0
            }),
    {
        match outcome {
            ImportOutcome::New => {
                self.new = self.new + 1;
            },
            ImportOutcome::Existing => {
                self.existing = self.existing + 1;
            },
            ImportOutcome::Invalid => {
                self.invalid = self.invalid + 1;
            },
        }
    }
}

} // verus!
