//! Readable-text extraction for archive snapshots.
//!
//! Deliberately simple and dependency-free: the goal is *searchable* text,
//! not a pixel-perfect reading mode. Scripts, styles and chrome are
//! stripped, the `<article>`/`<main>` subtree is preferred when present,
//! and the result is plain whitespace-normalized text.
use vstd::prelude::*;

use crate::import::{
    decode_entities, decode_entities_vec, ent_amp, ent_apos, ent_apos0, ent_gt, ent_lt, ent_nbsp,
    ent_quot, replace, replace_from,
};
use crate::text::{
    append_chars, chars_of, find_from, find_from_exec, is_whitespace, is_ws,
    lemma_find_from_bounds, lemma_rfind_before, lower, lower_char, lower_vec, matches_at, rfind,
    rfind_exec, slice_chars, string_of,
};

verus! {

/// Archive text holds at most this many characters.
pub const MAX_ARCHIVE_CHARS: usize = 100_000;

pub open spec fn is_tag_end(c: char) -> bool {
    c == '>' || c == ' ' || c == '\t' || c == '\n' || c == '\r' || c == '/'
}

/// First `open` (such as `<art`) followed by whitespace, `>` or `/`, so that
/// `<art` does not match `<artifact>`.
pub open spec fn find_tag(l: Seq<char>, open: Seq<char>, from: int) -> Option<int>
    decreases l.len() + 1 - from,
{
    if from < 0 || open.len() == 0 {
        None
    } else {
        match find_from(l, open, from) {
            None => None,
            Some(i) => {
                proof {
                    lemma_find_from_bounds(l, open, from);
                }
                if i + open.len() < l.len() {
                    if is_tag_end(l[i + open.len()]) {
                        Some(i)
                    } else {
                        find_tag(l, open, i + open.len())
                    }
                } else {
                    None
                }
            },
        }
    }
}

pub proof fn lemma_find_tag(l: Seq<char>, open: Seq<char>, from: int)
    requires
        0 <= from,
    ensures
        find_tag(l, open, from) matches Some(i) ==> from <= i && i + open.len() < l.len(),
    decreases l.len() + 1 - from,
{
    if open.len() > 0 {
        lemma_find_from_bounds(l, open, from);
        match find_from(l, open, from) {
            None => {},
            Some(i) => {
                if i + open.len() < l.len() && !is_tag_end(l[i + open.len()]) {
                    lemma_find_tag(l, open, i + open.len());
                }
            },
        }
    }
}

fn find_tag_exec(l: &Vec<char>, open: &Vec<char>, from: usize) -> (r: Option<usize>)
    requires
        open.len() > 0,
    ensures
        r matches Some(i) ==> find_tag(l@, open@, from as int) == Some(i as int),
        r is None ==> find_tag(l@, open@, from as int) is None,
{
    let mut pos = from;
    loop
        invariant
            open.len() > 0,
            from <= pos,
            find_tag(l@, open@, from as int) == find_tag(l@, open@, pos as int),
        decreases l.len() + 1 - pos,
    {
        match find_from_exec(l, open, pos) {
            None => {
                return None;
            },
            Some(i) => {
                proof {
                    lemma_find_from_bounds(l@, open@, pos as int);
                }
                if i + open.len() < l.len() {
                    let c = l[i + open.len()];
                    if c == '>' || c == ' ' || c == '\t' || c == '\n' || c == '\r' || c == '/' {
                        return Some(i);
                    }
                    pos = i + open.len();
                } else {
                    return None;
                }
            },
        }
    }
}

/// Every `<tag ...>...</tag>` block removed (case-insensitively), scanning
/// from `pos`; an unclosed block swallows the rest.
pub open spec fn strip_from(h: Seq<char>, open: Seq<char>, close: Seq<char>, pos: int) -> Seq<char>
    decreases h.len() - pos,
{
    let l = lower(h);
    if pos < 0 || pos > h.len() {
        seq![]
    } else {
        match find_tag(l, open, pos) {
            None => h.subrange(pos, h.len() as int),
            Some(i) => {
                proof {
                    lemma_find_tag(l, open, pos);
                    lemma_find_from_bounds(l, close, i);
                }
                h.subrange(pos, i) + match find_from(l, close, i) {
                    Some(after) => {
                        proof {
                            lemma_find_from_bounds(l, seq!['>'], after);
                        }
                        match find_from(l, seq!['>'], after) {
                            Some(gt) => strip_from(h, open, close, gt + 1),
                            None => seq![],
                        }
                    },
                    None => seq![],
                }
            },
        }
    }
}

/// `html` without its `<tag ...>...</tag>` blocks.
pub open spec fn strip_blocks(html: Seq<char>, tag: Seq<char>) -> Seq<char> {
    strip_from(html, seq!['<'] + tag, seq!['<', '/'] + tag, 0)
}

/// `html` without scripts, styles and other blocks that are never prose.
pub open spec fn strip_noise(html: Seq<char>) -> Seq<char> {
    let s1 = strip_blocks(html, "script"@);
    let s2 = strip_blocks(s1, "style"@);
    let s3 = strip_blocks(s2, "noscript"@);
    let s4 = strip_blocks(s3, "svg"@);
    let s5 = strip_blocks(s4, "template"@);
    strip_blocks(s5, "head"@)
}

fn strip_blocks_exec(html: &Vec<char>, tag: &str) -> (r: Vec<char>)
    ensures
        r@ == strip_blocks(html@, tag@),
{
    let t = chars_of(tag);
    let l = lower_vec(html);
    let mut open = vec!['<'];
    append_chars(&mut open, &t);
    let mut close = vec!['<', '/'];
    append_chars(&mut close, &t);
    assert(open@ =~= seq!['<'] + tag@);
    assert(close@ =~= seq!['<', '/'] + tag@);
    let gt = vec!['>'];
    assert(gt@ == seq!['>']);
    let mut out: Vec<char> = Vec::new();
    let mut pos: usize = 0;
    assert(out@ + strip_from(html@, open@, close@, 0) =~= strip_blocks(html@, tag@));
    loop
        invariant
            l@ == lower(html@),
            l.len() == html.len(),
            pos <= html.len(),
            open@ == seq!['<'] + tag@,
            close@ == seq!['<', '/'] + tag@,
            gt@ == seq!['>'],
            out@ + strip_from(html@, open@, close@, pos as int) == strip_blocks(html@, tag@),
        decreases html.len() - pos,
    {
        let ghost before = out@;
        proof {
            lemma_find_tag(l@, open@, pos as int);
        }
        match find_tag_exec(&l, &open, pos) {
            None => {
                append_chars(&mut out, &slice_chars(html, pos, html.len()));
                return out;
            },
            Some(i) => {
                proof {
                    lemma_find_from_bounds(l@, close@, i as int);
                }
                append_chars(&mut out, &slice_chars(html, pos, i));
                match find_from_exec(&l, &close, i) {
                    Some(after) => {
                        proof {
                            lemma_find_from_bounds(l@, gt@, after as int);
                        }
                        match find_from_exec(&l, &gt, after) {
                            Some(g) => {
                                assert(before + (html@.subrange(pos as int, i as int) + strip_from(
                                    html@,
                                    open@,
                                    close@,
                                    g + 1,
                                )) =~= out@ + strip_from(html@, open@, close@, g + 1));
                                pos = g + 1;
                            },
                            None => {
                                assert(out@ =~= before + (html@.subrange(pos as int, i as int)
                                    + seq![]));
                                return out;
                            },
                        }
                    },
                    None => {
                        assert(out@ =~= before + (html@.subrange(pos as int, i as int) + seq![]));
                        return out;
                    },
                }
            },
        }
    }
}

/// Inner HTML of the first `<tag ...>...</tag>` occurrence, up to the last
/// closing tag so nested same-name elements stay included.
pub open spec fn subtree(h: Seq<char>, tag: Seq<char>) -> Option<Seq<char>> {
    let l = lower(h);
    match find_tag(l, seq!['<'] + tag, 0) {
        None => None,
        Some(start) => match find_from(l, seq!['>'], start) {
            None => None,
            Some(oe) => match rfind(l, seq!['<', '/'] + tag) {
                None => None,
                Some(close) => if close <= oe {
                    None
                } else {
                    Some(h.subrange(oe + 1, close))
                },
            },
        },
    }
}

fn subtree_exec(h: &Vec<char>, tag: &str) -> (r: Option<Vec<char>>)
    ensures
        r matches Some(v) ==> subtree(h@, tag@) == Some(v@),
        r is None ==> subtree(h@, tag@) is None,
{
    let t = chars_of(tag);
    let l = lower_vec(h);
    let mut open = vec!['<'];
    append_chars(&mut open, &t);
    let mut close = vec!['<', '/'];
    append_chars(&mut close, &t);
    assert(open@ =~= seq!['<'] + tag@);
    assert(close@ =~= seq!['<', '/'] + tag@);
    let gt = vec!['>'];
    assert(gt@ == seq!['>']);
    let start = match find_tag_exec(&l, &open, 0) {
        None => {
            return None;
        },
        Some(s) => s,
    };
    let oe = match find_from_exec(&l, &gt, start) {
        None => {
            return None;
        },
        Some(o) => o,
    };
    proof {
        lemma_find_tag(l@, open@, 0);
        lemma_find_from_bounds(l@, gt@, start as int);
        lemma_rfind_before(l@, close@, l@.len() + 1int);
    }
    match rfind_exec(&l, &close) {
        None => None,
        Some(c) => {
            if c <= oe {
                None
            } else {
                Some(slice_chars(h, oe + 1, c))
            }
        },
    }
}

/// The part of the page that holds its prose: `<article>`, else `<main>`,
/// else `<body>`, else everything.
pub open spec fn content_scope(h: Seq<char>) -> Seq<char> {
    match subtree(h, "article"@) {
        Some(s) => s,
        None => match subtree(h, "main"@) {
            Some(s) => s,
            None => match subtree(h, "body"@) {
                Some(s) => s,
                None => h,
            },
        },
    }
}

/// Whether position `n` of `s` lies inside a tag, for the tag stripper.
pub open spec fn in_tag_after(s: Seq<char>, n: int) -> bool
    decreases n,
{
    if n <= 0 {
        false
    } else if s[n - 1] == '<' {
        true
    } else if s[n - 1] == '>' {
        false
    } else {
        in_tag_after(s, n - 1)
    }
}

/// The first `n` characters with every tag replaced by a space.
pub open spec fn strip_tags_prefix(s: Seq<char>, n: int) -> Seq<char>
    decreases n,
{
    if n <= 0 {
        seq![]
    } else {
        let prev = strip_tags_prefix(s, n - 1);
        let c = s[n - 1];
        if c == '<' {
            prev.push(' ')
        } else if c == '>' {
            prev
        } else if !in_tag_after(s, n - 1) {
            prev.push(c)
        } else {
            prev
        }
    }
}

/// Every tag replaced with a space (block boundaries become word breaks).
pub open spec fn strip_tags(s: Seq<char>) -> Seq<char> {
    strip_tags_prefix(s, s.len() as int)
}

fn strip_tags_exec(s: &Vec<char>) -> (r: Vec<char>)
    ensures
        r@ == strip_tags(s@),
{
    let mut out: Vec<char> = Vec::new();
    let mut in_tag = false;
    let mut i: usize = 0;
    while i < s.len()
        invariant
            i <= s.len(),
            out@ == strip_tags_prefix(s@, i as int),
            in_tag == in_tag_after(s@, i as int),
        decreases s.len() - i,
    {
        let c = s[i];
        if c == '<' {
            in_tag = true;
            out.push(' ');
        } else if c == '>' {
            in_tag = false;
        } else if !in_tag {
            out.push(c);
        }
        i = i + 1;
    }
    out
}

/// Text whose whitespace is normalized: no leading or trailing whitespace,
/// and every whitespace character is a single space between two others.
pub open spec fn whitespace_normalized(t: Seq<char>) -> bool {
    forall|i: int|
        0 <= i < t.len() && is_ws(#[trigger] t[i]) ==> t[i] == ' ' && 0 < i < t.len() - 1
            && !is_ws(t[i - 1]) && !is_ws(t[i + 1])
}

/// `s` has no character `c`.
pub open spec fn lacks(s: Seq<char>, c: char) -> bool {
    forall|i: int| 0 <= i < s.len() ==> #[trigger] s[i] != c
}

/// The words of `s` (maximal runs of non-whitespace, as
/// `str::split_whitespace` finds them) joined by single spaces, after the
/// first `n` characters, with whether a word is open.
pub open spec fn words_joined(s: Seq<char>, n: int) -> (Seq<char>, bool)
    decreases n,
{
    if n <= 0 {
        (seq![], false)
    } else {
        let (out, in_word) = words_joined(s, n - 1);
        let c = s[n - 1];
        if is_ws(c) {
            (out, false)
        } else if in_word {
            (out.push(c), true)
        } else if out.len() > 0 {
            (out.push(' ').push(c), true)
        } else {
            (out.push(c), true)
        }
    }
}

/// All words of `s` joined by single spaces.
pub open spec fn all_words(s: Seq<char>) -> Seq<char> {
    words_joined(s, s.len() as int).0
}

proof fn lemma_lower_lacks(h: Seq<char>, c: char)
    requires
        lacks(h, c),
        !('a' <= c && c <= 'z'),
    ensures
        lacks(lower(h), c),
{
    assert forall|i: int| 0 <= i < lower(h).len() implies #[trigger] lower(h)[i] != c by {
        assert(lower(h)[i] == lower_char(h[i]));
        if 'A' <= h[i] && h[i] <= 'Z' {
            assert('a' <= lower_char(h[i]) && lower_char(h[i]) <= 'z');
        }
    }
}

proof fn lemma_find_from_lacking(l: Seq<char>, pat: Seq<char>, from: int)
    requires
        0 <= from,
        pat.len() > 0,
        lacks(l, pat[0]),
    ensures
        find_from(l, pat, from) is None,
{
    lemma_find_from_bounds(l, pat, from);
    match find_from(l, pat, from) {
        Some(i) => {
            assert(l.subrange(i, i + pat.len())[0] == l[i]);
        },
        None => {},
    }
}

proof fn lemma_no_tags_untouched(h: Seq<char>)
    requires
        lacks(h, '<'),
    ensures
        strip_noise(h) == h,
        content_scope(h) == h,
{
    let l = lower(h);
    lemma_lower_lacks(h, '<');
    assert forall|t: Seq<char>| #[trigger] strip_blocks(h, t) == h by {
        let open = seq!['<'] + t;
        assert(open[0] == '<');
        lemma_find_from_lacking(l, open, 0);
        assert(find_tag(l, open, 0) is None);
        assert(h.subrange(0, h.len() as int) =~= h);
    }
    assert forall|t: Seq<char>| #[trigger] subtree(h, t) is None by {
        let open = seq!['<'] + t;
        assert(open[0] == '<');
        lemma_find_from_lacking(l, open, 0);
        assert(find_tag(l, open, 0) is None);
    }
}

proof fn lemma_strip_tags_plain(s: Seq<char>, n: int)
    requires
        0 <= n <= s.len(),
        lacks(s, '<'),
        lacks(s, '>'),
    ensures
        strip_tags_prefix(s, n) == s.take(n),
        !in_tag_after(s, n),
    decreases n,
{
    if n > 0 {
        lemma_strip_tags_plain(s, n - 1);
        assert(s.take(n) =~= s.take(n - 1).push(s[n - 1]));
    }
}

proof fn lemma_replace_lacking(s: Seq<char>, pat: Seq<char>, rep: Seq<char>, i: int)
    requires
        0 <= i,
        pat.len() > 0,
        lacks(s, pat[0]),
    ensures
        replace_from(s, pat, rep, i) == (if i < s.len() { s.subrange(i, s.len() as int) } else { seq![] }),
    decreases s.len() - i,
{
    if i < s.len() {
        lemma_replace_lacking(s, pat, rep, i + 1);
        if matches_at(s, pat, i) {
            assert(s.subrange(i, i + pat.len())[0] == s[i]);
        }
        assert(seq![s[i]] + (if i + 1 < s.len() { s.subrange(i + 1, s.len() as int) } else { seq![] })
            =~= s.subrange(i, s.len() as int));
    }
}

proof fn lemma_no_entities_untouched(s: Seq<char>)
    requires
        lacks(s, '&'),
    ensures
        decode_entities(s) == s,
{
    assert forall|pat: Seq<char>, rep: Seq<char>| pat.len() > 0 && pat[0] == '&' implies #[trigger] replace(
        s,
        pat,
        rep,
    ) == s by {
        lemma_replace_lacking(s, pat, rep, 0);
        if s.len() > 0 {
            assert(s.subrange(0, s.len() as int) =~= s);
        }
    }
    assert(ent_lt()[0] == '&' && ent_gt()[0] == '&' && ent_quot()[0] == '&' && ent_apos()[0] == '&'
        && ent_apos0()[0] == '&' && ent_nbsp()[0] == '&' && ent_amp()[0] == '&');
    assert(replace(s, ent_lt(), seq!['<']) == s);
}

/// A closed block `<t>x</t>`.
pub open spec fn block(t: Seq<char>, x: Seq<char>) -> Seq<char> {
    seq!['<'] + t + seq!['>'] + x + seq!['<', '/'] + t + seq!['>']
}

/// A tag name of lowercase ASCII letters.
pub open spec fn tag_name(t: Seq<char>) -> bool {
    t.len() > 0 && forall|i: int| 0 <= i < t.len() ==> 'a' <= #[trigger] t[i] && t[i] <= 'z'
}

proof fn lemma_find_from_first(l: Seq<char>, pat: Seq<char>, i: int, p: int)
    requires
        0 <= i <= p,
        matches_at(l, pat, p),
        forall|j: int| i <= j < p ==> !#[trigger] matches_at(l, pat, j),
    ensures
        find_from(l, pat, i) == Some(p),
    decreases p - i,
{
    if i < p {
        lemma_find_from_first(l, pat, i + 1, p);
    }
}

proof fn lemma_find_from_none(l: Seq<char>, pat: Seq<char>, i: int)
    requires
        0 <= i,
        forall|j: int| i <= j ==> !#[trigger] matches_at(l, pat, j),
    ensures
        find_from(l, pat, i) is None,
    decreases l.len() + 1 - i,
{
    if i + pat.len() <= l.len() {
        lemma_find_from_none(l, pat, i + 1);
    }
}

proof fn lemma_lower_char_keeps(c: char)
    ensures
        lower_char(c) == '<' <==> c == '<',
        lower_char(c) == '>' <==> c == '>',
        ('a' <= c && c <= 'z') || c == '/' ==> lower_char(c) == c,
{
}

/// Where the block's markup sits in `lower(a + block(t, x) + b)`.
proof fn lemma_block_layout(a: Seq<char>, t: Seq<char>, x: Seq<char>, b: Seq<char>)
    requires
        lacks(a, '<'),
        lacks(x, '<'),
        lacks(b, '<'),
        tag_name(t),
    ensures
        ({
            let s = a + block(t, x) + b;
            let l = lower(s);
            let n = a.len() as int;
            let p = n + t.len() + 2 + x.len();
            let end = p + 2 + t.len();
            &&& l.len() == s.len() == end + 1 + b.len()
            &&& l[n] == '<' && l[n + 1 + t.len()] == '>'
            &&& forall|i: int| 0 <= i < t.len() ==> l[n + 1 + i] == t[i] && l[p + 2 + i] == t[i]
            &&& l[p] == '<' && l[p + 1] == '/' && l[end] == '>'
            &&& forall|j: int| 0 <= j < l.len() && j != n && j != p ==> #[trigger] l[j] != '<'
            &&& forall|j: int| p <= j < end ==> #[trigger] l[j] != '>'
            &&& s.subrange(0, n) == a
            &&& s.subrange(end + 1, s.len() as int) == b
        }),
{
    let s = a + block(t, x) + b;
    let l = lower(s);
    let n = a.len() as int;
    let p = n + t.len() + 2 + x.len();
    let end = p + 2 + t.len();
    assert forall|j: int| 0 <= j < l.len() implies #[trigger] l[j] == lower_char(s[j]) by {}
    assert forall|j: int| 0 <= j < l.len() && j != n && j != p implies #[trigger] l[j] != '<' by {
        lemma_lower_char_keeps(s[j]);
        if j < n {
            assert(s[j] == a[j]);
        } else if j <= n + t.len() {
            assert(s[j] == t[j - n - 1]);
        } else if j == n + t.len() + 1 {
            assert(s[j] == '>');
        } else if j < p {
            assert(s[j] == x[j - n - t.len() - 2]);
        } else if j == p + 1 {
            assert(s[j] == '/');
        } else if j < end {
            assert(s[j] == t[j - p - 2]);
        } else if j == end {
            assert(s[j] == '>');
        } else {
            assert(s[j] == b[j - end - 1]);
        }
    }
    assert forall|j: int| p <= j < end implies #[trigger] l[j] != '>' by {
        lemma_lower_char_keeps(s[j]);
        if j >= p + 2 {
            assert(s[j] == t[j - p - 2]);
        }
    }
    assert forall|i: int| 0 <= i < t.len() implies l[n + 1 + i] == t[i] && l[p + 2 + i] == t[i] by {
        lemma_lower_char_keeps(t[i]);
        assert(s[n + 1 + i] == t[i]);
        assert(s[p + 2 + i] == t[i]);
    }
    lemma_lower_char_keeps(s[n]);
    lemma_lower_char_keeps(s[p]);
    lemma_lower_char_keeps(s[p + 1]);
    lemma_lower_char_keeps(s[end]);
    lemma_lower_char_keeps(s[n + 1 + t.len()]);
    assert(s[n] == '<' && s[p] == '<' && s[p + 1] == '/' && s[end] == '>' && s[n + 1 + t.len()] == '>');
    assert(s.subrange(0, n) =~= a);
    assert(s.subrange(end + 1, s.len() as int) =~= b);
}

/// Stripping `t` blocks removes a closed `<t>x</t>` block and nothing else.
proof fn lemma_strip_own_block(a: Seq<char>, t: Seq<char>, x: Seq<char>, b: Seq<char>)
    requires
        lacks(a, '<'),
        lacks(x, '<'),
        lacks(b, '<'),
        tag_name(t),
    ensures
        strip_blocks(a + block(t, x) + b, t) == a + b,
{
    let s = a + block(t, x) + b;
    let l = lower(s);
    lemma_block_layout(a, t, x, b);
    let n = a.len() as int;
    let p = n + t.len() + 2 + x.len();
    let end = p + 2 + t.len();
    let open = seq!['<'] + t;
    let close = seq!['<', '/'] + t;
    // the block opens at n
    assert(l.subrange(n, n + open.len()) =~= open);
    assert forall|j: int| 0 <= j < n implies !#[trigger] matches_at(l, open, j) by {
        if matches_at(l, open, j) {
            assert(l.subrange(j, j + open.len())[0] == l[j]);
        }
    }
    lemma_find_from_first(l, open, 0, n);
    assert(is_tag_end(l[n + open.len()]));
    assert(find_tag(l, open, 0) == Some(n));
    // it closes at p
    assert(l.subrange(p, p + close.len()) =~= close);
    assert forall|j: int| n <= j < p implies !#[trigger] matches_at(l, close, j) by {
        if matches_at(l, close, j) {
            assert(l.subrange(j, j + close.len())[0] == l[j]);
            assert(l.subrange(j, j + close.len())[1] == l[j + 1]);
            assert(l[n + 1] == t[0]);
        }
    }
    lemma_find_from_first(l, close, n, p);
    assert(l.subrange(end, end + 1) =~= seq!['>']);
    assert forall|j: int| p <= j < end implies !#[trigger] matches_at(l, seq!['>'], j) by {
        if matches_at(l, seq!['>'], j) {
            assert(l.subrange(j, j + 1)[0] == l[j]);
        }
    }
    lemma_find_from_first(l, seq!['>'], p, end);
    // nothing opens after the block
    assert forall|j: int| end + 1 <= j implies !#[trigger] matches_at(l, open, j) by {
        if matches_at(l, open, j) {
            assert(l.subrange(j, j + open.len())[0] == l[j]);
        }
    }
    lemma_find_from_none(l, open, end + 1);
    assert(find_tag(l, open, end + 1) is None);
    assert(strip_from(s, open, close, end + 1) == s.subrange(end + 1, s.len() as int));
    assert(strip_from(s, open, close, 0) == s.subrange(0, n) + strip_from(s, open, close, end + 1));
}

/// Stripping blocks of another tag `u` leaves the text as it is.
proof fn lemma_strip_other_block(a: Seq<char>, t: Seq<char>, x: Seq<char>, b: Seq<char>, u: Seq<char>, k: int)
    requires
        lacks(a, '<'),
        lacks(x, '<'),
        lacks(b, '<'),
        tag_name(t),
        tag_name(u),
        0 <= k < t.len(),
        k < u.len(),
        u[k] != t[k],
    ensures
        strip_blocks(a + block(t, x) + b, u) == a + block(t, x) + b,
{
    let s = a + block(t, x) + b;
    let l = lower(s);
    lemma_block_layout(a, t, x, b);
    let n = a.len() as int;
    let p = n + t.len() + 2 + x.len();
    let open = seq!['<'] + u;
    assert forall|j: int| 0 <= j implies !#[trigger] matches_at(l, open, j) by {
        if matches_at(l, open, j) {
            assert(l.subrange(j, j + open.len())[0] == l[j]);
            assert(l.subrange(j, j + open.len())[1] == l[j + 1]);
            assert(l.subrange(j, j + open.len())[k + 1] == l[j + k + 1]);
            assert(open[1] == u[0] && open[k + 1] == u[k]);
        }
    }
    lemma_find_from_none(l, open, 0);
    assert(find_tag(l, open, 0) is None);
    assert(s.subrange(0, s.len() as int) =~= s);
}

/// Stripping any tag's blocks leaves markup-free text as it is.
proof fn lemma_strip_plain(h: Seq<char>, u: Seq<char>)
    requires
        lacks(h, '<'),
    ensures
        strip_blocks(h, u) == h,
{
    let l = lower(h);
    lemma_lower_lacks(h, '<');
    let open = seq!['<'] + u;
    assert(open[0] == '<');
    lemma_find_from_lacking(l, open, 0);
    assert(find_tag(l, open, 0) is None);
    assert(h.subrange(0, h.len() as int) =~= h);
}

#[verifier::spinoff_prover]
proof fn lemma_noise_block_script(a: Seq<char>, x: Seq<char>, b: Seq<char>)
    requires
        lacks(a, '<'),
        lacks(x, '<'),
        lacks(b, '<'),
    ensures
        strip_noise(a + block(seq!['s', 'c', 'r', 'i', 'p', 't'], x) + b) == a + b,
{
    let t = seq!['s', 'c', 'r', 'i', 'p', 't'];
    let s0 = a + block(t, x) + b;
    reveal_strlit("script");
    assert("script"@ == seq!['s', 'c', 'r', 'i', 'p', 't']);
    lemma_strip_own_block(a, t, x, b);
    let s1 = a + b;
    assert(lacks(a + b, '<')) by {
        assert forall|j: int| 0 <= j < (a + b).len() implies #[trigger] (a + b)[j] != '<' by {
            if j < a.len() {
                assert((a + b)[j] == a[j]);
            } else {
                assert((a + b)[j] == b[j - a.len()]);
            }
        }
    }
    assert(strip_blocks(s0, "script"@) == s1);
    reveal_strlit("style");
    assert("style"@ == seq!['s', 't', 'y', 'l', 'e']);
    lemma_strip_plain(s1, seq!['s', 't', 'y', 'l', 'e']);
    let s2 = s1;
    assert(strip_blocks(s1, "style"@) == s2);
    reveal_strlit("noscript");
    assert("noscript"@ == seq!['n', 'o', 's', 'c', 'r', 'i', 'p', 't']);
    lemma_strip_plain(s2, seq!['n', 'o', 's', 'c', 'r', 'i', 'p', 't']);
    let s3 = s2;
    assert(strip_blocks(s2, "noscript"@) == s3);
    reveal_strlit("svg");
    assert("svg"@ == seq!['s', 'v', 'g']);
    lemma_strip_plain(s3, seq!['s', 'v', 'g']);
    let s4 = s3;
    assert(strip_blocks(s3, "svg"@) == s4);
    reveal_strlit("template");
    assert("template"@ == seq!['t', 'e', 'm', 'p', 'l', 'a', 't', 'e']);
    lemma_strip_plain(s4, seq!['t', 'e', 'm', 'p', 'l', 'a', 't', 'e']);
    let s5 = s4;
    assert(strip_blocks(s4, "template"@) == s5);
    reveal_strlit("head");
    assert("head"@ == seq!['h', 'e', 'a', 'd']);
    lemma_strip_plain(s5, seq!['h', 'e', 'a', 'd']);
    let s6 = s5;
    assert(strip_blocks(s5, "head"@) == s6);
}

#[verifier::spinoff_prover]
proof fn lemma_noise_block_style(a: Seq<char>, x: Seq<char>, b: Seq<char>)
    requires
        lacks(a, '<'),
        lacks(x, '<'),
        lacks(b, '<'),
    ensures
        strip_noise(a + block(seq!['s', 't', 'y', 'l', 'e'], x) + b) == a + b,
{
    let t = seq!['s', 't', 'y', 'l', 'e'];
    let s0 = a + block(t, x) + b;
    reveal_strlit("script");
    assert("script"@ == seq!['s', 'c', 'r', 'i', 'p', 't']);
    lemma_strip_other_block(a, t, x, b, seq!['s', 'c', 'r', 'i', 'p', 't'], 1);
    let s1 = s0;
    assert(strip_blocks(s0, "script"@) == s1);
    reveal_strlit("style");
    assert("style"@ == seq!['s', 't', 'y', 'l', 'e']);
    lemma_strip_own_block(a, t, x, b);
    let s2 = a + b;
    assert(lacks(a + b, '<')) by {
        assert forall|j: int| 0 <= j < (a + b).len() implies #[trigger] (a + b)[j] != '<' by {
            if j < a.len() {
                assert((a + b)[j] == a[j]);
            } else {
                assert((a + b)[j] == b[j - a.len()]);
            }
        }
    }
    assert(strip_blocks(s1, "style"@) == s2);
    reveal_strlit("noscript");
    assert("noscript"@ == seq!['n', 'o', 's', 'c', 'r', 'i', 'p', 't']);
    lemma_strip_plain(s2, seq!['n', 'o', 's', 'c', 'r', 'i', 'p', 't']);
    let s3 = s2;
    assert(strip_blocks(s2, "noscript"@) == s3);
    reveal_strlit("svg");
    assert("svg"@ == seq!['s', 'v', 'g']);
    lemma_strip_plain(s3, seq!['s', 'v', 'g']);
    let s4 = s3;
    assert(strip_blocks(s3, "svg"@) == s4);
    reveal_strlit("template");
    assert("template"@ == seq!['t', 'e', 'm', 'p', 'l', 'a', 't', 'e']);
    lemma_strip_plain(s4, seq!['t', 'e', 'm', 'p', 'l', 'a', 't', 'e']);
    let s5 = s4;
    assert(strip_blocks(s4, "template"@) == s5);
    reveal_strlit("head");
    assert("head"@ == seq!['h', 'e', 'a', 'd']);
    lemma_strip_plain(s5, seq!['h', 'e', 'a', 'd']);
    let s6 = s5;
    assert(strip_blocks(s5, "head"@) == s6);
}

#[verifier::spinoff_prover]
proof fn lemma_noise_block_noscript(a: Seq<char>, x: Seq<char>, b: Seq<char>)
    requires
        lacks(a, '<'),
        lacks(x, '<'),
        lacks(b, '<'),
    ensures
        strip_noise(a + block(seq!['n', 'o', 's', 'c', 'r', 'i', 'p', 't'], x) + b) == a + b,
{
    let t = seq!['n', 'o', 's', 'c', 'r', 'i', 'p', 't'];
    let s0 = a + block(t, x) + b;
    reveal_strlit("script");
    assert("script"@ == seq!['s', 'c', 'r', 'i', 'p', 't']);
    lemma_strip_other_block(a, t, x, b, seq!['s', 'c', 'r', 'i', 'p', 't'], 0);
    let s1 = s0;
    assert(strip_blocks(s0, "script"@) == s1);
    reveal_strlit("style");
    assert("style"@ == seq!['s', 't', 'y', 'l', 'e']);
    lemma_strip_other_block(a, t, x, b, seq!['s', 't', 'y', 'l', 'e'], 0);
    let s2 = s1;
    assert(strip_blocks(s1, "style"@) == s2);
    reveal_strlit("noscript");
    assert("noscript"@ == seq!['n', 'o', 's', 'c', 'r', 'i', 'p', 't']);
    lemma_strip_own_block(a, t, x, b);
    let s3 = a + b;
    assert(lacks(a + b, '<')) by {
        assert forall|j: int| 0 <= j < (a + b).len() implies #[trigger] (a + b)[j] != '<' by {
            if j < a.len() {
                assert((a + b)[j] == a[j]);
            } else {
                assert((a + b)[j] == b[j - a.len()]);
            }
        }
    }
    assert(strip_blocks(s2, "noscript"@) == s3);
    reveal_strlit("svg");
    assert("svg"@ == seq!['s', 'v', 'g']);
    lemma_strip_plain(s3, seq!['s', 'v', 'g']);
    let s4 = s3;
    assert(strip_blocks(s3, "svg"@) == s4);
    reveal_strlit("template");
    assert("template"@ == seq!['t', 'e', 'm', 'p', 'l', 'a', 't', 'e']);
    lemma_strip_plain(s4, seq!['t', 'e', 'm', 'p', 'l', 'a', 't', 'e']);
    let s5 = s4;
    assert(strip_blocks(s4, "template"@) == s5);
    reveal_strlit("head");
    assert("head"@ == seq!['h', 'e', 'a', 'd']);
    lemma_strip_plain(s5, seq!['h', 'e', 'a', 'd']);
    let s6 = s5;
    assert(strip_blocks(s5, "head"@) == s6);
}

#[verifier::spinoff_prover]
proof fn lemma_noise_block_svg(a: Seq<char>, x: Seq<char>, b: Seq<char>)
    requires
        lacks(a, '<'),
        lacks(x, '<'),
        lacks(b, '<'),
    ensures
        strip_noise(a + block(seq!['s', 'v', 'g'], x) + b) == a + b,
{
    let t = seq!['s', 'v', 'g'];
    let s0 = a + block(t, x) + b;
    reveal_strlit("script");
    assert("script"@ == seq!['s', 'c', 'r', 'i', 'p', 't']);
    lemma_strip_other_block(a, t, x, b, seq!['s', 'c', 'r', 'i', 'p', 't'], 1);
    let s1 = s0;
    assert(strip_blocks(s0, "script"@) == s1);
    reveal_strlit("style");
    assert("style"@ == seq!['s', 't', 'y', 'l', 'e']);
    lemma_strip_other_block(a, t, x, b, seq!['s', 't', 'y', 'l', 'e'], 1);
    let s2 = s1;
    assert(strip_blocks(s1, "style"@) == s2);
    reveal_strlit("noscript");
    assert("noscript"@ == seq!['n', 'o', 's', 'c', 'r', 'i', 'p', 't']);
    lemma_strip_other_block(a, t, x, b, seq!['n', 'o', 's', 'c', 'r', 'i', 'p', 't'], 0);
    let s3 = s2;
    assert(strip_blocks(s2, "noscript"@) == s3);
    reveal_strlit("svg");
    assert("svg"@ == seq!['s', 'v', 'g']);
    lemma_strip_own_block(a, t, x, b);
    let s4 = a + b;
    assert(lacks(a + b, '<')) by {
        assert forall|j: int| 0 <= j < (a + b).len() implies #[trigger] (a + b)[j] != '<' by {
            if j < a.len() {
                assert((a + b)[j] == a[j]);
            } else {
                assert((a + b)[j] == b[j - a.len()]);
            }
        }
    }
    assert(strip_blocks(s3, "svg"@) == s4);
    reveal_strlit("template");
    assert("template"@ == seq!['t', 'e', 'm', 'p', 'l', 'a', 't', 'e']);
    lemma_strip_plain(s4, seq!['t', 'e', 'm', 'p', 'l', 'a', 't', 'e']);
    let s5 = s4;
    assert(strip_blocks(s4, "template"@) == s5);
    reveal_strlit("head");
    assert("head"@ == seq!['h', 'e', 'a', 'd']);
    lemma_strip_plain(s5, seq!['h', 'e', 'a', 'd']);
    let s6 = s5;
    assert(strip_blocks(s5, "head"@) == s6);
}

#[verifier::spinoff_prover]
proof fn lemma_noise_block_template(a: Seq<char>, x: Seq<char>, b: Seq<char>)
    requires
        lacks(a, '<'),
        lacks(x, '<'),
        lacks(b, '<'),
    ensures
        strip_noise(a + block(seq!['t', 'e', 'm', 'p', 'l', 'a', 't', 'e'], x) + b) == a + b,
{
    let t = seq!['t', 'e', 'm', 'p', 'l', 'a', 't', 'e'];
    let s0 = a + block(t, x) + b;
    reveal_strlit("script");
    assert("script"@ == seq!['s', 'c', 'r', 'i', 'p', 't']);
    lemma_strip_other_block(a, t, x, b, seq!['s', 'c', 'r', 'i', 'p', 't'], 0);
    let s1 = s0;
    assert(strip_blocks(s0, "script"@) == s1);
    reveal_strlit("style");
    assert("style"@ == seq!['s', 't', 'y', 'l', 'e']);
    lemma_strip_other_block(a, t, x, b, seq!['s', 't', 'y', 'l', 'e'], 0);
    let s2 = s1;
    assert(strip_blocks(s1, "style"@) == s2);
    reveal_strlit("noscript");
    assert("noscript"@ == seq!['n', 'o', 's', 'c', 'r', 'i', 'p', 't']);
    lemma_strip_other_block(a, t, x, b, seq!['n', 'o', 's', 'c', 'r', 'i', 'p', 't'], 0);
    let s3 = s2;
    assert(strip_blocks(s2, "noscript"@) == s3);
    reveal_strlit("svg");
    assert("svg"@ == seq!['s', 'v', 'g']);
    lemma_strip_other_block(a, t, x, b, seq!['s', 'v', 'g'], 0);
    let s4 = s3;
    assert(strip_blocks(s3, "svg"@) == s4);
    reveal_strlit("template");
    assert("template"@ == seq!['t', 'e', 'm', 'p', 'l', 'a', 't', 'e']);
    lemma_strip_own_block(a, t, x, b);
    let s5 = a + b;
    assert(lacks(a + b, '<')) by {
        assert forall|j: int| 0 <= j < (a + b).len() implies #[trigger] (a + b)[j] != '<' by {
            if j < a.len() {
                assert((a + b)[j] == a[j]);
            } else {
                assert((a + b)[j] == b[j - a.len()]);
            }
        }
    }
    assert(strip_blocks(s4, "template"@) == s5);
    reveal_strlit("head");
    assert("head"@ == seq!['h', 'e', 'a', 'd']);
    lemma_strip_plain(s5, seq!['h', 'e', 'a', 'd']);
    let s6 = s5;
    assert(strip_blocks(s5, "head"@) == s6);
}

#[verifier::spinoff_prover]
proof fn lemma_noise_block_head(a: Seq<char>, x: Seq<char>, b: Seq<char>)
    requires
        lacks(a, '<'),
        lacks(x, '<'),
        lacks(b, '<'),
    ensures
        strip_noise(a + block(seq!['h', 'e', 'a', 'd'], x) + b) == a + b,
{
    let t = seq!['h', 'e', 'a', 'd'];
    let s0 = a + block(t, x) + b;
    reveal_strlit("script");
    assert("script"@ == seq!['s', 'c', 'r', 'i', 'p', 't']);
    lemma_strip_other_block(a, t, x, b, seq!['s', 'c', 'r', 'i', 'p', 't'], 0);
    let s1 = s0;
    assert(strip_blocks(s0, "script"@) == s1);
    reveal_strlit("style");
    assert("style"@ == seq!['s', 't', 'y', 'l', 'e']);
    lemma_strip_other_block(a, t, x, b, seq!['s', 't', 'y', 'l', 'e'], 0);
    let s2 = s1;
    assert(strip_blocks(s1, "style"@) == s2);
    reveal_strlit("noscript");
    assert("noscript"@ == seq!['n', 'o', 's', 'c', 'r', 'i', 'p', 't']);
    lemma_strip_other_block(a, t, x, b, seq!['n', 'o', 's', 'c', 'r', 'i', 'p', 't'], 0);
    let s3 = s2;
    assert(strip_blocks(s2, "noscript"@) == s3);
    reveal_strlit("svg");
    assert("svg"@ == seq!['s', 'v', 'g']);
    lemma_strip_other_block(a, t, x, b, seq!['s', 'v', 'g'], 0);
    let s4 = s3;
    assert(strip_blocks(s3, "svg"@) == s4);
    reveal_strlit("template");
    assert("template"@ == seq!['t', 'e', 'm', 'p', 'l', 'a', 't', 'e']);
    lemma_strip_other_block(a, t, x, b, seq!['t', 'e', 'm', 'p', 'l', 'a', 't', 'e'], 0);
    let s5 = s4;
    assert(strip_blocks(s4, "template"@) == s5);
    reveal_strlit("head");
    assert("head"@ == seq!['h', 'e', 'a', 'd']);
    lemma_strip_own_block(a, t, x, b);
    let s6 = a + b;
    assert(lacks(a + b, '<')) by {
        assert forall|j: int| 0 <= j < (a + b).len() implies #[trigger] (a + b)[j] != '<' by {
            if j < a.len() {
                assert((a + b)[j] == a[j]);
            } else {
                assert((a + b)[j] == b[j - a.len()]);
            }
        }
    }
    assert(strip_blocks(s5, "head"@) == s6);
}

/// The text of a closed noise block never reaches the archive: for each of
/// `script`, `style`, `noscript`, `svg`, `template` and `head`, a page with a
/// `<t>x</t>` block between markup-free `a` and `b` archives as `a` and `b`
/// alone would.
pub proof fn lemma_noise_blocks_dropped(a: Seq<char>, x: Seq<char>, b: Seq<char>)
    requires
        lacks(a, '<'),
        lacks(x, '<'),
        lacks(b, '<'),
    ensures
        readable_text(a + block(seq!['s', 'c', 'r', 'i', 'p', 't'], x) + b) == readable_text(a + b),
        readable_text(a + block(seq!['s', 't', 'y', 'l', 'e'], x) + b) == readable_text(a + b),
        readable_text(a + block(seq!['n', 'o', 's', 'c', 'r', 'i', 'p', 't'], x) + b) == readable_text(a + b),
        readable_text(a + block(seq!['s', 'v', 'g'], x) + b) == readable_text(a + b),
        readable_text(a + block(seq!['t', 'e', 'm', 'p', 'l', 'a', 't', 'e'], x) + b) == readable_text(a + b),
        readable_text(a + block(seq!['h', 'e', 'a', 'd'], x) + b) == readable_text(a + b),
{
    lemma_noise_block_script(a, x, b);
    lemma_noise_block_style(a, x, b);
    lemma_noise_block_noscript(a, x, b);
    lemma_noise_block_svg(a, x, b);
    lemma_noise_block_template(a, x, b);
    lemma_noise_block_head(a, x, b);
    assert(lacks(a + b, '<')) by {
        assert forall|j: int| 0 <= j < (a + b).len() implies #[trigger] (a + b)[j] != '<' by {
            if j < a.len() {
                assert((a + b)[j] == a[j]);
            } else {
                assert((a + b)[j] == b[j - a.len()]);
            }
        }
    }
    lemma_no_tags_untouched(a + b);
}

/// Joined words cut to `MAX_ARCHIVE_CHARS` characters; a space left at the
/// end of the cut is dropped.
pub open spec fn capped(j: Seq<char>) -> Seq<char> {
    if j.len() <= MAX_ARCHIVE_CHARS {
        j
    } else if j[MAX_ARCHIVE_CHARS - 1] == ' ' {
        j.take(MAX_ARCHIVE_CHARS - 1)
    } else {
        j.take(MAX_ARCHIVE_CHARS as int)
    }
}

/// The extracted readable text of an HTML page.
pub open spec fn readable_text(html: Seq<char>) -> Seq<char> {
    capped(all_words(decode_entities(strip_tags(content_scope(strip_noise(html))))))
}

/// Every prefix state of the word joiner holds normalized text, with a
/// non-whitespace last character when it is not empty, and with a word open
/// exactly when the last character read was not whitespace.
pub proof fn lemma_words_joined_normalized(s: Seq<char>, n: int)
    requires
        0 <= n <= s.len(),
    ensures
        whitespace_normalized(words_joined(s, n).0),
        words_joined(s, n).0.len() > 0 ==> !is_ws(words_joined(s, n).0.last()),
    decreases n,
{
    if n > 0 {
        lemma_words_joined_normalized(s, n - 1);
        let (out, in_word) = words_joined(s, n - 1);
        let c = s[n - 1];
        let next = words_joined(s, n).0;
        if !is_ws(c) {
            assert(is_ws(' '));
            assert forall|i: int| 0 <= i < next.len() && is_ws(#[trigger] next[i]) implies next[i]
                == ' ' && 0 < i < next.len() - 1 && !is_ws(next[i - 1]) && !is_ws(next[i + 1]) by {
                if i < out.len() {
                    assert(next[i] == out[i]);
                    if i + 1 < out.len() {
                        assert(next[i + 1] == out[i + 1]);
                    }
                    assert(i > 0);
                    assert(next[i - 1] == out[i - 1]);
                }
            }
        }
    }
}

/// Cutting normalized text to the cap keeps it normalized and within the
/// cap.
pub proof fn lemma_capped_normalized(j: Seq<char>)
    requires
        whitespace_normalized(j),
    ensures
        whitespace_normalized(capped(j)),
        capped(j).len() <= MAX_ARCHIVE_CHARS,
        capped(j).len() <= j.len(),
        j.take(capped(j).len() as int) == capped(j),
{
    let c = capped(j);
    if j.len() > MAX_ARCHIVE_CHARS {
        let k = c.len() as int;
        if j[MAX_ARCHIVE_CHARS - 1] == ' ' {
            assert(!is_ws(j[MAX_ARCHIVE_CHARS - 2]));
        } else {
            assert(!is_ws(j[MAX_ARCHIVE_CHARS - 1])) by {
                if is_ws(j[MAX_ARCHIVE_CHARS - 1]) {
                    assert(j[MAX_ARCHIVE_CHARS - 1] == ' ');
                }
            }
        }
        assert forall|i: int| 0 <= i < c.len() && is_ws(#[trigger] c[i]) implies c[i] == ' ' && 0 < i
            < c.len() - 1 && !is_ws(c[i - 1]) && !is_ws(c[i + 1]) by {
            assert(c[i] == j[i]);
            assert(is_ws(j[i]));
            assert(c[i - 1] == j[i - 1]);
            if i == c.len() - 1 {
                assert(c[i] == j[k - 1]);
            } else {
                assert(c[i + 1] == j[i + 1]);
            }
        }
    } else {
        assert(j.take(j.len() as int) =~= j);
    }
}

/// The archive never holds more than `MAX_ARCHIVE_CHARS` characters.
pub proof fn lemma_archive_text_capped(html: Seq<char>)
    ensures
        readable_text(html).len() <= MAX_ARCHIVE_CHARS,
{
    let d = decode_entities(strip_tags(content_scope(strip_noise(html))));
    lemma_words_joined_normalized(d, d.len() as int);
    lemma_capped_normalized(all_words(d));
}

/// Text with no markup (no `<`, `>` or `&`) is archived as its words joined
/// by single spaces, cut to the cap: the archive is a prefix of that join,
/// and all of it when the join fits under the cap.
pub proof fn lemma_plain_text_archive(html: Seq<char>)
    requires
        lacks(html, '<'),
        lacks(html, '>'),
        lacks(html, '&'),
    ensures
        readable_text(html).len() <= all_words(html).len(),
        all_words(html).take(readable_text(html).len() as int) == readable_text(html),
        all_words(html).len() <= MAX_ARCHIVE_CHARS ==> readable_text(html) == all_words(html),
{
    lemma_no_tags_untouched(html);
    lemma_strip_tags_plain(html, html.len() as int);
    assert(html.take(html.len() as int) =~= html);
    assert(strip_tags(html) == html);
    lemma_no_entities_untouched(html);
    lemma_words_joined_normalized(html, html.len() as int);
    lemma_capped_normalized(all_words(html));
}

fn join_words_exec(s: &Vec<char>) -> (r: Vec<char>)
    ensures
        r@ == all_words(s@),
{
    let mut out: Vec<char> = Vec::new();
    let mut in_word = false;
    let mut i: usize = 0;
    while i < s.len()
        invariant
            i <= s.len(),
            (out@, in_word) == words_joined(s@, i as int),
        decreases s.len() - i,
    {
        let c = s[i];
        if is_whitespace(c) {
            in_word = false;
        } else {
            if !in_word && out.len() > 0 {
                out.push(' ');
            }
            out.push(c);
            in_word = true;
        }
        i = i + 1;
    }
    out
}

fn cap_exec(j: &Vec<char>) -> (r: Vec<char>)
    ensures
        r@ == capped(j@),
{
    if j.len() <= MAX_ARCHIVE_CHARS {
        slice_chars(j, 0, j.len())
    } else if j[MAX_ARCHIVE_CHARS - 1] == ' ' {
        slice_chars(j, 0, MAX_ARCHIVE_CHARS - 1)
    } else {
        slice_chars(j, 0, MAX_ARCHIVE_CHARS)
    }
}

/// Extract the readable text of an HTML page. Returns an empty string when
/// nothing useful remains.
pub fn extract_readable_text(html: &str) -> (r: String)
    ensures
        r@ == readable_text(html@),
        r@.len() <= MAX_ARCHIVE_CHARS,
        whitespace_normalized(r@),
{
    let h = chars_of(html);
    let s1 = strip_blocks_exec(&h, "script");
    let s2 = strip_blocks_exec(&s1, "style");
    let s3 = strip_blocks_exec(&s2, "noscript");
    let s4 = strip_blocks_exec(&s3, "svg");
    let s5 = strip_blocks_exec(&s4, "template");
    let cleaned = strip_blocks_exec(&s5, "head");
    let scope = match subtree_exec(&cleaned, "article") {
        Some(s) => s,
        None => match subtree_exec(&cleaned, "main") {
            Some(s) => s,
            None => match subtree_exec(&cleaned, "body") {
                Some(s) => s,
                None => cleaned,
            },
        },
    };
    let text = strip_tags_exec(&scope);
    let decoded = decode_entities_vec(&text);
    let words = join_words_exec(&decoded);
    let out = cap_exec(&words);
    proof {
        lemma_words_joined_normalized(decoded@, decoded@.len() as int);
        lemma_capped_normalized(words@);
    }
    string_of(&out)
}

} // verus!
