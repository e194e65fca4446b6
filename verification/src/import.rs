//! Bookmark import: Netscape bookmark HTML (every browser's export format,
//! plus Pocket's HTML variant), Raindrop.io / Pocket / generic CSV, and
//! plain URL lists.
//!
//! Parsers are lenient by design: imports come from a zoo of exporters, so
//! anything unparseable is skipped rather than failing the whole file.
use vstd::prelude::*;

use crate::text::{
    digit_char, digits, lemma_trim_idempotent, trim_end,
    contains, contains_exec, skip_ws, trim_start,
    utf8_len, utf8_width, char_width, is_ws, is_whitespace, starts_with_exec, chars_of, eq_chars, starts_with, is_ascii_digit, append_chars, find_from, find_from_exec, is_ascii_whitespace, is_ascii_ws, lemma_find_from_bounds,
    lower, lower_vec, matches_at, matches_at_exec, slice_chars, string_of, trim, trim_vec,
};

verus! {

// ------------------------------------------------------------- entities --

pub open spec fn ent_lt() -> Seq<char> {
    seq!['&', 'l', 't', ';']
}

pub open spec fn ent_gt() -> Seq<char> {
    seq!['&', 'g', 't', ';']
}

pub open spec fn ent_quot() -> Seq<char> {
    seq!['&', 'q', 'u', 'o', 't', ';']
}

pub open spec fn ent_apos() -> Seq<char> {
    seq!['&', '#', '3', '9', ';']
}

pub open spec fn ent_apos0() -> Seq<char> {
    seq!['&', '#', '0', '3', '9', ';']
}

pub open spec fn ent_nbsp() -> Seq<char> {
    seq!['&', 'n', 'b', 's', 'p', ';']
}

pub open spec fn ent_amp() -> Seq<char> {
    seq!['&', 'a', 'm', 'p', ';']
}

/// `str::replace` from position `i` on: leftmost, non-overlapping matches of
/// `pat` become `rep`.
pub open spec fn replace_from(s: Seq<char>, pat: Seq<char>, rep: Seq<char>, i: int) -> Seq<char>
    decreases s.len() - i,
{
    if i < 0 || i >= s.len() {
        seq![]
    } else if pat.len() > 0 && matches_at(s, pat, i) {
        rep + replace_from(s, pat, rep, i + pat.len())
    } else {
        seq![s[i]] + replace_from(s, pat, rep, i + 1)
    }
}

pub open spec fn replace(s: Seq<char>, pat: Seq<char>, rep: Seq<char>) -> Seq<char> {
    replace_from(s, pat, rep, 0)
}

/// The HTML entities exporters use, decoded in this order (`&amp;` last, so
/// `&amp;lt;` becomes the text `&lt;`).
pub open spec fn decode_entities(s: Seq<char>) -> Seq<char> {
    let s1 = replace(s, ent_lt(), seq!['<']);
    let s2 = replace(s1, ent_gt(), seq!['>']);
    let s3 = replace(s2, ent_quot(), seq!['"']);
    let s4 = replace(s3, ent_apos(), seq!['\'']);
    let s5 = replace(s4, ent_apos0(), seq!['\'']);
    let s6 = replace(s5, ent_nbsp(), seq![' ']);
    replace(s6, ent_amp(), seq!['&'])
}

proof fn lemma_replace_from_plain(s: Seq<char>, pat: Seq<char>, rep: Seq<char>, i: int)
    requires
        0 <= i,
        pat.len() > 0,
        pat[0] == '&',
        forall|j: int| i <= j < s.len() ==> #[trigger] s[j] != '&',
    ensures
        replace_from(s, pat, rep, i) == (if i < s.len() { s.subrange(i, s.len() as int) } else { seq![] }),
    decreases s.len() - i,
{
    if i < s.len() {
        lemma_replace_from_plain(s, pat, rep, i + 1);
        if matches_at(s, pat, i) {
            assert(s.subrange(i, i + pat.len())[0] == s[i]);
        }
        assert(seq![s[i]] + (if i + 1 < s.len() { s.subrange(i + 1, s.len() as int) } else { seq![] })
            =~= s.subrange(i, s.len() as int));
    }
}

proof fn lemma_replace_without_amp(s: Seq<char>, pat: Seq<char>, rep: Seq<char>)
    requires
        pat.len() > 0,
        pat[0] == '&',
        forall|j: int| 0 <= j < s.len() ==> #[trigger] s[j] != '&',
    ensures
        replace(s, pat, rep) == s,
{
    lemma_replace_from_plain(s, pat, rep, 0);
    if s.len() > 0 {
        assert(s.subrange(0, s.len() as int) =~= s);
    } else {
        assert(s =~= Seq::<char>::empty());
    }
}

proof fn lemma_replace_from_skip(s: Seq<char>, pat: Seq<char>, rep: Seq<char>, i: int, k: int)
    requires
        0 <= i <= k <= s.len(),
        pat.len() > 0,
        pat[0] == '&',
        forall|j: int| i <= j < k ==> #[trigger] s[j] != '&',
    ensures
        replace_from(s, pat, rep, i) == s.subrange(i, k) + replace_from(s, pat, rep, k),
    decreases k - i,
{
    if i < k {
        lemma_replace_from_skip(s, pat, rep, i + 1, k);
        if matches_at(s, pat, i) {
            assert(s.subrange(i, i + pat.len())[0] == s[i]);
        }
        assert(seq![s[i]] + s.subrange(i + 1, k) =~= s.subrange(i, k));
    } else {
        assert(s.subrange(i, k) =~= Seq::<char>::empty());
    }
}

/// The text of an entity: `&`, then no other `&`.
pub open spec fn entity_text(e: Seq<char>) -> bool {
    e.len() > 1 && e[0] == '&' && forall|j: int| 1 <= j < e.len() ==> #[trigger] e[j] != '&'
}

proof fn lemma_entity_step_match(a: Seq<char>, e: Seq<char>, b: Seq<char>, rep: Seq<char>)
    requires
        forall|j: int| 0 <= j < a.len() ==> #[trigger] a[j] != '&',
        forall|j: int| 0 <= j < b.len() ==> #[trigger] b[j] != '&',
        entity_text(e),
    ensures
        replace(a + e + b, e, rep) == a + rep + b,
{
    let s = a + e + b;
    let n = a.len() as int;
    assert forall|j: int| 0 <= j < n implies #[trigger] s[j] != '&' by {
        assert(s[j] == a[j]);
    }
    lemma_replace_from_skip(s, e, rep, 0, n);
    assert(s.subrange(n, n + e.len()) =~= e);
    assert(matches_at(s, e, n));
    assert forall|j: int| n + e.len() <= j < s.len() implies #[trigger] s[j] != '&' by {
        assert(s[j] == b[j - n - e.len()]);
    }
    lemma_replace_from_plain(s, e, rep, n + e.len());
    if n + e.len() < s.len() {
        assert(s.subrange(n + e.len(), s.len() as int) =~= b);
    } else {
        assert(b =~= Seq::<char>::empty());
    }
    assert(s.subrange(0, n) =~= a);
    assert(a + rep + b =~= s.subrange(0, n) + (rep + replace_from(s, e, rep, n + e.len())));
}

proof fn lemma_entity_step_differ(
    a: Seq<char>,
    e: Seq<char>,
    b: Seq<char>,
    pat: Seq<char>,
    rep: Seq<char>,
    k: int,
)
    requires
        forall|j: int| 0 <= j < a.len() ==> #[trigger] a[j] != '&',
        forall|j: int| 0 <= j < b.len() ==> #[trigger] b[j] != '&',
        entity_text(e),
        pat.len() > 0,
        pat[0] == '&',
        0 < k < e.len(),
        k < pat.len(),
        pat[k] != e[k],
    ensures
        replace(a + e + b, pat, rep) == a + e + b,
{
    let s = a + e + b;
    let n = a.len() as int;
    assert forall|j: int| 0 <= j < n implies #[trigger] s[j] != '&' by {
        assert(s[j] == a[j]);
    }
    lemma_replace_from_skip(s, pat, rep, 0, n);
    if matches_at(s, pat, n) {
        assert(s.subrange(n, n + pat.len())[k] == s[n + k]);
        assert(s[n + k] == e[k]);
    }
    assert forall|j: int| n + 1 <= j < s.len() implies #[trigger] s[j] != '&' by {
        if j < n + e.len() {
            assert(s[j] == e[j - n]);
        } else {
            assert(s[j] == b[j - n - e.len()]);
        }
    }
    lemma_replace_from_plain(s, pat, rep, n + 1);
    assert(s[n] == '&');
    assert(s.subrange(0, n) + (seq![s[n]] + (if n + 1 < s.len() { s.subrange(n + 1, s.len() as int) } else { seq![] })) =~= s);
}

/// Each entity the decoder knows, standing alone in plain text (text with
/// no `&`), is replaced by its character and nothing else changes:
/// `&lt;` `<`, `&gt;` `>`, `&quot;` `"`, `&#39;` and `&#039;` an apostrophe,
/// `&nbsp;` a space, `&amp;` `&`.
pub proof fn lemma_entities_decode(a: Seq<char>, b: Seq<char>)
    requires
        forall|j: int| 0 <= j < a.len() ==> #[trigger] a[j] != '&',
        forall|j: int| 0 <= j < b.len() ==> #[trigger] b[j] != '&',
    ensures
        decode_entities(a + seq!['&', 'l', 't', ';'] + b) == a + seq!['<'] + b,
        decode_entities(a + seq!['&', 'g', 't', ';'] + b) == a + seq!['>'] + b,
        decode_entities(a + seq!['&', 'q', 'u', 'o', 't', ';'] + b) == a + seq!['"'] + b,
        decode_entities(a + seq!['&', '#', '3', '9', ';'] + b) == a + seq!['\''] + b,
        decode_entities(a + seq!['&', '#', '0', '3', '9', ';'] + b) == a + seq!['\''] + b,
        decode_entities(a + seq!['&', 'n', 'b', 's', 'p', ';'] + b) == a + seq![' '] + b,
        decode_entities(a + seq!['&', 'a', 'm', 'p', ';'] + b) == a + seq!['&'] + b,
{
    // &lt;
    {
        let e = seq!['&', 'l', 't', ';'];
        let s0 = a + e + b;
        lemma_entity_step_match(a, e, b, seq!['<']);
        let s1 = a + seq!['<'] + b;
        assert(replace(s0, seq!['&', 'l', 't', ';'], seq!['<']) == s1);
        assert(forall|j: int| 0 <= j < s1.len() ==> #[trigger] s1[j] != '&') by {
            assert forall|j: int| 0 <= j < s1.len() implies #[trigger] s1[j] != '&' by {
                if j < a.len() { assert(s1[j] == a[j]); } else if j == a.len() { assert(s1[j] == seq!['<'][0]); } else { assert(s1[j] == b[j - a.len() - 1]); }
            }
        }
        lemma_replace_without_amp(s1, seq!['&', 'g', 't', ';'], seq!['>']);
        let s2 = s1;
        assert(replace(s1, seq!['&', 'g', 't', ';'], seq!['>']) == s2);
        lemma_replace_without_amp(s2, seq!['&', 'q', 'u', 'o', 't', ';'], seq!['"']);
        let s3 = s2;
        assert(replace(s2, seq!['&', 'q', 'u', 'o', 't', ';'], seq!['"']) == s3);
        lemma_replace_without_amp(s3, seq!['&', '#', '3', '9', ';'], seq!['\'']);
        let s4 = s3;
        assert(replace(s3, seq!['&', '#', '3', '9', ';'], seq!['\'']) == s4);
        lemma_replace_without_amp(s4, seq!['&', '#', '0', '3', '9', ';'], seq!['\'']);
        let s5 = s4;
        assert(replace(s4, seq!['&', '#', '0', '3', '9', ';'], seq!['\'']) == s5);
        lemma_replace_without_amp(s5, seq!['&', 'n', 'b', 's', 'p', ';'], seq![' ']);
        let s6 = s5;
        assert(replace(s5, seq!['&', 'n', 'b', 's', 'p', ';'], seq![' ']) == s6);
        lemma_replace_without_amp(s6, seq!['&', 'a', 'm', 'p', ';'], seq!['&']);
        let s7 = s6;
        assert(replace(s6, seq!['&', 'a', 'm', 'p', ';'], seq!['&']) == s7);
        assert(decode_entities(s0) == s7);
    }
    // &gt;
    {
        let e = seq!['&', 'g', 't', ';'];
        let s0 = a + e + b;
        lemma_entity_step_differ(a, e, b, seq!['&', 'l', 't', ';'], seq!['<'], 1);
        let s1 = s0;
        assert(replace(s0, seq!['&', 'l', 't', ';'], seq!['<']) == s1);
        lemma_entity_step_match(a, e, b, seq!['>']);
        let s2 = a + seq!['>'] + b;
        assert(replace(s1, seq!['&', 'g', 't', ';'], seq!['>']) == s2);
        assert(forall|j: int| 0 <= j < s2.len() ==> #[trigger] s2[j] != '&') by {
            assert forall|j: int| 0 <= j < s2.len() implies #[trigger] s2[j] != '&' by {
                if j < a.len() { assert(s2[j] == a[j]); } else if j == a.len() { assert(s2[j] == seq!['>'][0]); } else { assert(s2[j] == b[j - a.len() - 1]); }
            }
        }
        lemma_replace_without_amp(s2, seq!['&', 'q', 'u', 'o', 't', ';'], seq!['"']);
        let s3 = s2;
        assert(replace(s2, seq!['&', 'q', 'u', 'o', 't', ';'], seq!['"']) == s3);
        lemma_replace_without_amp(s3, seq!['&', '#', '3', '9', ';'], seq!['\'']);
        let s4 = s3;
        assert(replace(s3, seq!['&', '#', '3', '9', ';'], seq!['\'']) == s4);
        lemma_replace_without_amp(s4, seq!['&', '#', '0', '3', '9', ';'], seq!['\'']);
        let s5 = s4;
        assert(replace(s4, seq!['&', '#', '0', '3', '9', ';'], seq!['\'']) == s5);
        lemma_replace_without_amp(s5, seq!['&', 'n', 'b', 's', 'p', ';'], seq![' ']);
        let s6 = s5;
        assert(replace(s5, seq!['&', 'n', 'b', 's', 'p', ';'], seq![' ']) == s6);
        lemma_replace_without_amp(s6, seq!['&', 'a', 'm', 'p', ';'], seq!['&']);
        let s7 = s6;
        assert(replace(s6, seq!['&', 'a', 'm', 'p', ';'], seq!['&']) == s7);
        assert(decode_entities(s0) == s7);
    }
    // &quot;
    {
        let e = seq!['&', 'q', 'u', 'o', 't', ';'];
        let s0 = a + e + b;
        lemma_entity_step_differ(a, e, b, seq!['&', 'l', 't', ';'], seq!['<'], 1);
        let s1 = s0;
        assert(replace(s0, seq!['&', 'l', 't', ';'], seq!['<']) == s1);
        lemma_entity_step_differ(a, e, b, seq!['&', 'g', 't', ';'], seq!['>'], 1);
        let s2 = s1;
        assert(replace(s1, seq!['&', 'g', 't', ';'], seq!['>']) == s2);
        lemma_entity_step_match(a, e, b, seq!['"']);
        let s3 = a + seq!['"'] + b;
        assert(replace(s2, seq!['&', 'q', 'u', 'o', 't', ';'], seq!['"']) == s3);
        assert(forall|j: int| 0 <= j < s3.len() ==> #[trigger] s3[j] != '&') by {
            assert forall|j: int| 0 <= j < s3.len() implies #[trigger] s3[j] != '&' by {
                if j < a.len() { assert(s3[j] == a[j]); } else if j == a.len() { assert(s3[j] == seq!['"'][0]); } else { assert(s3[j] == b[j - a.len() - 1]); }
            }
        }
        lemma_replace_without_amp(s3, seq!['&', '#', '3', '9', ';'], seq!['\'']);
        let s4 = s3;
        assert(replace(s3, seq!['&', '#', '3', '9', ';'], seq!['\'']) == s4);
        lemma_replace_without_amp(s4, seq!['&', '#', '0', '3', '9', ';'], seq!['\'']);
        let s5 = s4;
        assert(replace(s4, seq!['&', '#', '0', '3', '9', ';'], seq!['\'']) == s5);
        lemma_replace_without_amp(s5, seq!['&', 'n', 'b', 's', 'p', ';'], seq![' ']);
        let s6 = s5;
        assert(replace(s5, seq!['&', 'n', 'b', 's', 'p', ';'], seq![' ']) == s6);
        lemma_replace_without_amp(s6, seq!['&', 'a', 'm', 'p', ';'], seq!['&']);
        let s7 = s6;
        assert(replace(s6, seq!['&', 'a', 'm', 'p', ';'], seq!['&']) == s7);
        assert(decode_entities(s0) == s7);
    }
    // &#39;
    {
        let e = seq!['&', '#', '3', '9', ';'];
        let s0 = a + e + b;
        lemma_entity_step_differ(a, e, b, seq!['&', 'l', 't', ';'], seq!['<'], 1);
        let s1 = s0;
        assert(replace(s0, seq!['&', 'l', 't', ';'], seq!['<']) == s1);
        lemma_entity_step_differ(a, e, b, seq!['&', 'g', 't', ';'], seq!['>'], 1);
        let s2 = s1;
        assert(replace(s1, seq!['&', 'g', 't', ';'], seq!['>']) == s2);
        lemma_entity_step_differ(a, e, b, seq!['&', 'q', 'u', 'o', 't', ';'], seq!['"'], 1);
        let s3 = s2;
        assert(replace(s2, seq!['&', 'q', 'u', 'o', 't', ';'], seq!['"']) == s3);
        lemma_entity_step_match(a, e, b, seq!['\'']);
        let s4 = a + seq!['\''] + b;
        assert(replace(s3, seq!['&', '#', '3', '9', ';'], seq!['\'']) == s4);
        assert(forall|j: int| 0 <= j < s4.len() ==> #[trigger] s4[j] != '&') by {
            assert forall|j: int| 0 <= j < s4.len() implies #[trigger] s4[j] != '&' by {
                if j < a.len() { assert(s4[j] == a[j]); } else if j == a.len() { assert(s4[j] == seq!['\''][0]); } else { assert(s4[j] == b[j - a.len() - 1]); }
            }
        }
        lemma_replace_without_amp(s4, seq!['&', '#', '0', '3', '9', ';'], seq!['\'']);
        let s5 = s4;
        assert(replace(s4, seq!['&', '#', '0', '3', '9', ';'], seq!['\'']) == s5);
        lemma_replace_without_amp(s5, seq!['&', 'n', 'b', 's', 'p', ';'], seq![' ']);
        let s6 = s5;
        assert(replace(s5, seq!['&', 'n', 'b', 's', 'p', ';'], seq![' ']) == s6);
        lemma_replace_without_amp(s6, seq!['&', 'a', 'm', 'p', ';'], seq!['&']);
        let s7 = s6;
        assert(replace(s6, seq!['&', 'a', 'm', 'p', ';'], seq!['&']) == s7);
        assert(decode_entities(s0) == s7);
    }
    // &#039;
    {
        let e = seq!['&', '#', '0', '3', '9', ';'];
        let s0 = a + e + b;
        lemma_entity_step_differ(a, e, b, seq!['&', 'l', 't', ';'], seq!['<'], 1);
        let s1 = s0;
        assert(replace(s0, seq!['&', 'l', 't', ';'], seq!['<']) == s1);
        lemma_entity_step_differ(a, e, b, seq!['&', 'g', 't', ';'], seq!['>'], 1);
        let s2 = s1;
        assert(replace(s1, seq!['&', 'g', 't', ';'], seq!['>']) == s2);
        lemma_entity_step_differ(a, e, b, seq!['&', 'q', 'u', 'o', 't', ';'], seq!['"'], 1);
        let s3 = s2;
        assert(replace(s2, seq!['&', 'q', 'u', 'o', 't', ';'], seq!['"']) == s3);
        lemma_entity_step_differ(a, e, b, seq!['&', '#', '3', '9', ';'], seq!['\''], 2);
        let s4 = s3;
        assert(replace(s3, seq!['&', '#', '3', '9', ';'], seq!['\'']) == s4);
        lemma_entity_step_match(a, e, b, seq!['\'']);
        let s5 = a + seq!['\''] + b;
        assert(replace(s4, seq!['&', '#', '0', '3', '9', ';'], seq!['\'']) == s5);
        assert(forall|j: int| 0 <= j < s5.len() ==> #[trigger] s5[j] != '&') by {
            assert forall|j: int| 0 <= j < s5.len() implies #[trigger] s5[j] != '&' by {
                if j < a.len() { assert(s5[j] == a[j]); } else if j == a.len() { assert(s5[j] == seq!['\''][0]); } else { assert(s5[j] == b[j - a.len() - 1]); }
            }
        }
        lemma_replace_without_amp(s5, seq!['&', 'n', 'b', 's', 'p', ';'], seq![' ']);
        let s6 = s5;
        assert(replace(s5, seq!['&', 'n', 'b', 's', 'p', ';'], seq![' ']) == s6);
        lemma_replace_without_amp(s6, seq!['&', 'a', 'm', 'p', ';'], seq!['&']);
        let s7 = s6;
        assert(replace(s6, seq!['&', 'a', 'm', 'p', ';'], seq!['&']) == s7);
        assert(decode_entities(s0) == s7);
    }
    // &nbsp;
    {
        let e = seq!['&', 'n', 'b', 's', 'p', ';'];
        let s0 = a + e + b;
        lemma_entity_step_differ(a, e, b, seq!['&', 'l', 't', ';'], seq!['<'], 1);
        let s1 = s0;
        assert(replace(s0, seq!['&', 'l', 't', ';'], seq!['<']) == s1);
        lemma_entity_step_differ(a, e, b, seq!['&', 'g', 't', ';'], seq!['>'], 1);
        let s2 = s1;
        assert(replace(s1, seq!['&', 'g', 't', ';'], seq!['>']) == s2);
        lemma_entity_step_differ(a, e, b, seq!['&', 'q', 'u', 'o', 't', ';'], seq!['"'], 1);
        let s3 = s2;
        assert(replace(s2, seq!['&', 'q', 'u', 'o', 't', ';'], seq!['"']) == s3);
        lemma_entity_step_differ(a, e, b, seq!['&', '#', '3', '9', ';'], seq!['\''], 1);
        let s4 = s3;
        assert(replace(s3, seq!['&', '#', '3', '9', ';'], seq!['\'']) == s4);
        lemma_entity_step_differ(a, e, b, seq!['&', '#', '0', '3', '9', ';'], seq!['\''], 1);
        let s5 = s4;
        assert(replace(s4, seq!['&', '#', '0', '3', '9', ';'], seq!['\'']) == s5);
        lemma_entity_step_match(a, e, b, seq![' ']);
        let s6 = a + seq![' '] + b;
        assert(replace(s5, seq!['&', 'n', 'b', 's', 'p', ';'], seq![' ']) == s6);
        assert(forall|j: int| 0 <= j < s6.len() ==> #[trigger] s6[j] != '&') by {
            assert forall|j: int| 0 <= j < s6.len() implies #[trigger] s6[j] != '&' by {
                if j < a.len() { assert(s6[j] == a[j]); } else if j == a.len() { assert(s6[j] == seq![' '][0]); } else { assert(s6[j] == b[j - a.len() - 1]); }
            }
        }
        lemma_replace_without_amp(s6, seq!['&', 'a', 'm', 'p', ';'], seq!['&']);
        let s7 = s6;
        assert(replace(s6, seq!['&', 'a', 'm', 'p', ';'], seq!['&']) == s7);
        assert(decode_entities(s0) == s7);
    }
    // &amp;
    {
        let e = seq!['&', 'a', 'm', 'p', ';'];
        let s0 = a + e + b;
        lemma_entity_step_differ(a, e, b, seq!['&', 'l', 't', ';'], seq!['<'], 1);
        let s1 = s0;
        assert(replace(s0, seq!['&', 'l', 't', ';'], seq!['<']) == s1);
        lemma_entity_step_differ(a, e, b, seq!['&', 'g', 't', ';'], seq!['>'], 1);
        let s2 = s1;
        assert(replace(s1, seq!['&', 'g', 't', ';'], seq!['>']) == s2);
        lemma_entity_step_differ(a, e, b, seq!['&', 'q', 'u', 'o', 't', ';'], seq!['"'], 1);
        let s3 = s2;
        assert(replace(s2, seq!['&', 'q', 'u', 'o', 't', ';'], seq!['"']) == s3);
        lemma_entity_step_differ(a, e, b, seq!['&', '#', '3', '9', ';'], seq!['\''], 1);
        let s4 = s3;
        assert(replace(s3, seq!['&', '#', '3', '9', ';'], seq!['\'']) == s4);
        lemma_entity_step_differ(a, e, b, seq!['&', '#', '0', '3', '9', ';'], seq!['\''], 1);
        let s5 = s4;
        assert(replace(s4, seq!['&', '#', '0', '3', '9', ';'], seq!['\'']) == s5);
        lemma_entity_step_differ(a, e, b, seq!['&', 'n', 'b', 's', 'p', ';'], seq![' '], 1);
        let s6 = s5;
        assert(replace(s5, seq!['&', 'n', 'b', 's', 'p', ';'], seq![' ']) == s6);
        lemma_entity_step_match(a, e, b, seq!['&']);
        let s7 = a + seq!['&'] + b;
        assert(replace(s6, seq!['&', 'a', 'm', 'p', ';'], seq!['&']) == s7);
        assert(decode_entities(s0) == s7);
    }
}

pub fn replace_chars(s: &Vec<char>, pat: &Vec<char>, rep: &Vec<char>) -> (r: Vec<char>)
    ensures
        r@ == replace(s@, pat@, rep@),
{
    let mut out: Vec<char> = Vec::new();
    let mut i: usize = 0;
    while i < s.len()
        invariant
            i <= s.len(),
            out@ + replace_from(s@, pat@, rep@, i as int) == replace(s@, pat@, rep@),
        decreases s.len() - i,
    {
        let ghost before = out@;
        if pat.len() > 0 && matches_at_exec(s, pat, i) {
            append_chars(&mut out, rep);
            assert(before + (rep@ + replace_from(s@, pat@, rep@, i + pat.len())) =~= out@
                + replace_from(s@, pat@, rep@, i + pat.len()));
            i = i + pat.len();
        } else {
            out.push(s[i]);
            assert(before + (seq![s@[i as int]] + replace_from(s@, pat@, rep@, i + 1)) =~= out@
                + replace_from(s@, pat@, rep@, i + 1));
            i = i + 1;
        }
    }
    assert(out@ + replace_from(s@, pat@, rep@, i as int) =~= out@);
    out
}

pub fn decode_entities_vec(s: &Vec<char>) -> (r: Vec<char>)
    ensures
        r@ == decode_entities(s@),
{
    let p1 = vec!['&', 'l', 't', ';'];
    let r1 = vec!['<'];
    assert(p1@ == ent_lt());
    let s1 = replace_chars(s, &p1, &r1);
    let p2 = vec!['&', 'g', 't', ';'];
    let r2 = vec!['>'];
    assert(p2@ == ent_gt() && r1@ == seq!['<'] && r2@ == seq!['>']);
    let s2 = replace_chars(&s1, &p2, &r2);
    let p3 = vec!['&', 'q', 'u', 'o', 't', ';'];
    let r3 = vec!['"'];
    assert(p3@ == ent_quot() && r3@ == seq!['"']);
    let s3 = replace_chars(&s2, &p3, &r3);
    let p4 = vec!['&', '#', '3', '9', ';'];
    let r4 = vec!['\''];
    assert(p4@ == ent_apos() && r4@ == seq!['\'']);
    let s4 = replace_chars(&s3, &p4, &r4);
    let p5 = vec!['&', '#', '0', '3', '9', ';'];
    assert(p5@ == ent_apos0());
    let s5 = replace_chars(&s4, &p5, &r4);
    let p6 = vec!['&', 'n', 'b', 's', 'p', ';'];
    let r6 = vec![' '];
    assert(p6@ == ent_nbsp() && r6@ == seq![' ']);
    let s6 = replace_chars(&s5, &p6, &r6);
    let p7 = vec!['&', 'a', 'm', 'p', ';'];
    let r7 = vec!['&'];
    assert(p7@ == ent_amp() && r7@ == seq!['&']);
    replace_chars(&s6, &p7, &r7)
}

// ------------------------------------------------------------ attributes --

/// Index of the first `q` at or after `i` (or the length).
pub open spec fn index_of_char(s: Seq<char>, q: char, i: int) -> int
    decreases s.len() - i,
{
    if i < 0 || i >= s.len() {
        s.len() as int
    } else if s[i] == q {
        i
    } else {
        index_of_char(s, q, i + 1)
    }
}

/// Index of the first ASCII whitespace or `>` at or after `i` (or the length).
pub open spec fn index_of_value_end(s: Seq<char>, i: int) -> int
    decreases s.len() - i,
{
    if i < 0 || i >= s.len() {
        s.len() as int
    } else if is_ascii_ws(s[i]) || s[i] == '>' {
        i
    } else {
        index_of_value_end(s, i + 1)
    }
}

/// The raw attribute value at the start of `rest`: up to the matching quote
/// when quoted, else up to whitespace or `>`.
pub open spec fn attr_value(rest: Seq<char>) -> Seq<char> {
    if rest.len() > 0 && (rest[0] == '"' || rest[0] == '\'') {
        rest.subrange(1, index_of_char(rest, rest[0], 1))
    } else {
        rest.subrange(0, index_of_value_end(rest, 0))
    }
}

/// Attribute lookup from `from` on, where `pat` is the lowercase name
/// followed by `=`: the first occurrence preceded by ASCII whitespace wins.
pub open spec fn attr_from(tag: Seq<char>, pat: Seq<char>, from: int) -> Option<Seq<char>>
    decreases tag.len() + 1 - from,
{
    let l = lower(tag);
    if from < 0 || pat.len() == 0 {
        None
    } else {
        match find_from(l, pat, from) {
            None => None,
            Some(i) => {
                proof {
                    lemma_find_from_bounds(l, pat, from);
                }
                if i > 0 && is_ascii_ws(l[i - 1]) {
                    Some(decode_entities(attr_value(tag.subrange(i + pat.len(), tag.len() as int))))
                } else {
                    attr_from(tag, pat, i + pat.len())
                }
            },
        }
    }
}

/// Value of attribute `name` (lowercase) in a raw tag, matched
/// case-insensitively, entities decoded.
pub open spec fn attr_spec(tag: Seq<char>, name: Seq<char>) -> Option<Seq<char>> {
    attr_from(tag, name.push('='), 0)
}

pub proof fn lemma_index_of_char(s: Seq<char>, q: char, i: int)
    requires
        0 <= i <= s.len(),
    ensures
        i <= index_of_char(s, q, i) <= s.len(),
        forall|j: int| i <= j < index_of_char(s, q, i) ==> s[j] != q,
        index_of_char(s, q, i) < s.len() ==> s[index_of_char(s, q, i)] == q,
    decreases s.len() - i,
{
    if i < s.len() && s[i] != q {
        lemma_index_of_char(s, q, i + 1);
    }
}

pub proof fn lemma_index_of_value_end(s: Seq<char>, i: int)
    requires
        0 <= i <= s.len(),
    ensures
        i <= index_of_value_end(s, i) <= s.len(),
    decreases s.len() - i,
{
    if i < s.len() && !(is_ascii_ws(s[i]) || s[i] == '>') {
        lemma_index_of_value_end(s, i + 1);
    }
}

fn index_of_char_exec(s: &Vec<char>, q: char, i: usize) -> (r: usize)
    requires
        i <= s.len(),
    ensures
        r == index_of_char(s@, q, i as int),
        i <= r <= s.len(),
{
    let mut k = i;
    while k < s.len() && s[k] != q
        invariant
            i <= k <= s.len(),
            index_of_char(s@, q, i as int) == index_of_char(s@, q, k as int),
        decreases s.len() - k,
    {
        k = k + 1;
    }
    k
}

fn index_of_value_end_exec(s: &Vec<char>, i: usize) -> (r: usize)
    requires
        i <= s.len(),
    ensures
        r == index_of_value_end(s@, i as int),
        i <= r <= s.len(),
{
    let mut k = i;
    while k < s.len() && !(is_ascii_whitespace(s[k]) || s[k] == '>')
        invariant
            i <= k <= s.len(),
            index_of_value_end(s@, i as int) == index_of_value_end(s@, k as int),
        decreases s.len() - k,
    {
        k = k + 1;
    }
    k
}

fn attr_value_exec(rest: &Vec<char>) -> (r: Vec<char>)
    ensures
        r@ == attr_value(rest@),
{
    if rest.len() > 0 && (rest[0] == '"' || rest[0] == '\'') {
        let end = index_of_char_exec(rest, rest[0], 1);
        slice_chars(rest, 1, end)
    } else {
        let end = index_of_value_end_exec(rest, 0);
        slice_chars(rest, 0, end)
    }
}

/// Extract an attribute value from a raw tag string, case-insensitively.
/// `name` must be lowercase.
pub fn attr_chars(tag: &Vec<char>, name: &Vec<char>) -> (r: Option<Vec<char>>)
    ensures
        r matches Some(v) ==> attr_spec(tag@, name@) == Some(v@),
        r is None ==> attr_spec(tag@, name@) is None,
{
    let l = lower_vec(tag);
    let mut pat = name.clone();
    pat.push('=');
    assert(pat@ =~= name@.push('='));
    let mut from: usize = 0;
    while from <= l.len()
        invariant
            l@ == lower(tag@),
            l.len() == tag.len(),
            pat@ == name@.push('='),
            attr_spec(tag@, name@) == attr_from(tag@, pat@, from as int),
        decreases l.len() + 1 - from,
    {
        match find_from_exec(&l, &pat, from) {
            None => {
                return None;
            },
            Some(i) => {
                proof {
                    lemma_find_from_bounds(l@, pat@, from as int);
                }
                if i > 0 && is_ascii_whitespace(l[i - 1]) {
                    let rest = slice_chars(tag, i + pat.len(), tag.len());
                    let v = attr_value_exec(&rest);
                    return Some(decode_entities_vec(&v));
                }
                from = i + pat.len();
            },
        }
    }
    proof {
        assert(attr_from(tag@, pat@, from as int) is None);
    }
    None
}

// ------------------------------------------------------------------ tags --

pub open spec fn is_tag_sep(c: char) -> bool {
    c == ',' || c == '|'
}

/// `s.split([',', '|'])`: the pieces between separators.
pub open spec fn tag_pieces(s: Seq<char>) -> Seq<Seq<char>>
    decreases s.len(),
{
    if s.len() == 0 {
        seq![seq![]]
    } else {
        let prev = tag_pieces(s.drop_last());
        if is_tag_sep(s.last()) {
            prev.push(seq![])
        } else {
            prev.drop_last().push(prev.last().push(s.last()))
        }
    }
}

/// Trimmed, non-empty pieces, in order.
pub open spec fn nonempty_trimmed(pieces: Seq<Seq<char>>) -> Seq<Seq<char>>
    decreases pieces.len(),
{
    if pieces.len() == 0 {
        seq![]
    } else {
        let rest = nonempty_trimmed(pieces.drop_last());
        let t = trim(pieces.last());
        if t.len() > 0 {
            rest.push(t)
        } else {
            rest
        }
    }
}

/// Tags from CSV/HTML attributes: comma-separated (Raindrop, Firefox) or
/// pipe-separated (Pocket).
pub open spec fn split_tags(raw: Seq<char>) -> Seq<Seq<char>> {
    nonempty_trimmed(tag_pieces(raw))
}

pub open spec fn vec_views(v: Seq<Vec<char>>) -> Seq<Seq<char>> {
    Seq::new(v.len(), |i: int| v[i]@)
}

pub open spec fn string_views(v: Seq<String>) -> Seq<Seq<char>> {
    Seq::new(v.len(), |i: int| v[i]@)
}

pub proof fn lemma_tag_pieces_nonempty(s: Seq<char>)
    ensures
        tag_pieces(s).len() >= 1,
    decreases s.len(),
{
    if s.len() > 0 {
        lemma_tag_pieces_nonempty(s.drop_last());
    }
}

pub fn split_tags_vec(raw: &Vec<char>) -> (r: Vec<Vec<char>>)
    ensures
        vec_views(r@) == split_tags(raw@),
{
    // split into pieces
    let mut pieces: Vec<Vec<char>> = Vec::new();
    let mut cur: Vec<char> = Vec::new();
    let mut i: usize = 0;
    while i < raw.len()
        invariant
            i <= raw.len(),
            vec_views(pieces@).push(cur@) == tag_pieces(raw@.take(i as int)),
        decreases raw.len() - i,
    {
        let c = raw[i];
        proof {
            assert(raw@.take(i + 1).drop_last() =~= raw@.take(i as int));
            lemma_tag_pieces_nonempty(raw@.take(i as int));
        }
        if c == ',' || c == '|' {
            let done = cur;
            pieces.push(done);
            cur = Vec::new();
            assert(vec_views(pieces@).push(cur@) =~= tag_pieces(raw@.take(i + 1)));
        } else {
            let ghost prev = tag_pieces(raw@.take(i as int));
            cur.push(c);
            assert(vec_views(pieces@) =~= prev.drop_last());
            assert(vec_views(pieces@).push(cur@) =~= tag_pieces(raw@.take(i + 1)));
        }
        i = i + 1;
    }
    assert(raw@.take(raw.len() as int) =~= raw@);
    pieces.push(cur);
    assert(vec_views(pieces@) =~= tag_pieces(raw@));
    // trim and drop empty pieces
    let mut out: Vec<Vec<char>> = Vec::new();
    let mut k: usize = 0;
    while k < pieces.len()
        invariant
            k <= pieces.len(),
            vec_views(pieces@) == tag_pieces(raw@),
            vec_views(out@) == nonempty_trimmed(vec_views(pieces@).take(k as int)),
        decreases pieces.len() - k,
    {
        let t = trim_vec(&pieces[k]);
        assert(vec_views(pieces@).take(k + 1).drop_last() =~= vec_views(pieces@).take(k as int));
        if t.len() > 0 {
            out.push(t);
            assert(vec_views(out@) =~= nonempty_trimmed(vec_views(pieces@).take(k + 1)));
        }
        k = k + 1;
    }
    assert(vec_views(pieces@).take(pieces.len() as int) =~= vec_views(pieces@));
    out
}

pub fn strings_of(v: &Vec<Vec<char>>) -> (r: Vec<String>)
    ensures
        string_views(r@) == vec_views(v@),
{
    let mut out: Vec<String> = Vec::new();
    let mut i: usize = 0;
    while i < v.len()
        invariant
            i <= v.len(),
            out.len() == i,
            string_views(out@) == vec_views(v@).take(i as int),
        decreases v.len() - i,
    {
        let t = string_of(&v[i]);
        let ghost before = out@;
        out.push(t);
        assert(out@.len() == i + 1);
        assert(out@[i as int]@ == v@[i as int]@);
        assert(string_views(out@).len() == i + 1);
        assert(string_views(out@)[i as int] == out@[i as int]@);
        i = i + 1;
        assert(string_views(out@) =~= vec_views(v@).take(i as int));
    }
    assert(vec_views(v@).take(v.len() as int) =~= vec_views(v@));
    out
}

// ------------------------------------------------------------- numbers --

pub open spec fn digit_val(c: char) -> int {
    (c as int) - ('0' as int)
}

/// Decimal value of a string of ASCII digits.
pub open spec fn digits_value(s: Seq<char>) -> int
    decreases s.len(),
{
    if s.len() == 0 {
        0
    } else {
        digits_value(s.drop_last()) * 10 + digit_val(s.last())
    }
}

pub open spec fn all_digits(s: Seq<char>) -> bool {
    forall|i: int| 0 <= i < s.len() ==> is_ascii_digit(#[trigger] s[i])
}

/// Integer syntax of `str::parse`: an optional `+` (or `-` when
/// `allow_minus`) followed by at least one ASCII digit; value unbounded.
pub open spec fn parse_int(s: Seq<char>, allow_minus: bool) -> Option<int> {
    if s.len() == 0 {
        None
    } else if s[0] == '+' || (allow_minus && s[0] == '-') {
        let d = s.drop_first();
        if d.len() > 0 && all_digits(d) {
            Some(if s[0] == '-' { -digits_value(d) } else { digits_value(d) })
        } else {
            None
        }
    } else if all_digits(s) {
        Some(digits_value(s))
    } else {
        None
    }
}

/// `s.parse::<i64>()`.
pub open spec fn parse_i64(s: Seq<char>) -> Option<i64> {
    match parse_int(s, true) {
        Some(v) => if i64::MIN <= v && v <= i64::MAX {
            Some(v as i64)
        } else {
            None
        },
        None => None,
    }
}

/// `s.parse::<u32>()`.
pub open spec fn parse_u32(s: Seq<char>) -> Option<u32> {
    match parse_int(s, false) {
        Some(v) => if 0 <= v && v <= u32::MAX {
            Some(v as u32)
        } else {
            None
        },
        None => None,
    }
}

pub proof fn lemma_digits_value_nonneg(s: Seq<char>)
    requires
        all_digits(s),
    ensures
        digits_value(s) >= 0,
    decreases s.len(),
{
    if s.len() > 0 {
        assert(is_ascii_digit(s[s.len() - 1]));
        lemma_digits_value_nonneg(s.drop_last());
    }
}

/// Parses `s[from..to]` as an integer; `None` when the syntax is wrong or the
/// magnitude exceeds 2^63 (no `i64` or `u32` can hold it then).
fn parse_int_exec(s: &Vec<char>, from: usize, to: usize, allow_minus: bool) -> (r: Option<i128>)
    requires
        from <= to <= s.len(),
    ensures
        r matches Some(v) ==> parse_int(s@.subrange(from as int, to as int), allow_minus) == Some(
            v as int,
        ) && -0x8000_0000_0000_0000 <= v <= 0x8000_0000_0000_0000,
        r is None ==> match parse_int(s@.subrange(from as int, to as int), allow_minus) {
            Some(v) => v < -0x8000_0000_0000_0000 || v > 0x8000_0000_0000_0000,
            None => true,
        },
{
    let ghost whole = s@.subrange(from as int, to as int);
    if from == to {
        return None;
    }
    let mut neg = false;
    let mut start = from;
    if s[from] == '+' || (allow_minus && s[from] == '-') {
        neg = s[from] == '-';
        start = from + 1;
        if start == to {
            return None;
        }
    }
    let ghost digits = s@.subrange(start as int, to as int);
    assert(start > from ==> digits =~= whole.drop_first());
    assert(start == from ==> digits =~= whole);
    let mut acc: i128 = 0;
    let mut overflow = false;
    let mut i = start;
    while i < to
        invariant
            from <= start <= i <= to <= s.len(),
            digits == s@.subrange(start as int, to as int),
            whole == s@.subrange(from as int, to as int),
            start > from ==> digits == whole.drop_first() && (whole[0] == '+' || (allow_minus
                && whole[0] == '-')) && digits.len() > 0,
            start == from ==> digits == whole && !(whole[0] == '+' || (allow_minus && whole[0]
                == '-')) && whole.len() > 0,
            all_digits(s@.subrange(start as int, i as int)),
            !overflow ==> acc == digits_value(s@.subrange(start as int, i as int)),
            !overflow ==> 0 <= acc <= 0x8000_0000_0000_0000,
            overflow ==> digits_value(s@.subrange(start as int, i as int)) > 0x8000_0000_0000_0000,
        decreases to - i,
    {
        let c = s[i];
        if !('0' <= c && c <= '9') {
            proof {
                assert(digits.len() == to - start);
                assert(digits[i - start] == s@[i as int]);
                assert(!is_ascii_digit(digits[i - start]));
                assert(!all_digits(digits));
            }
            return None;
        }
        assert(s@.subrange(start as int, i + 1).drop_last() =~= s@.subrange(start as int, i as int));
        let ghost prev = digits_value(s@.subrange(start as int, i as int));
        proof {
            lemma_digits_value_nonneg(s@.subrange(start as int, i as int));
        }
        if !overflow {
            let d = ((c as u32) - ('0' as u32)) as i128;
            acc = acc * 10 + d;
            if acc > 0x8000_0000_0000_0000 {
                overflow = true;
            }
        }
        i = i + 1;
        assert(all_digits(s@.subrange(start as int, i as int)));
    }
    assert(s@.subrange(start as int, i as int) =~= digits);
    if overflow {
        return None;
    }
    if neg {
        Some(-acc)
    } else {
        Some(acc)
    }
}

pub fn parse_i64_exec(s: &Vec<char>, from: usize, to: usize) -> (r: Option<i64>)
    requires
        from <= to <= s.len(),
    ensures
        r == parse_i64(s@.subrange(from as int, to as int)),
{
    match parse_int_exec(s, from, to, true) {
        Some(v) => if v <= 0x7fff_ffff_ffff_ffff {
            Some(v as i64)
        } else {
            None
        },
        None => None,
    }
}

pub fn parse_u32_exec(s: &Vec<char>, from: usize, to: usize) -> (r: Option<u32>)
    requires
        from <= to <= s.len(),
    ensures
        r == parse_u32(s@.subrange(from as int, to as int)),
{
    match parse_int_exec(s, from, to, false) {
        Some(v) => if 0 <= v && v <= 0xffff_ffff {
            Some(v as u32)
        } else {
            None
        },
        None => None,
    }
}

/// Start of the sanity window for timestamps (1990-01-01).
pub open spec fn epoch_floor() -> int {
    631_152_000
}

/// End of the sanity window for timestamps (2100-01-01).
pub open spec fn epoch_ceiling() -> int {
    4_102_444_800
}

/// Seconds from an integer that may be in seconds, milliseconds or
/// microseconds.
pub open spec fn epoch_seconds(n: int) -> int {
    if n > 20_000_000_000_000 {
        n / 1_000_000
    } else if n > 20_000_000_000 {
        n / 1_000
    } else {
        n
    }
}

/// Epoch seconds from a numeric string, tolerating ms/µs precision; `None`
/// outside 1990..2100.
pub open spec fn epoch_spec(raw: Seq<char>) -> Option<i64> {
    match parse_i64(trim(raw)) {
        Some(n) => {
            let secs = epoch_seconds(n as int);
            if epoch_floor() <= secs < epoch_ceiling() {
                Some(secs as i64)
            } else {
                None
            }
        },
        None => None,
    }
}

proof fn lemma_digit_char_value(d: nat)
    requires
        d < 10,
    ensures
        digit_val(digit_char(d)) == d,
        is_ascii_digit(digit_char(d)),
{
    let c = digit_char(d);
    assert(((d + 48) as u8) as int == d + 48);
    assert(c as int == d + 48);
}

/// The decimal digits of a natural number read back as that number, with
/// nothing to trim.
pub proof fn lemma_digits_read_back(m: nat)
    ensures
        digits(m).len() > 0,
        all_digits(digits(m)),
        digits_value(digits(m)) == m,
        trim(digits(m)) == digits(m),
    decreases m,
{
    if m < 10 {
        lemma_digit_char_value(m);
        assert(digits(m) == seq![digit_char(m)]);
        assert(digits(m).drop_last() =~= Seq::<char>::empty());
        assert(digits_value(digits(m)) == digits_value(Seq::<char>::empty()) * 10 + digit_val(
            digit_char(m),
        ));
    } else {
        lemma_digit_char_value(m % 10);
        lemma_digits_read_back(m / 10);
        let p = digits(m / 10);
        assert(digits(m).drop_last() =~= p);
        assert forall|i: int| 0 <= i < digits(m).len() implies is_ascii_digit(#[trigger] digits(m)[i]) by {
            if i < p.len() {
                assert(digits(m)[i] == p[i]);
            }
        }
        assert(digits(m).last() == digit_char(m % 10));
        assert(digits_value(digits(m)) == digits_value(p) * 10 + digit_val(digit_char(m % 10)));
        assert(m == (m / 10) * 10 + m % 10);
    }
    let d = digits(m);
    assert(!is_ws(d[0]) && !is_ws(d.last()));
    assert(trim_start(d) == d);
    assert(trim_end(d) == d);
}

proof fn lemma_epoch_of_digits(m: nat)
    requires
        m <= i64::MAX,
    ensures
        epoch_spec(digits(m)) == (if epoch_floor() <= epoch_seconds(m as int) < epoch_ceiling() {
            Some(epoch_seconds(m as int) as i64)
        } else {
            None
        }),
{
    lemma_digits_read_back(m);
    let d = digits(m);
    assert(!(d[0] == '+' || d[0] == '-'));
    assert(parse_int(d, true) == Some(m as int));
}

/// A timestamp written in seconds, milliseconds or microseconds reads back
/// as the same second, anywhere in the 1990..2100 window.
pub proof fn lemma_epoch_round_trip(n: int)
    requires
        epoch_floor() <= n < epoch_ceiling(),
    ensures
        epoch_spec(digits(n as nat)) == Some(n as i64),
        epoch_spec(digits((n * 1000) as nat)) == Some(n as i64),
        epoch_spec(digits((n * 1_000_000) as nat)) == Some(n as i64),
{
    lemma_epoch_of_digits(n as nat);
    assert((n * 1000) / 1000 == n) by (nonlinear_arith);
    assert((n * 1_000_000) / 1_000_000 == n) by (nonlinear_arith);
    assert(n * 1000 <= 4_102_444_800_000) by (nonlinear_arith)
        requires
            n < 4_102_444_800,
    ;
    assert(n * 1000 >= 631_152_000_000) by (nonlinear_arith)
        requires
            n >= 631_152_000,
    ;
    assert(n * 1_000_000 <= 4_102_444_800_000_000) by (nonlinear_arith)
        requires
            n < 4_102_444_800,
    ;
    assert(n * 1_000_000 >= 631_152_000_000_000) by (nonlinear_arith)
        requires
            n >= 631_152_000,
    ;
    lemma_epoch_of_digits((n * 1000) as nat);
    lemma_epoch_of_digits((n * 1_000_000) as nat);
}

pub fn epoch_of_chars(raw: &Vec<char>) -> (r: Option<i64>)
    ensures
        r == epoch_spec(raw@),
        r matches Some(v) ==> epoch_floor() <= v < epoch_ceiling(),
{
    let t = trim_vec(raw);
    assert(t@.subrange(0, t.len() as int) =~= t@);
    let n = match parse_i64_exec(&t, 0, t.len()) {
        Some(n) => n,
        None => {
            return None;
        },
    };
    let secs = if n > 20_000_000_000_000 {
        n / 1_000_000
    } else if n > 20_000_000_000 {
        n / 1_000
    } else {
        n
    };
    if 631_152_000 <= secs && secs < 4_102_444_800 {
        Some(secs)
    } else {
        None
    }
}

// ---------------------------------------------------------------- items --

/// One parsed bookmark, ready to be merged into the vault.
#[derive(Debug, Clone, PartialEq)]
pub struct ImportItem {
    pub url: String,
    pub title: String,
    pub description: String,
    pub notes: String,
    pub tags: Vec<String>,
    pub favorite: bool,
    /// Original save time (unix seconds), when the source provides one.
    pub created_at: Option<i64>,
}

/// The value of an [`ImportItem`], with strings as character sequences.
pub struct ImportItemView {
    pub url: Seq<char>,
    pub title: Seq<char>,
    pub description: Seq<char>,
    pub notes: Seq<char>,
    pub tags: Seq<Seq<char>>,
    pub favorite: bool,
    pub created_at: Option<i64>,
}

impl View for ImportItem {
    type V = ImportItemView;

    open spec fn view(&self) -> ImportItemView {
        ImportItemView {
            url: self.url@,
            title: self.title@,
            description: self.description@,
            notes: self.notes@,
            tags: string_views(self.tags@),
            favorite: self.favorite,
            created_at: self.created_at,
        }
    }
}

impl Default for ImportItem {
    fn default() -> (r: ImportItem)
        ensures
            r@ == (ImportItemView {
                url: seq![],
                title: seq![],
                description: seq![],
                notes: seq![],
                tags: seq![],
                favorite: false,
                created_at: None,
            }),
    {
        let r = ImportItem {
            url: String::new(),
            title: String::new(),
            description: String::new(),
            notes: String::new(),
            tags: Vec::new(),
            favorite: false,
            created_at: None,
        };
        assert(string_views(r.tags@) =~= Seq::<Seq<char>>::empty());
        r
    }
}

pub open spec fn item_views(v: Seq<ImportItem>) -> Seq<ImportItemView> {
    Seq::new(v.len(), |i: int| v[i]@)
}

#[derive(Debug, Clone, Copy, PartialEq, Eq)]
pub enum ImportFormat {
    NetscapeHtml,
    RaindropCsv,
    PocketCsv,
    GenericCsv,
    UrlList,
}

/// The name a format is shown under.
pub open spec fn format_label(f: ImportFormat) -> Seq<char> {
    match f {
        ImportFormat::NetscapeHtml => "Browser bookmarks (HTML)"@,
        ImportFormat::RaindropCsv => "Raindrop.io CSV"@,
        ImportFormat::PocketCsv => "Pocket CSV"@,
        ImportFormat::GenericCsv => "CSV"@,
        ImportFormat::UrlList => "URL list"@,
    }
}

impl ImportFormat {
    pub fn label(self) -> (r: &'static str)
        ensures
            r@ == format_label(self),
    {
        match self {
            ImportFormat::NetscapeHtml => "Browser bookmarks (HTML)",
            ImportFormat::RaindropCsv => "Raindrop.io CSV",
            ImportFormat::PocketCsv => "Pocket CSV",
            ImportFormat::GenericCsv => "CSV",
            ImportFormat::UrlList => "URL list",
        }
    }
}

/// Outcome of an import (or a dry-run preview).
#[derive(Debug, Clone, Copy)]
pub struct ImportReport {
    pub total: u32,
    /// Saves that did not exist in the vault yet.
    pub new: u32,
    /// Saves whose URL was already in the vault (merged, never overwritten).
    pub existing: u32,
    /// Entries with no usable http(s) URL.
    pub invalid: u32,
}

impl Default for ImportReport {
    fn default() -> (r: ImportReport)
        ensures
            r.total == 0 && r.new == 0 && r.existing == 0 && r.invalid == 0,
    {
        ImportReport { total: 0, new: 0, existing: 0, invalid: 0 }
    }
}

// --------------------------------------------------------------- folders --

/// Folder names that carry no meaning as tags (compared in lowercase).
pub open spec fn is_generic_folder(name: Seq<char>) -> bool {
    ||| name == "bookmarks"@
    ||| name == "bookmarks bar"@
    ||| name == "bookmarks menu"@
    ||| name == "bookmarks toolbar"@
    ||| name == "other bookmarks"@
    ||| name == "mobile bookmarks"@
    ||| name == "unsorted bookmarks"@
    ||| name == "favorites bar"@
    ||| name == "reading list"@
    ||| name == "imported"@
    ||| name == "unfiled"@
}

pub fn is_generic_folder_exec(name: &Vec<char>) -> (r: bool)
    ensures
        r == is_generic_folder(name@),
{
    eq_chars(name, &chars_of("bookmarks")) || eq_chars(name, &chars_of("bookmarks bar"))
        || eq_chars(name, &chars_of("bookmarks menu")) || eq_chars(
        name,
        &chars_of("bookmarks toolbar"),
    ) || eq_chars(name, &chars_of("other bookmarks")) || eq_chars(
        name,
        &chars_of("mobile bookmarks"),
    ) || eq_chars(name, &chars_of("unsorted bookmarks")) || eq_chars(
        name,
        &chars_of("favorites bar"),
    ) || eq_chars(name, &chars_of("reading list")) || eq_chars(name, &chars_of("imported"))
        || eq_chars(name, &chars_of("unfiled"))
}

/// A folder becomes a tag unless it is unnamed or generic.
pub open spec fn folder_is_tag(f: Seq<char>) -> bool {
    f.len() > 0 && !is_generic_folder(lower(f))
}

/// The enclosing folders that become tags, outermost first.
pub open spec fn folder_tags(folders: Seq<Seq<char>>) -> Seq<Seq<char>>
    decreases folders.len(),
{
    if folders.len() == 0 {
        seq![]
    } else {
        let rest = folder_tags(folders.drop_last());
        if folder_is_tag(folders.last()) {
            rest.push(folders.last())
        } else {
            rest
        }
    }
}

fn folder_tags_exec(folders: &Vec<Vec<char>>) -> (r: Vec<Vec<char>>)
    ensures
        vec_views(r@) == folder_tags(vec_views(folders@)),
{
    let mut out: Vec<Vec<char>> = Vec::new();
    let mut i: usize = 0;
    while i < folders.len()
        invariant
            i <= folders.len(),
            vec_views(out@) == folder_tags(vec_views(folders@).take(i as int)),
        decreases folders.len() - i,
    {
        assert(vec_views(folders@).take(i + 1).drop_last() =~= vec_views(folders@).take(i as int));
        let f = &folders[i];
        let keep = f.len() > 0 && !is_generic_folder_exec(&lower_vec(f));
        if keep {
            out.push(f.clone());
            assert(vec_views(out@) =~= folder_tags(vec_views(folders@).take(i + 1)));
        }
        i = i + 1;
    }
    assert(vec_views(folders@).take(folders.len() as int) =~= vec_views(folders@));
    out
}

// ------------------------------------------------------------------ HTML --

pub open spec fn pat_h3() -> Seq<char> {
    seq!['<', 'h', '3']
}

pub open spec fn pat_close_h3() -> Seq<char> {
    seq!['<', '/', 'h', '3']
}

pub open spec fn pat_dl() -> Seq<char> {
    seq!['<', 'd', 'l']
}

pub open spec fn pat_close_dl() -> Seq<char> {
    seq!['<', '/', 'd', 'l']
}

pub open spec fn pat_a() -> Seq<char> {
    seq!['<', 'a']
}

pub open spec fn pat_close_a() -> Seq<char> {
    seq!['<', '/', 'a']
}

pub open spec fn name_href() -> Seq<char> {
    seq!['h', 'r', 'e', 'f']
}

pub open spec fn name_tags() -> Seq<char> {
    seq!['t', 'a', 'g', 's']
}

pub open spec fn name_add_date() -> Seq<char> {
    seq!['a', 'd', 'd', '_', 'd', 'a', 't', 'e']
}

pub open spec fn name_time_added() -> Seq<char> {
    seq!['t', 'i', 'm', 'e', '_', 'a', 'd', 'd', 'e', 'd']
}

pub open spec fn http_prefix() -> Seq<char> {
    seq!['h', 't', 't', 'p', ':', '/', '/']
}

pub open spec fn https_prefix() -> Seq<char> {
    seq!['h', 't', 't', 'p', 's', ':', '/', '/']
}

pub open spec fn is_web_url(url: Seq<char>) -> bool {
    starts_with(url, http_prefix()) || starts_with(url, https_prefix())
}

pub open spec fn is_anchor_gap(c: char) -> bool {
    c == ' ' || c == '\t' || c == '\n' || c == '\r'
}

/// First `<a` followed by whitespace (so `<area>` etc. don't match).
pub open spec fn find_anchor(l: Seq<char>, from: int) -> Option<int>
    decreases l.len() + 1 - from,
{
    if from < 0 {
        None
    } else {
        match find_from(l, pat_a(), from) {
            None => None,
            Some(i) => {
                proof {
                    lemma_find_from_bounds(l, pat_a(), from);
                }
                if i + 2 < l.len() && is_anchor_gap(l[i + 2]) {
                    Some(i)
                } else {
                    find_anchor(l, i + 2)
                }
            },
        }
    }
}

pub proof fn lemma_find_anchor(l: Seq<char>, from: int)
    requires
        0 <= from,
    ensures
        find_anchor(l, from) matches Some(i) ==> from <= i && i + 2 < l.len(),
    decreases l.len() + 1 - from,
{
    lemma_find_from_bounds(l, pat_a(), from);
    match find_from(l, pat_a(), from) {
        None => {},
        Some(i) => {
            if !(i + 2 < l.len() && is_anchor_gap(l[i + 2])) {
                lemma_find_anchor(l, i + 2);
            }
        },
    }
}

fn find_anchor_exec(l: &Vec<char>, from: usize) -> (r: Option<usize>)
    ensures
        r matches Some(i) ==> find_anchor(l@, from as int) == Some(i as int),
        r is None ==> find_anchor(l@, from as int) is None,
{
    let pat = vec!['<', 'a'];
    assert(pat@ == pat_a());
    let mut pos = from;
    loop
        invariant
            pat@ == pat_a(),
            from <= pos,
            find_anchor(l@, from as int) == find_anchor(l@, pos as int),
        decreases l.len() + 1 - pos,
    {
        match find_from_exec(l, &pat, pos) {
            None => {
                return None;
            },
            Some(i) => {
                proof {
                    lemma_find_from_bounds(l@, pat_a(), pos as int);
                }
                if i + 2 < l.len() && (l[i + 2] == ' ' || l[i + 2] == '\t' || l[i + 2] == '\n'
                    || l[i + 2] == '\r') {
                    return Some(i);
                }
                pos = i + 2;
            },
        }
    }
}

/// Inner text of the element starting at `start` and the position after
/// it: up to `close` when present, else up to the next `<`.
pub open spec fn element_text(c: Seq<char>, start: int, close: Seq<char>) -> (Seq<char>, int) {
    let l = lower(c);
    match find_from(l, seq!['>'], start) {
        None => (seq![], l.len() as int),
        Some(oe) => match find_from(l, close, oe) {
            Some(cl) => (c.subrange(oe + 1, cl), cl + close.len()),
            None => {
                let te = match find_from(l, seq!['<'], oe + 1) {
                    Some(t) => t,
                    None => l.len() as int,
                };
                (c.subrange(oe + 1, te), te)
            },
        },
    }
}

pub proof fn lemma_element_text(c: Seq<char>, start: int, close: Seq<char>)
    requires
        0 <= start < c.len(),
        close.len() > 0,
        close[0] == '<',
    ensures
        start < element_text(c, start, close).1 <= c.len(),
{
    let l = lower(c);
    lemma_find_from_bounds(l, seq!['>'], start);
    match find_from(l, seq!['>'], start) {
        None => {},
        Some(oe) => {
            lemma_find_from_bounds(l, close, oe);
            lemma_find_from_bounds(l, seq!['<'], oe + 1);
        },
    }
}

fn element_text_exec(c: &Vec<char>, l: &Vec<char>, start: usize, close: &Vec<char>) -> (r: (
    Vec<char>,
    usize,
))
    requires
        l@ == lower(c@),
        start < c.len(),
        close.len() > 0,
        close@[0] == '<',
    ensures
        r.0@ == element_text(c@, start as int, close@).0,
        r.1 == element_text(c@, start as int, close@).1,
        start < r.1 <= c.len(),
{
    proof {
        lemma_element_text(c@, start as int, close@);
    }
    let gt = vec!['>'];
    let lt = vec!['<'];
    assert(gt@ == seq!['>'] && lt@ == seq!['<']);
    match find_from_exec(l, &gt, start) {
        None => (Vec::new(), l.len()),
        Some(oe) => {
            proof {
                lemma_find_from_bounds(l@, gt@, start as int);
                lemma_find_from_bounds(l@, close@, oe as int);
                lemma_find_from_bounds(l@, lt@, oe + 1);
            }
            match find_from_exec(l, close, oe) {
                Some(cl) => {
                    assert(l@[cl as int] == close@[0]);
                    (slice_chars(c, oe + 1, cl), cl + close.len())
                },
                None => {
                    let te = match find_from_exec(l, &lt, oe + 1) {
                        Some(t) => t,
                        None => l.len(),
                    };
                    (slice_chars(c, oe + 1, te), te)
                },
            }
        },
    }
}

pub open spec fn min_pos(a: Option<int>, b: Option<int>) -> Option<int> {
    match (a, b) {
        (None, x) => x,
        (x, None) => x,
        (Some(p), Some(q)) => Some(if p <= q { p } else { q }),
    }
}

fn min_pos_exec(a: Option<usize>, b: Option<usize>) -> (r: Option<usize>)
    ensures
        opt_int(r) == min_pos(opt_int(a), opt_int(b)),
{
    match (a, b) {
        (None, x) => x,
        (x, None) => x,
        (Some(p), Some(q)) => Some(if p <= q { p } else { q }),
    }
}

pub open spec fn opt_int(a: Option<usize>) -> Option<int> {
    match a {
        Some(v) => Some(v as int),
        None => None,
    }
}

/// `add_date`, else `time_added`, as epoch seconds.
pub open spec fn html_created_at(tag: Seq<char>) -> Option<i64> {
    match attr_spec(tag, name_add_date()) {
        Some(v) => epoch_spec(v),
        None => match attr_spec(tag, name_time_added()) {
            Some(v) => epoch_spec(v),
            None => None,
        },
    }
}

/// The bookmark for an `<a>` element.
pub open spec fn html_item(url: Seq<char>, text: Seq<char>, folders: Seq<Seq<char>>, tag: Seq<
    char,
>) -> ImportItemView {
    ImportItemView {
        url: url,
        title: decode_entities(trim(text)),
        description: seq![],
        notes: seq![],
        tags: folder_tags(folders) + match attr_spec(tag, name_tags()) {
            Some(t) => split_tags(t),
            None => seq![],
        },
        favorite: false,
        created_at: html_created_at(tag),
    }
}

/// The Netscape bookmark scanner from position `pos` on, with the stack of
/// open folders and the folder name read from the latest `<h3>`.
pub open spec fn netscape_from(
    c: Seq<char>,
    pos: int,
    folders: Seq<Seq<char>>,
    pending: Option<Seq<char>>,
) -> Seq<ImportItemView>
    decreases c.len() - pos,
{
    let l = lower(c);
    if pos < 0 || pos >= c.len() {
        seq![]
    } else {
        let h3 = find_from(l, pat_h3(), pos);
        let a = find_anchor(l, pos);
        let dl_open = find_from(l, pat_dl(), pos);
        let dl_close = find_from(l, pat_close_dl(), pos);
        proof {
            lemma_find_from_bounds(l, pat_h3(), pos);
            lemma_find_anchor(l, pos);
            lemma_find_from_bounds(l, pat_dl(), pos);
            lemma_find_from_bounds(l, pat_close_dl(), pos);
        }
        match min_pos(min_pos(h3, a), min_pos(dl_open, dl_close)) {
            None => seq![],
            Some(next) => {
                if dl_close == Some(next) {
                    let popped = if folders.len() > 0 {
                        folders.drop_last()
                    } else {
                        folders
                    };
                    netscape_from(c, next + 4, popped, pending)
                } else if dl_open == Some(next) {
                    let opened = match pending {
                        Some(f) => f,
                        None => seq![],
                    };
                    netscape_from(c, next + 3, folders.push(opened), None)
                } else if h3 == Some(next) {
                    proof {
                        lemma_element_text(c, next, pat_close_h3());
                    }
                    let (text, end) = element_text(c, next, pat_close_h3());
                    netscape_from(c, end, folders, Some(decode_entities(trim(text))))
                } else {
                    match find_from(l, seq!['>'], next) {
                        None => seq![],
                        Some(tag_end) => {
                            proof {
                                lemma_element_text(c, next, pat_close_a());
                            }
                            let tag = c.subrange(next, tag_end);
                            let (text, end) = element_text(c, next, pat_close_a());
                            let rest = netscape_from(c, end, folders, pending);
                            match attr_spec(tag, name_href()) {
                                Some(url) => if is_web_url(url) {
                                    seq![html_item(url, text, folders, tag)] + rest
                                } else {
                                    rest
                                },
                                None => rest,
                            }
                        },
                    }
                }
            },
        }
    }
}

/// What every bookmark read from an HTML export looks like: an http(s)
/// URL, no description, notes or star, only non-empty tags, and a date
/// (when there is one) inside the 1990..2100 window.
pub open spec fn html_item_shape(it: ImportItemView) -> bool {
    &&& is_web_url(it.url)
    &&& it.description.len() == 0
    &&& it.notes.len() == 0
    &&& !it.favorite
    &&& forall|k: int| 0 <= k < it.tags.len() ==> (#[trigger] it.tags[k]).len() > 0
    &&& it.created_at matches Some(t) ==> epoch_floor() <= t < epoch_ceiling()
}

proof fn lemma_folder_tags_nonempty(folders: Seq<Seq<char>>)
    ensures
        forall|k: int| 0 <= k < folder_tags(folders).len() ==> (#[trigger] folder_tags(folders)[k]).len() > 0,
    decreases folders.len(),
{
    if folders.len() > 0 {
        lemma_folder_tags_nonempty(folders.drop_last());
        let rest = folder_tags(folders.drop_last());
        assert forall|k: int| 0 <= k < folder_tags(folders).len() implies (#[trigger] folder_tags(
            folders,
        )[k]).len() > 0 by {
            if k < rest.len() {
                assert(folder_tags(folders)[k] == rest[k]);
            }
        }
    }
}

proof fn lemma_nonempty_trimmed(pieces: Seq<Seq<char>>)
    ensures
        forall|k: int|
            0 <= k < nonempty_trimmed(pieces).len() ==> (#[trigger] nonempty_trimmed(pieces)[k]).len() > 0,
    decreases pieces.len(),
{
    if pieces.len() > 0 {
        lemma_nonempty_trimmed(pieces.drop_last());
        let rest = nonempty_trimmed(pieces.drop_last());
        assert forall|k: int| 0 <= k < nonempty_trimmed(pieces).len() implies (
        #[trigger] nonempty_trimmed(pieces)[k]).len() > 0 by {
            if k < rest.len() {
                assert(nonempty_trimmed(pieces)[k] == rest[k]);
            }
        }
    }
}

proof fn lemma_html_item_shape(url: Seq<char>, text: Seq<char>, folders: Seq<Seq<char>>, tag: Seq<char>)
    requires
        is_web_url(url),
    ensures
        html_item_shape(html_item(url, text, folders, tag)),
{
    let it = html_item(url, text, folders, tag);
    lemma_folder_tags_nonempty(folders);
    let ft = folder_tags(folders);
    let at = match attr_spec(tag, name_tags()) {
        Some(t) => split_tags(t),
        None => seq![],
    };
    match attr_spec(tag, name_tags()) {
        Some(t) => lemma_nonempty_trimmed(tag_pieces(t)),
        None => {},
    }
    assert forall|k: int| 0 <= k < it.tags.len() implies (#[trigger] it.tags[k]).len() > 0 by {
        if k < ft.len() {
            assert(it.tags[k] == ft[k]);
        } else {
            assert(it.tags[k] == at[k - ft.len()]);
        }
    }
}

/// Every bookmark the HTML parser yields has the shape of
/// `html_item_shape`.
pub proof fn lemma_netscape_items_shape(
    c: Seq<char>,
    pos: int,
    folders: Seq<Seq<char>>,
    pending: Option<Seq<char>>,
)
    ensures
        forall|i: int|
            0 <= i < netscape_from(c, pos, folders, pending).len() ==> html_item_shape(
                #[trigger] netscape_from(c, pos, folders, pending)[i],
            ),
    decreases c.len() - pos,
{
    let l = lower(c);
    if pos < 0 || pos >= c.len() {
    } else {
        let h3 = find_from(l, pat_h3(), pos);
        let a = find_anchor(l, pos);
        let dl_open = find_from(l, pat_dl(), pos);
        let dl_close = find_from(l, pat_close_dl(), pos);
        lemma_find_from_bounds(l, pat_h3(), pos);
        lemma_find_anchor(l, pos);
        lemma_find_from_bounds(l, pat_dl(), pos);
        lemma_find_from_bounds(l, pat_close_dl(), pos);
        let all = netscape_from(c, pos, folders, pending);
        match min_pos(min_pos(h3, a), min_pos(dl_open, dl_close)) {
            None => {},
            Some(next) => {
                if dl_close == Some(next) {
                    let popped = if folders.len() > 0 {
                        folders.drop_last()
                    } else {
                        folders
                    };
                    lemma_netscape_items_shape(c, next + 4, popped, pending);
                    assert(all == netscape_from(c, next + 4, popped, pending));
                } else if dl_open == Some(next) {
                    let opened = match pending {
                        Some(f) => f,
                        None => seq![],
                    };
                    lemma_netscape_items_shape(c, next + 3, folders.push(opened), None);
                    assert(all == netscape_from(c, next + 3, folders.push(opened), None));
                } else if h3 == Some(next) {
                    lemma_element_text(c, next, pat_close_h3());
                    let (text, end) = element_text(c, next, pat_close_h3());
                    lemma_netscape_items_shape(c, end, folders, Some(decode_entities(trim(text))));
                    assert(all == netscape_from(c, end, folders, Some(decode_entities(trim(text)))));
                } else {
                    match find_from(l, seq!['>'], next) {
                        None => {},
                        Some(tag_end) => {
                            lemma_element_text(c, next, pat_close_a());
                            let tag = c.subrange(next, tag_end);
                            let (text, end) = element_text(c, next, pat_close_a());
                            lemma_netscape_items_shape(c, end, folders, pending);
                            let rest = netscape_from(c, end, folders, pending);
                            match attr_spec(tag, name_href()) {
                                Some(url) => if is_web_url(url) {
                                    lemma_html_item_shape(url, text, folders, tag);
                                    let first = html_item(url, text, folders, tag);
                                    assert(all == seq![first] + rest);
                                    assert forall|i: int| 0 <= i < all.len() implies html_item_shape(
                                        #[trigger] all[i],
                                    ) by {
                                        if i > 0 {
                                            assert(all[i] == rest[i - 1]);
                                        }
                                    }
                                } else {
                                    assert(all == rest);
                                },
                                None => {
                                    assert(all == rest);
                                },
                            }
                        },
                    }
                }
            },
        }
    }
}

/// What the Netscape bookmark parser returns for `content`.
pub open spec fn netscape_items(content: Seq<char>) -> Seq<ImportItemView> {
    netscape_from(content, 0, seq![], None)
}

pub open spec fn opt_view(p: Option<Vec<char>>) -> Option<Seq<char>> {
    match p {
        Some(v) => Some(v@),
        None => None,
    }
}

fn concat_vecs(a: Vec<Vec<char>>, b: Vec<Vec<char>>) -> (r: Vec<Vec<char>>)
    ensures
        vec_views(r@) == vec_views(a@) + vec_views(b@),
{
    let mut a = a;
    let mut b = b;
    let ghost a0 = a@;
    let ghost b0 = b@;
    a.append(&mut b);
    assert(vec_views(a@) =~= vec_views(a0) + vec_views(b0));
    a
}

fn html_created_at_exec(tag: &Vec<char>) -> (r: Option<i64>)
    ensures
        r == html_created_at(tag@),
{
    let n_add = vec!['a', 'd', 'd', '_', 'd', 'a', 't', 'e'];
    let n_time = vec!['t', 'i', 'm', 'e', '_', 'a', 'd', 'd', 'e', 'd'];
    assert(n_add@ == name_add_date() && n_time@ == name_time_added());
    match attr_chars(tag, &n_add) {
        Some(v) => epoch_of_chars(&v),
        None => match attr_chars(tag, &n_time) {
            Some(v) => epoch_of_chars(&v),
            None => None,
        },
    }
}

fn make_html_item(url: &Vec<char>, text: &Vec<char>, folders: &Vec<Vec<char>>, tag: &Vec<char>) -> (r:
    ImportItem)
    ensures
        r@ == html_item(url@, text@, vec_views(folders@), tag@),
{
    let title = decode_entities_vec(&trim_vec(text));
    let n_tags = vec!['t', 'a', 'g', 's'];
    assert(n_tags@ == name_tags());
    let from_folders = folder_tags_exec(folders);
    let from_attr: Vec<Vec<char>> = match attr_chars(tag, &n_tags) {
        Some(t) => split_tags_vec(&t),
        None => Vec::new(),
    };
    assert(vec_views(from_attr@) == match attr_spec(tag@, name_tags()) {
        Some(t) => split_tags(t),
        None => seq![],
    });
    let tags = concat_vecs(from_folders, from_attr);
    let created_at = html_created_at_exec(tag);
    ImportItem {
        url: string_of(url),
        title: string_of(&title),
        description: String::new(),
        notes: String::new(),
        tags: strings_of(&tags),
        favorite: false,
        created_at,
    }
}

/// The Netscape scanner: the bookmarks of `content`, in document order.
fn scan_netscape(content: &str) -> (r: Vec<ImportItem>)
    ensures
        item_views(r@) == netscape_items(content@),
        forall|i: int| 0 <= i < r.len() ==> is_web_url(#[trigger] r@[i]@.url),
{
    let c = chars_of(content);
    let l = lower_vec(&c);
    let p_h3 = vec!['<', 'h', '3'];
    let p_close_h3 = vec!['<', '/', 'h', '3'];
    let p_dl = vec!['<', 'd', 'l'];
    let p_close_dl = vec!['<', '/', 'd', 'l'];
    let p_close_a = vec!['<', '/', 'a'];
    let p_gt = vec!['>'];
    let n_href = vec!['h', 'r', 'e', 'f'];
    let p_http = vec!['h', 't', 't', 'p', ':', '/', '/'];
    let p_https = vec!['h', 't', 't', 'p', 's', ':', '/', '/'];
    assert(p_h3@ == pat_h3() && p_close_h3@ == pat_close_h3() && p_dl@ == pat_dl() && p_close_dl@
        == pat_close_dl() && p_close_a@ == pat_close_a() && p_gt@ == seq!['>'] && n_href@
        == name_href() && p_http@ == http_prefix() && p_https@ == https_prefix());
    let mut items: Vec<ImportItem> = Vec::new();
    let mut folders: Vec<Vec<char>> = Vec::new();
    let mut pending: Option<Vec<char>> = None;
    let mut pos: usize = 0;
    assert(vec_views(folders@) =~= seq![]);
    assert(item_views(items@) + netscape_from(c@, 0, vec_views(folders@), opt_view(pending))
        =~= netscape_items(c@));
    while pos < l.len()
        invariant
            c@ == content@,
            l@ == lower(c@),
            l.len() == c.len(),
            p_h3@ == pat_h3() && p_close_h3@ == pat_close_h3() && p_dl@ == pat_dl() && p_close_dl@
                == pat_close_dl() && p_close_a@ == pat_close_a() && p_gt@ == seq!['>'] && n_href@
                == name_href() && p_http@ == http_prefix() && p_https@ == https_prefix(),
            item_views(items@) + netscape_from(c@, pos as int, vec_views(folders@), opt_view(pending))
                == netscape_items(c@),
            forall|i: int| 0 <= i < items.len() ==> is_web_url(#[trigger] items@[i]@.url),
        decreases c.len() - pos,
    {
        let ghost before = item_views(items@);
        let ghost fv = vec_views(folders@);
        let ghost pv = opt_view(pending);
        proof {
            lemma_find_from_bounds(l@, pat_h3(), pos as int);
            lemma_find_anchor(l@, pos as int);
            lemma_find_from_bounds(l@, pat_dl(), pos as int);
            lemma_find_from_bounds(l@, pat_close_dl(), pos as int);
        }
        let h3 = find_from_exec(&l, &p_h3, pos);
        let a = find_anchor_exec(&l, pos);
        let dl_open = find_from_exec(&l, &p_dl, pos);
        let dl_close = find_from_exec(&l, &p_close_dl, pos);
        let next = match min_pos_exec(min_pos_exec(h3, a), min_pos_exec(dl_open, dl_close)) {
            None => {
                assert(item_views(items@) =~= netscape_items(c@));
                return items;
            },
            Some(n) => n,
        };
        if dl_close == Some(next) {
            folders.pop();
            assert(vec_views(folders@) =~= (if fv.len() > 0 {
                fv.drop_last()
            } else {
                fv
            }));
            pos = next + 4;
        } else if dl_open == Some(next) {
            let opened = match pending {
                Some(f) => f,
                None => Vec::new(),
            };
            folders.push(opened);
            pending = None;
            assert(vec_views(folders@) =~= fv.push(match pv {
                Some(f) => f,
                None => seq![],
            }));
            pos = next + 3;
        } else if h3 == Some(next) {
            let (text, end) = element_text_exec(&c, &l, next, &p_close_h3);
            pending = Some(decode_entities_vec(&trim_vec(&text)));
            pos = end;
        } else {
            let tag_end = match find_from_exec(&l, &p_gt, next) {
                None => {
                    assert(item_views(items@) =~= netscape_items(c@));
                    return items;
                },
                Some(t) => t,
            };
            proof {
                lemma_find_from_bounds(l@, seq!['>'], next as int);
            }
            let tag = slice_chars(&c, next, tag_end);
            let (text, end) = element_text_exec(&c, &l, next, &p_close_a);
            let ghost rest = netscape_from(c@, end as int, fv, pv);
            pos = end;
            match attr_chars(&tag, &n_href) {
                Some(url) => {
                    if starts_with_exec(&url, &p_http) || starts_with_exec(&url, &p_https) {
                        let item = make_html_item(&url, &text, &folders, &tag);
                        items.push(item);
                        assert(item_views(items@) =~= before.push(item@));
                        assert(before.push(item@) + rest =~= before + (seq![item@] + rest));
                    }
                },
                None => {},
            }
        }
    }
    assert(item_views(items@) =~= netscape_items(c@));
    items
}

/// Parse the Netscape bookmark format. The structure is:
/// `<H3>folder</H3> <DL> ...entries... </DL>` nested arbitrarily, with
/// entries as `<DT><A HREF="..." ADD_DATE="..." TAGS="...">title</A>`.
/// Pocket's HTML export is a flat `<ul>` of the same `<a>` shape (with
/// `time_added`), which this parser handles for free.
pub fn parse_netscape_html(content: &str) -> (r: Vec<ImportItem>)
    ensures
        item_views(r@) == netscape_items(content@),
        forall|i: int| 0 <= i < r.len() ==> html_item_shape(#[trigger] r@[i]@),
{
    let items = scan_netscape(content);
    proof {
        lemma_netscape_items_shape(content@, 0, seq![], None);
        assert forall|i: int| 0 <= i < items.len() implies html_item_shape(#[trigger] items@[i]@) by {
            assert(item_views(items@)[i] == items@[i]@);
        }
    }
    items
}

// -------------------------------------------------------------- URL list --

/// `s.split(sep)`: the pieces between occurrences of `sep`.
pub open spec fn split_on(s: Seq<char>, sep: char) -> Seq<Seq<char>>
    decreases s.len(),
{
    if s.len() == 0 {
        seq![seq![]]
    } else {
        let prev = split_on(s.drop_last(), sep);
        if s.last() == sep {
            prev.push(seq![])
        } else {
            prev.drop_last().push(prev.last().push(s.last()))
        }
    }
}

pub proof fn lemma_split_on_nonempty(s: Seq<char>, sep: char)
    ensures
        split_on(s, sep).len() >= 1,
    decreases s.len(),
{
    if s.len() > 0 {
        lemma_split_on_nonempty(s.drop_last(), sep);
    }
}

/// `s.split(sep)` as vectors; no piece contains `sep`.
pub fn split_on_exec(s: &Vec<char>, sep: char) -> (r: Vec<Vec<char>>)
    ensures
        vec_views(r@) == split_on(s@, sep),
        forall|i: int, j: int|
            0 <= i < r.len() && 0 <= j < r@[i].len() ==> #[trigger] r@[i]@[j] != sep,
{
    let mut pieces: Vec<Vec<char>> = Vec::new();
    let mut cur: Vec<char> = Vec::new();
    let mut i: usize = 0;
    while i < s.len()
        invariant
            i <= s.len(),
            vec_views(pieces@).push(cur@) == split_on(s@.take(i as int), sep),
            forall|a: int, b: int|
                0 <= a < pieces.len() && 0 <= b < pieces@[a].len() ==> #[trigger] pieces@[a]@[b]
                    != sep,
            forall|b: int| 0 <= b < cur.len() ==> #[trigger] cur@[b] != sep,
        decreases s.len() - i,
    {
        let c = s[i];
        proof {
            assert(s@.take(i + 1).drop_last() =~= s@.take(i as int));
            lemma_split_on_nonempty(s@.take(i as int), sep);
        }
        if c == sep {
            let done = cur;
            pieces.push(done);
            cur = Vec::new();
            assert(vec_views(pieces@).push(cur@) =~= split_on(s@.take(i + 1), sep));
        } else {
            let ghost prev = split_on(s@.take(i as int), sep);
            cur.push(c);
            assert(vec_views(pieces@) =~= prev.drop_last());
            assert(vec_views(pieces@).push(cur@) =~= split_on(s@.take(i + 1), sep));
        }
        i = i + 1;
    }
    assert(s@.take(s.len() as int) =~= s@);
    pieces.push(cur);
    assert(vec_views(pieces@) =~= split_on(s@, sep));
    pieces
}

/// Leading list bullets and quote markers removed (`trim_start_matches`).
pub open spec fn strip_bullets(s: Seq<char>) -> Seq<char>
    decreases s.len(),
{
    if s.len() > 0 && (s[0] == '-' || s[0] == '*' || s[0] == '>') {
        strip_bullets(s.drop_first())
    } else {
        s
    }
}

fn strip_bullets_exec(s: &Vec<char>) -> (r: Vec<char>)
    ensures
        r@ == strip_bullets(s@),
{
    let mut k: usize = 0;
    assert(s@.subrange(0, s.len() as int) =~= s@);
    while k < s.len() && (s[k] == '-' || s[k] == '*' || s[k] == '>')
        invariant
            k <= s.len(),
            strip_bullets(s@) == strip_bullets(s@.subrange(k as int, s.len() as int)),
        decreases s.len() - k,
    {
        assert(s@.subrange(k as int, s.len() as int).drop_first() =~= s@.subrange(
            k + 1,
            s.len() as int,
        ));
        k = k + 1;
    }
    slice_chars(s, k, s.len())
}

pub open spec fn plain_item(url: Seq<char>, title: Seq<char>) -> ImportItemView {
    ImportItemView {
        url: url,
        title: title,
        description: seq![],
        notes: seq![],
        tags: seq![],
        favorite: false,
        created_at: None,
    }
}

/// Index of the first `)` or space at or after `i` (or the length).
pub open spec fn index_of_link_end(s: Seq<char>, i: int) -> int
    decreases s.len() - i,
{
    if i < 0 || i >= s.len() {
        s.len() as int
    } else if s[i] == ')' || s[i] == ' ' {
        i
    } else {
        index_of_link_end(s, i + 1)
    }
}

/// A markdown link `[title](url ...)` whose url starts with `http`.
pub open spec fn markdown_item(line: Seq<char>) -> Option<ImportItemView> {
    if line.len() > 0 && line[0] == '[' {
        let rest = line.drop_first();
        match find_from(rest, seq![']', '('], 0) {
            Some(k) => {
                let after = rest.subrange(k + 2, rest.len() as int);
                let url = after.subrange(0, index_of_link_end(after, 0));
                if starts_with(url, seq!['h', 't', 't', 'p']) {
                    Some(plain_item(url, trim(rest.subrange(0, k))))
                } else {
                    None
                }
            },
            None => None,
        }
    } else {
        None
    }
}

/// Index of the first whitespace at or after `i` (or the length).
pub open spec fn index_of_ws(s: Seq<char>, i: int) -> int
    decreases s.len() - i,
{
    if i < 0 || i >= s.len() {
        s.len() as int
    } else if is_ws(s[i]) {
        i
    } else {
        index_of_ws(s, i + 1)
    }
}

/// The first whitespace-separated token from `i` on that is an http(s) URL.
pub open spec fn first_web_token(s: Seq<char>, i: int) -> Option<Seq<char>>
    decreases s.len() - i,
{
    if i < 0 || i >= s.len() {
        None
    } else if is_ws(s[i]) {
        first_web_token(s, i + 1)
    } else {
        let e = index_of_ws(s, i);
        proof {
            lemma_index_of_ws(s, i);
        }
        if is_web_url(s.subrange(i, e)) {
            Some(s.subrange(i, e))
        } else {
            first_web_token(s, e)
        }
    }
}

pub proof fn lemma_index_of_ws(s: Seq<char>, i: int)
    requires
        0 <= i <= s.len(),
    ensures
        i <= index_of_ws(s, i) <= s.len(),
        i < s.len() && !is_ws(s[i]) ==> i < index_of_ws(s, i),
    decreases s.len() - i,
{
    if i < s.len() && !is_ws(s[i]) {
        lemma_index_of_ws(s, i + 1);
    }
}

pub proof fn lemma_index_of_link_end(s: Seq<char>, i: int)
    requires
        0 <= i <= s.len(),
    ensures
        i <= index_of_link_end(s, i) <= s.len(),
    decreases s.len() - i,
{
    if i < s.len() && !(s[i] == ')' || s[i] == ' ') {
        lemma_index_of_link_end(s, i + 1);
    }
}

/// The line after trimming and removing list bullets.
pub open spec fn clean_line(raw: Seq<char>) -> Seq<char> {
    trim(strip_bullets(trim(raw)))
}

/// The bookmark one line of a URL list yields, if any.
pub open spec fn url_line_item(raw: Seq<char>) -> Option<ImportItemView> {
    let line = clean_line(raw);
    if line.len() == 0 || line[0] == '#' {
        None
    } else {
        match markdown_item(line) {
            Some(it) => Some(it),
            None => match first_web_token(line, 0) {
                Some(url) => Some(plain_item(url, seq![])),
                None => None,
            },
        }
    }
}

pub open spec fn url_list_from_lines(lines: Seq<Seq<char>>) -> Seq<ImportItemView>
    decreases lines.len(),
{
    if lines.len() == 0 {
        seq![]
    } else {
        let rest = url_list_from_lines(lines.drop_last());
        match url_line_item(lines.last()) {
            Some(it) => rest.push(it),
            None => rest,
        }
    }
}

/// What every bookmark read from a URL list looks like: a URL starting
/// with `http` and nothing but a title besides.
pub open spec fn url_list_item_shape(it: ImportItemView) -> bool {
    &&& starts_with(it.url, seq!['h', 't', 't', 'p'])
    &&& it.description.len() == 0 && it.notes.len() == 0 && it.tags.len() == 0
    &&& !it.favorite && it.created_at is None
}

/// The line each bookmark of a URL list comes from.
pub open spec fn url_list_origins(lines: Seq<Seq<char>>) -> Seq<int>
    decreases lines.len(),
{
    if lines.len() == 0 {
        seq![]
    } else {
        let rest = url_list_origins(lines.drop_last());
        match url_line_item(lines.last()) {
            Some(_) => rest.push(lines.len() - 1),
            None => rest,
        }
    }
}

proof fn lemma_first_web_token(s: Seq<char>, i: int)
    ensures
        first_web_token(s, i) matches Some(u) ==> is_web_url(u),
    decreases s.len() - i,
{
    if 0 <= i < s.len() {
        if is_ws(s[i]) {
            lemma_first_web_token(s, i + 1);
        } else {
            lemma_index_of_ws(s, i);
            let e = index_of_ws(s, i);
            if !is_web_url(s.subrange(i, e)) {
                lemma_first_web_token(s, e);
            }
        }
    }
}

proof fn lemma_url_line_item_shape(raw: Seq<char>)
    ensures
        url_line_item(raw) matches Some(it) ==> url_list_item_shape(it),
{
    let line = clean_line(raw);
    if !(line.len() == 0 || line[0] == '#') && markdown_item(line) is None {
        lemma_first_web_token(line, 0);
        match first_web_token(line, 0) {
            Some(u) => {
                assert(u.subrange(0, 4) =~= seq!['h', 't', 't', 'p']) by {
                    if starts_with(u, http_prefix()) {
                        assert(u.subrange(0, 4) =~= http_prefix().subrange(0, 4));
                    } else {
                        assert(u.subrange(0, 4) =~= https_prefix().subrange(0, 4));
                    }
                }
            },
            None => {},
        }
    }
}

/// A URL list yields at most one bookmark per line, in the order of the
/// lines, each read from its own line and shaped as `url_list_item_shape`.
pub proof fn lemma_url_list_lines(lines: Seq<Seq<char>>)
    ensures
        ({
            let items = url_list_from_lines(lines);
            let o = url_list_origins(lines);
            &&& items.len() == o.len() <= lines.len()
            &&& forall|k: int|
                0 <= k < items.len() ==> 0 <= #[trigger] o[k] < lines.len() && url_line_item(lines[o[k]])
                    == Some(items[k])
            &&& forall|k1: int, k2: int| 0 <= k1 < k2 < o.len() ==> #[trigger] o[k1] < #[trigger] o[k2]
            &&& forall|k: int| 0 <= k < items.len() ==> url_list_item_shape(#[trigger] items[k])
        }),
    decreases lines.len(),
{
    if lines.len() > 0 {
        let init = lines.drop_last();
        lemma_url_list_lines(init);
        lemma_url_line_item_shape(lines.last());
        let items = url_list_from_lines(lines);
        let o = url_list_origins(lines);
        let ri = url_list_from_lines(init);
        let ro = url_list_origins(init);
        assert forall|k: int| 0 <= k < ri.len() implies url_line_item(lines[ro[k]]) == Some(ri[k]) by {
            assert(init[ro[k]] == lines[ro[k]]);
        }
        match url_line_item(lines.last()) {
            Some(it) => {
                assert forall|k: int| 0 <= k < items.len() implies 0 <= #[trigger] o[k] < lines.len()
                    && url_line_item(lines[o[k]]) == Some(items[k]) by {
                    if k < ri.len() {
                        assert(o[k] == ro[k] && items[k] == ri[k]);
                    }
                }
                assert forall|k1: int, k2: int| 0 <= k1 < k2 < o.len() implies #[trigger] o[k1]
                    < #[trigger] o[k2] by {
                    assert(o[k1] == ro[k1]);
                    if k2 < ro.len() {
                        assert(o[k2] == ro[k2]);
                    }
                }
                assert forall|k: int| 0 <= k < items.len() implies url_list_item_shape(
                    #[trigger] items[k],
                ) by {
                    if k < ri.len() {
                        assert(items[k] == ri[k]);
                    }
                }
            },
            None => {},
        }
    }
}

/// How many lines `str::lines` finds: the pieces between `\n`, without a
/// final empty piece (a `\r` ending a line does not change the count).
pub open spec fn line_count(content: Seq<char>) -> nat {
    let p = split_on(content, '\n');
    if p.len() > 0 && p.last().len() == 0 {
        (p.len() - 1) as nat
    } else {
        p.len()
    }
}

/// A URL list yields at most one bookmark per line of the text.
pub proof fn lemma_url_list_count(content: Seq<char>)
    ensures
        url_list_items(content).len() <= line_count(content),
{
    let p = split_on(content, '\n');
    lemma_split_on_nonempty(content, '\n');
    lemma_url_list_lines(p);
    if p.last().len() == 0 {
        let e = p.last();
        assert(trim_start(e) == e && trim_end(e) == e);
        assert(strip_bullets(e) == e);
        assert(clean_line(e).len() == 0);
        assert(url_line_item(p.last()) is None);
        lemma_url_list_lines(p.drop_last());
    }
}

/// What the URL-list parser returns: one item per line that holds a markdown
/// link or a bare http(s) URL. Lines are the pieces between `\n`; a `\r`
/// before the `\n` is whitespace and is trimmed with the rest.
pub open spec fn url_list_items(content: Seq<char>) -> Seq<ImportItemView> {
    url_list_from_lines(split_on(content, '\n'))
}

fn index_of_link_end_exec(s: &Vec<char>, i: usize) -> (r: usize)
    requires
        i <= s.len(),
    ensures
        r == index_of_link_end(s@, i as int),
        i <= r <= s.len(),
{
    let mut k = i;
    while k < s.len() && !(s[k] == ')' || s[k] == ' ')
        invariant
            i <= k <= s.len(),
            index_of_link_end(s@, i as int) == index_of_link_end(s@, k as int),
        decreases s.len() - k,
    {
        k = k + 1;
    }
    k
}

fn index_of_ws_exec(s: &Vec<char>, i: usize) -> (r: usize)
    requires
        i <= s.len(),
    ensures
        r == index_of_ws(s@, i as int),
        i <= r <= s.len(),
{
    let mut k = i;
    while k < s.len() && !is_whitespace(s[k])
        invariant
            i <= k <= s.len(),
            index_of_ws(s@, i as int) == index_of_ws(s@, k as int),
        decreases s.len() - k,
    {
        k = k + 1;
    }
    k
}

fn is_web_url_exec(url: &Vec<char>) -> (r: bool)
    ensures
        r == is_web_url(url@),
{
    let p_http = vec!['h', 't', 't', 'p', ':', '/', '/'];
    let p_https = vec!['h', 't', 't', 'p', 's', ':', '/', '/'];
    assert(p_http@ == http_prefix() && p_https@ == https_prefix());
    starts_with_exec(url, &p_http) || starts_with_exec(url, &p_https)
}

fn first_web_token_exec(s: &Vec<char>) -> (r: Option<Vec<char>>)
    ensures
        r matches Some(v) ==> first_web_token(s@, 0) == Some(v@),
        r is None ==> first_web_token(s@, 0) is None,
{
    let mut i: usize = 0;
    while i < s.len()
        invariant
            i <= s.len(),
            first_web_token(s@, 0) == first_web_token(s@, i as int),
        decreases s.len() - i,
    {
        if is_whitespace(s[i]) {
            i = i + 1;
        } else {
            let e = index_of_ws_exec(s, i);
            proof {
                lemma_index_of_ws(s@, i as int);
            }
            let tok = slice_chars(s, i, e);
            if is_web_url_exec(&tok) {
                return Some(tok);
            }
            i = e;
        }
    }
    None
}

fn markdown_item_exec(line: &Vec<char>) -> (r: Option<ImportItem>)
    ensures
        r matches Some(it) ==> markdown_item(line@) == Some(it@),
        r is None ==> markdown_item(line@) is None,
{
    if line.len() > 0 && line[0] == '[' {
        let rest = slice_chars(line, 1, line.len());
        assert(rest@ =~= line@.drop_first());
        let sep = vec![']', '('];
        assert(sep@ == seq![']', '(']);
        match find_from_exec(&rest, &sep, 0) {
            Some(k) => {
                proof {
                    lemma_find_from_bounds(rest@, sep@, 0);
                }
                let after = slice_chars(&rest, k + 2, rest.len());
                let end = index_of_link_end_exec(&after, 0);
                let url = slice_chars(&after, 0, end);
                let http = vec!['h', 't', 't', 'p'];
                assert(http@ == seq!['h', 't', 't', 'p']);
                if starts_with_exec(&url, &http) {
                    let title = trim_vec(&slice_chars(&rest, 0, k));
                    let mut it = ImportItem::default();
                    it.url = string_of(&url);
                    it.title = string_of(&title);
                    assert(it@ == plain_item(url@, title@));
                    Some(it)
                } else {
                    None
                }
            },
            None => None,
        }
    } else {
        None
    }
}

fn url_line_item_exec(raw: &Vec<char>) -> (r: Option<ImportItem>)
    ensures
        r matches Some(it) ==> url_line_item(raw@) == Some(it@),
        r is None ==> url_line_item(raw@) is None,
{
    let line = trim_vec(&strip_bullets_exec(&trim_vec(raw)));
    if line.len() == 0 || line[0] == '#' {
        return None;
    }
    match markdown_item_exec(&line) {
        Some(it) => Some(it),
        None => match first_web_token_exec(&line) {
            Some(url) => {
                let mut it = ImportItem::default();
                it.url = string_of(&url);
                assert(it@ == plain_item(url@, seq![]));
                Some(it)
            },
            None => None,
        },
    }
}

/// One URL per line; markdown links and list bullets allowed.
pub fn parse_url_list(content: &str) -> (r: Vec<ImportItem>)
    ensures
        item_views(r@) == url_list_items(content@),
{
    let c = chars_of(content);
    let lines = split_on_exec(&c, '\n');
    let mut items: Vec<ImportItem> = Vec::new();
    let mut i: usize = 0;
    while i < lines.len()
        invariant
            i <= lines.len(),
            vec_views(lines@) == split_on(content@, '\n'),
            item_views(items@) == url_list_from_lines(vec_views(lines@).take(i as int)),
        decreases lines.len() - i,
    {
        assert(vec_views(lines@).take(i + 1).drop_last() =~= vec_views(lines@).take(i as int));
        assert(vec_views(lines@).take(i + 1).last() == lines@[i as int]@);
        match url_line_item_exec(&lines[i]) {
            Some(it) => {
                let ghost before = item_views(items@);
                items.push(it);
                assert(item_views(items@) =~= before.push(it@));
            },
            None => {},
        }
        i = i + 1;
    }
    assert(vec_views(lines@).take(lines.len() as int) =~= vec_views(lines@));
    items
}

// ------------------------------------------------------------ timestamps --

/// The character index where the UTF-8 byte offset `b` falls, searching
/// from character `k`; `None` when `b` is inside a character or past the end.
pub open spec fn char_index_at_byte(s: Seq<char>, b: int, k: int) -> Option<int>
    decreases s.len() - k,
{
    if k < 0 || k > s.len() {
        None
    } else if utf8_len(s.take(k)) == b {
        Some(k)
    } else if k == s.len() || utf8_len(s.take(k)) > b {
        None
    } else {
        char_index_at_byte(s, b, k + 1)
    }
}

/// The character index of byte offset `b`, when `b` is a char boundary.
pub open spec fn byte_boundary(s: Seq<char>, b: int) -> Option<int> {
    char_index_at_byte(s, b, 0)
}

/// `s.get(a..b)` for byte offsets `a <= b`.
pub open spec fn byte_slice(s: Seq<char>, a: int, b: int) -> Option<Seq<char>> {
    match (byte_boundary(s, a), byte_boundary(s, b)) {
        (Some(i), Some(j)) => Some(s.subrange(i, j)),
        _ => None,
    }
}

/// `&s[..s.len().min(10)]`: the date part of an ISO-8601 timestamp.
pub open spec fn date_part(t: Seq<char>) -> Seq<char> {
    if utf8_len(t) <= 10 {
        t
    } else {
        match byte_boundary(t, 10) {
            Some(k) => t.take(k),
            None => t,
        }
    }
}

/// The date part can be cut off: the text is a date no longer than 10
/// bytes, or its 10th byte ends a character. Any other text has no date.
pub open spec fn timestamp_cut_ok(raw: Seq<char>) -> bool {
    let t = trim(raw);
    t.len() == 0 || all_digits(t) || utf8_len(t) <= 10 || byte_boundary(t, 10) is Some
}

/// Days since 1970-01-01 of a proleptic Gregorian date (Howard Hinnant's
/// civil-days algorithm), for years `>= 0`.
pub open spec fn days_from_civil(y: int, m: int, d: int) -> int {
    let y2 = if m <= 2 {
        y - 1
    } else {
        y
    };
    let era = (if y2 >= 0 {
        y2
    } else {
        y2 - 399
    }) / 400;
    let yoe = y2 - era * 400;
    let mp = (m + 9) % 12;
    let doy = (153 * mp + 2) / 5 + d - 1;
    let doe = yoe * 365 + yoe / 4 - yoe / 100 + doy;
    era * 146097 + doe - 719468
}

/// Value of the `i`-th `:`-separated part of a time, 0 when absent or
/// unparseable.
pub open spec fn time_field(parts: Seq<Seq<char>>, i: int) -> int {
    if 0 <= i < parts.len() {
        match parse_i64(parts[i]) {
            Some(v) => v as int,
            None => 0,
        }
    } else {
        0
    }
}

/// Seconds of the `HH:MM:SS` at bytes 11..19, 0 when there is none.
pub open spec fn time_seconds(t: Seq<char>) -> int {
    match byte_slice(t, 11, 19) {
        Some(tm) => {
            let p = split_on(tm, ':');
            time_field(p, 0) * 3600 + time_field(p, 1) * 60 + time_field(p, 2)
        },
        None => 0,
    }
}

/// Epoch seconds from either a numeric epoch or an ISO-8601 date
/// (`2020-05-01T10:30:00.000Z` / `2020-05-01`), UTC; `None` outside
/// 1990..2100.
pub open spec fn timestamp_spec(raw: Seq<char>) -> Option<i64> {
    let t = trim(raw);
    if t.len() == 0 {
        None
    } else if all_digits(t) {
        epoch_spec(t)
    } else if !timestamp_cut_ok(raw) {
        None
    } else {
        let parts = split_on(date_part(t), '-');
        let y = parse_i64(parts[0]);
        let m = if parts.len() >= 2 {
            parse_u32(parts[1])
        } else {
            None
        };
        let d = if parts.len() >= 3 {
            parse_u32(parts[2])
        } else {
            None
        };
        match (y, m, d) {
            (Some(y), Some(m), Some(d)) => if 1 <= m <= 12 && 1 <= d <= 31 {
                let secs = days_from_civil(y as int, m as int, d as int) * 86400 + time_seconds(
                    t,
                );
                if epoch_floor() <= secs < epoch_ceiling() {
                    Some(secs as i64)
                } else {
                    None
                }
            } else {
                None
            },
            _ => None,
        }
    }
}

pub proof fn lemma_utf8_len_take(s: Seq<char>, k: int)
    requires
        0 <= k < s.len(),
    ensures
        utf8_len(s.take(k + 1)) == utf8_len(s.take(k)) + utf8_width(s[k]),
{
    assert(s.take(k + 1).drop_last() =~= s.take(k));
}

pub proof fn lemma_utf8_len_prefix(s: Seq<char>, k: int)
    requires
        0 <= k <= s.len(),
    ensures
        utf8_len(s.take(k)) <= utf8_len(s),
    decreases s.len(),
{
    if k == s.len() {
        assert(s.take(k) =~= s);
    } else {
        lemma_utf8_len_prefix(s.drop_last(), k);
        assert(s.drop_last().take(k) =~= s.take(k));
    }
}

/// A run of digits and its value read as an epoch is what a timestamp of
/// those digits is.
pub proof fn lemma_timestamp_of_digits(raw: Seq<char>)
    requires
        trim(raw).len() > 0,
        all_digits(trim(raw)),
    ensures
        timestamp_spec(raw) == epoch_spec(raw),
{
    lemma_trim_idempotent(raw);
}

/// The character of the digit of `v` at the given power of ten.
pub open spec fn digit_at(v: int, p: int) -> char {
    digit_char(((v / p) % 10) as nat)
}

/// `YYYY-MM-DD`, zero-padded, as `format!("{:04}-{:02}-{:02}", y, m, d)`
/// writes it for a year below 10000.
pub open spec fn iso_date(y: int, m: int, d: int) -> Seq<char> {
    seq![
        digit_at(y, 1000),
        digit_at(y, 100),
        digit_at(y, 10),
        digit_at(y, 1),
        '-',
        digit_at(m, 10),
        digit_at(m, 1),
        '-',
        digit_at(d, 10),
        digit_at(d, 1),
    ]
}

proof fn lemma_digit_at(v: int, p: int)
    requires
        v >= 0,
        p > 0,
    ensures
        is_ascii_digit(digit_at(v, p)),
        digit_val(digit_at(v, p)) == (v / p) % 10,
{
    assert(0 <= (v / p) % 10 < 10) by (nonlinear_arith)
        requires
            v >= 0,
            p > 0,
    ;
    lemma_digit_char_value(((v / p) % 10) as nat);
}

proof fn lemma_split_on_append(x: Seq<char>, b: Seq<char>, sep: char)
    requires
        forall|i: int| 0 <= i < b.len() ==> b[i] != sep,
    ensures
        split_on(x + b, sep) == split_on(x, sep).drop_last().push(split_on(x, sep).last() + b),
    decreases b.len(),
{
    lemma_split_on_nonempty(x, sep);
    if b.len() == 0 {
        assert(x + b =~= x);
        assert(split_on(x, sep).last() + b =~= split_on(x, sep).last());
        assert(split_on(x, sep).drop_last().push(split_on(x, sep).last()) =~= split_on(x, sep));
    } else {
        let b0 = b.drop_last();
        lemma_split_on_append(x, b0, sep);
        assert((x + b).drop_last() =~= x + b0);
        assert((x + b).last() == b.last());
        let prev = split_on(x + b0, sep);
        assert(prev.last() == split_on(x, sep).last() + b0);
        assert(prev.last().push(b.last()) =~= split_on(x, sep).last() + b);
        assert(prev.drop_last() =~= split_on(x, sep).drop_last());
    }
}

proof fn lemma_char_index_past_end(s: Seq<char>, b: int, k: int)
    requires
        utf8_len(s) < b,
        0 <= k,
    ensures
        char_index_at_byte(s, b, k) is None,
    decreases s.len() - k,
{
    if k <= s.len() {
        lemma_utf8_len_prefix(s, k);
        if k < s.len() {
            lemma_char_index_past_end(s, b, k + 1);
        }
    }
}

proof fn lemma_utf8_len_ascii(s: Seq<char>)
    requires
        forall|i: int| 0 <= i < s.len() ==> (#[trigger] s[i] as u32) < 0x80,
    ensures
        utf8_len(s) == s.len(),
    decreases s.len(),
{
    if s.len() > 0 {
        assert forall|i: int| 0 <= i < s.drop_last().len() implies (#[trigger] s.drop_last()[i] as u32)
            < 0x80 by {
            assert(s.drop_last()[i] == s[i]);
        }
        lemma_utf8_len_ascii(s.drop_last());
        assert((s[s.len() - 1] as u32) < 0x80);
    }
}

/// A `YYYY-MM-DD` date is read as midnight UTC of that day, when that falls
/// inside the 1990..2100 window.
pub proof fn lemma_timestamp_of_iso_date(y: int, m: int, d: int)
    requires
        0 <= y <= 9999,
        1 <= m <= 12,
        1 <= d <= 31,
        epoch_floor() <= days_from_civil(y, m, d) * 86400 < epoch_ceiling(),
    ensures
        timestamp_spec(iso_date(y, m, d)) == Some((days_from_civil(y, m, d) * 86400) as i64),
{
    let s = iso_date(y, m, d);
    lemma_digit_at(y, 1000);
    lemma_digit_at(y, 100);
    lemma_digit_at(y, 10);
    lemma_digit_at(y, 1);
    lemma_digit_at(m, 10);
    lemma_digit_at(m, 1);
    lemma_digit_at(d, 10);
    lemma_digit_at(d, 1);
    // no whitespace at either end, not all digits, all ASCII
    assert(!is_ws(s[0]) && !is_ws(s[9]));
    assert(trim_start(s) == s);
    assert(trim_end(s) == s);
    assert(trim(s) == s);
    assert(!is_ascii_digit(s[4]));
    assert(!all_digits(s));
    assert forall|i: int| 0 <= i < s.len() implies (#[trigger] s[i] as u32) < 0x80 by {
        assert(is_ascii_digit(s[i]) || s[i] == '-');
    }
    lemma_utf8_len_ascii(s);
    assert(timestamp_cut_ok(s));
    assert(date_part(s) == s);
    // the three pieces
    let py = s.take(4);
    let pm = s.subrange(5, 7);
    let pd = s.subrange(8, 10);
    assert forall|i: int| 0 <= i < py.len() implies py[i] != '-' by {
        assert(is_ascii_digit(py[i]));
    }
    assert forall|i: int| 0 <= i < pm.len() implies pm[i] != '-' by {
        assert(is_ascii_digit(pm[i]));
    }
    assert forall|i: int| 0 <= i < pd.len() implies pd[i] != '-' by {
        assert(is_ascii_digit(pd[i]));
    }
    let e = Seq::<char>::empty();
    lemma_split_on_append(e, py, '-');
    assert(e + py =~= py);
    assert(split_on(e, '-') =~= seq![e]);
    assert(split_on(py, '-') =~= seq![py]);
    assert(py.push('-').drop_last() =~= py);
    let a1 = py.push('-');
    assert(split_on(a1, '-') =~= seq![py, e]);
    lemma_split_on_append(a1, pm, '-');
    let a2 = a1 + pm;
    assert(split_on(a2, '-') =~= seq![py, pm]);
    let a3 = a2.push('-');
    assert(a3.drop_last() =~= a2);
    assert(split_on(a3, '-') =~= seq![py, pm, e]);
    lemma_split_on_append(a3, pd, '-');
    assert(a3 + pd =~= s);
    let parts = split_on(s, '-');
    assert(parts =~= seq![py, pm, pd]);
    // their values
    let q1 = seq![s[0]];
    let q2 = seq![s[0], s[1]];
    let q3 = seq![s[0], s[1], s[2]];
    assert(q1.drop_last() =~= e);
    assert(q2.drop_last() =~= q1);
    assert(q3.drop_last() =~= q2);
    assert(py.drop_last() =~= q3);
    assert(s[0] == digit_at(y, 1000) && s[1] == digit_at(y, 100) && s[2] == digit_at(y, 10) && s[3]
        == digit_at(y, 1));
    assert(digits_value(q1) == digits_value(e) * 10 + digit_val(s[0]));
    assert(digits_value(q2) == digits_value(q1) * 10 + digit_val(s[1]));
    assert(digits_value(q3) == digits_value(q2) * 10 + digit_val(s[2]));
    assert(digits_value(py) == digits_value(q3) * 10 + digit_val(py.last()));
    assert(py.last() == s[3]);
    assert((((y / 1000) % 10) * 10 + (y / 100) % 10) * 100 + ((y / 10) % 10) * 10 + (y / 1) % 10
        == y) by (nonlinear_arith)
        requires
            0 <= y <= 9999,
    ;
    assert(digits_value(py) == y);
    let r1 = seq![s[5]];
    assert(r1.drop_last() =~= e);
    assert(pm.drop_last() =~= r1);
    assert(pm.last() == s[6]);
    assert(s[5] == digit_at(m, 10) && s[6] == digit_at(m, 1));
    assert(digits_value(r1) == digits_value(e) * 10 + digit_val(s[5]));
    assert(digits_value(pm) == digits_value(r1) * 10 + digit_val(s[6]));
    assert(((m / 10) % 10) * 10 + (m / 1) % 10 == m) by (nonlinear_arith)
        requires
            1 <= m <= 12,
    ;
    assert(digits_value(pm) == m);
    let t1 = seq![s[8]];
    assert(t1.drop_last() =~= e);
    assert(pd.drop_last() =~= t1);
    assert(pd.last() == s[9]);
    assert(s[8] == digit_at(d, 10) && s[9] == digit_at(d, 1));
    assert(digits_value(t1) == digits_value(e) * 10 + digit_val(s[8]));
    assert(digits_value(pd) == digits_value(t1) * 10 + digit_val(s[9]));
    assert(((d / 10) % 10) * 10 + (d / 1) % 10 == d) by (nonlinear_arith)
        requires
            1 <= d <= 31,
    ;
    assert(digits_value(pd) == d);
    assert(all_digits(py) && all_digits(pm) && all_digits(pd));
    assert(parse_i64(py) == Some(y as i64));
    assert(parse_u32(pm) == Some(m as u32));
    assert(parse_u32(pd) == Some(d as u32));
    // no time of day in a ten-byte text
    lemma_char_index_past_end(s, 11, 0);
    assert(time_seconds(s) == 0);
}

fn byte_boundary_exec(s: &Vec<char>, b: usize) -> (r: Option<usize>)
    requires
        b <= 64,
    ensures
        opt_int(r) == byte_boundary(s@, b as int),
        r matches Some(k) ==> k <= s.len(),
{
    let mut k: usize = 0;
    let mut acc: usize = 0;
    assert(s@.take(0) =~= seq![]);
    loop
        invariant
            k <= s.len(),
            acc == utf8_len(s@.take(k as int)),
            acc <= b <= 64,
            byte_boundary(s@, b as int) == char_index_at_byte(s@, b as int, k as int),
        decreases s.len() - k,
    {
        if acc == b {
            return Some(k);
        }
        if k == s.len() {
            return None;
        }
        proof {
            lemma_utf8_len_take(s@, k as int);
        }
        acc = acc + char_width(s[k]);
        k = k + 1;
        if acc > b {
            return None;
        }
    }
}

fn utf8_len_at_most(s: &Vec<char>, n: usize) -> (r: bool)
    requires
        n <= 64,
    ensures
        r == (utf8_len(s@) <= n),
{
    let mut k: usize = 0;
    let mut acc: usize = 0;
    assert(s@.take(0) =~= seq![]);
    while k < s.len()
        invariant
            k <= s.len(),
            acc == utf8_len(s@.take(k as int)),
            acc <= n <= 64,
        decreases s.len() - k,
    {
        proof {
            lemma_utf8_len_take(s@, k as int);
        }
        acc = acc + char_width(s[k]);
        k = k + 1;
        if acc > n {
            proof {
                lemma_utf8_len_prefix(s@, k as int);
            }
            return false;
        }
    }
    assert(s@.take(s.len() as int) =~= s@);
    true
}

fn all_digits_exec(s: &Vec<char>) -> (r: bool)
    ensures
        r == all_digits(s@),
{
    let mut i: usize = 0;
    while i < s.len()
        invariant
            i <= s.len(),
            forall|j: int| 0 <= j < i ==> is_ascii_digit(#[trigger] s@[j]),
        decreases s.len() - i,
    {
        if !('0' <= s[i] && s[i] <= '9') {
            return false;
        }
        i = i + 1;
    }
    true
}

pub proof fn lemma_parse_int_without_minus(s: Seq<char>)
    requires
        forall|j: int| 0 <= j < s.len() ==> #[trigger] s[j] != '-',
    ensures
        parse_int(s, true) matches Some(v) ==> v >= 0,
{
    if s.len() > 0 {
        if s[0] == '+' {
            if s.drop_first().len() > 0 && all_digits(s.drop_first()) {
                lemma_digits_value_nonneg(s.drop_first());
            }
        } else if all_digits(s) {
            lemma_digits_value_nonneg(s);
        }
    }
}

/// Days since 1970-01-01 (Howard Hinnant's civil-days algorithm).
fn days_from_civil_exec(y: i64, m: u32, d: u32) -> (r: i128)
    requires
        0 <= y,
        1 <= m <= 12,
        1 <= d <= 31,
    ensures
        r == days_from_civil(y as int, m as int, d as int),
{
    let y: i128 = if m <= 2 {
        y as i128 - 1
    } else {
        y as i128
    };
    let era: i128 = (if y >= 0 {
        y
    } else {
        y - 399
    }) / 400;
    let yoe = y - era * 400;
    let mp = (m as i128 + 9) % 12;
    let doy = (153 * mp + 2) / 5 + d as i128 - 1;
    let doe = yoe * 365 + yoe / 4 - yoe / 100 + doy;
    era * 146_097 + doe - 719_468
}

fn time_field_exec(parts: &Vec<Vec<char>>, i: usize) -> (r: i64)
    ensures
        r == time_field(vec_views(parts@), i as int),
{
    if i < parts.len() {
        let p = &parts[i];
        assert(p@.subrange(0, p.len() as int) =~= p@);
        match parse_i64_exec(p, 0, p.len()) {
            Some(v) => v,
            None => 0,
        }
    } else {
        0
    }
}

/// Epoch seconds from either a numeric epoch or an ISO-8601 date.
pub fn timestamp_of_chars(raw: &Vec<char>) -> (r: Option<i64>)
    ensures
        r == timestamp_spec(raw@),
        r matches Some(v) ==> epoch_floor() <= v < epoch_ceiling(),
{
    let t = trim_vec(raw);
    if t.len() == 0 {
        return None;
    }
    if all_digits_exec(&t) {
        return epoch_of_chars(&t);
    }
    let date = if utf8_len_at_most(&t, 10) {
        slice_chars(&t, 0, t.len())
    } else {
        match byte_boundary_exec(&t, 10) {
            Some(k) => slice_chars(&t, 0, k),
            None => {
                return None;
            },
        }
    };
    assert(t@.subrange(0, t.len() as int) =~= t@);
    assert(date@ == date_part(t@));
    let parts = split_on_exec(&date, '-');
    proof {
        lemma_split_on_nonempty(date@, '-');
    }
    let p0 = &parts[0];
    assert(p0@.subrange(0, p0.len() as int) =~= p0@);
    let y = match parse_i64_exec(p0, 0, p0.len()) {
        Some(y) => y,
        None => {
            return None;
        },
    };
    proof {
        assert forall|j: int| 0 <= j < p0@.len() implies #[trigger] p0@[j] != '-' by {
            assert(parts@[0]@[j] != '-');
        }
        lemma_parse_int_without_minus(p0@);
    }
    if parts.len() < 2 {
        return None;
    }
    let p1 = &parts[1];
    assert(p1@.subrange(0, p1.len() as int) =~= p1@);
    let m = match parse_u32_exec(p1, 0, p1.len()) {
        Some(m) => m,
        None => {
            return None;
        },
    };
    if parts.len() < 3 {
        return None;
    }
    let p2 = &parts[2];
    assert(p2@.subrange(0, p2.len() as int) =~= p2@);
    let d = match parse_u32_exec(p2, 0, p2.len()) {
        Some(d) => d,
        None => {
            return None;
        },
    };
    if !(1 <= m && m <= 12) || !(1 <= d && d <= 31) {
        return None;
    }
    let mut secs: i128 = days_from_civil_exec(y, m, d) * 86_400;
    let from = byte_boundary_exec(&t, 11);
    let to = byte_boundary_exec(&t, 19);
    let ghost ts = time_seconds(t@);
    match (from, to) {
        (Some(a), Some(b)) => {
            if a <= b {
                let time = slice_chars(&t, a, b);
                let tp = split_on_exec(&time, ':');
                let h = time_field_exec(&tp, 0);
                let mi = time_field_exec(&tp, 1);
                let sec = time_field_exec(&tp, 2);
                secs = secs + (h as i128) * 3600 + (mi as i128) * 60 + sec as i128;
            } else {
                // byte offset 11 always precedes byte offset 19
                proof {
                    lemma_byte_boundary_monotone(t@, 11, 19);
                }
            }
        },
        _ => {},
    }
    if 631_152_000 <= secs && secs < 4_102_444_800 {
        Some(secs as i64)
    } else {
        None
    }
}

pub proof fn lemma_char_index_ge(s: Seq<char>, b: int, k: int)
    ensures
        char_index_at_byte(s, b, k) matches Some(j) ==> k <= j,
    decreases s.len() - k,
{
    if 0 <= k < s.len() && utf8_len(s.take(k)) < b {
        lemma_char_index_ge(s, b, k + 1);
    }
}

pub proof fn lemma_char_index_monotone(s: Seq<char>, a: int, b: int, k: int)
    requires
        0 <= k <= s.len(),
        a <= b,
        utf8_len(s.take(k)) <= a,
        char_index_at_byte(s, a, k) is Some,
        char_index_at_byte(s, b, k) is Some,
    ensures
        char_index_at_byte(s, a, k)->0 <= char_index_at_byte(s, b, k)->0,
    decreases s.len() - k,
{
    lemma_char_index_ge(s, b, k);
    if utf8_len(s.take(k)) == a {
    } else {
        assert(k < s.len());
        assert(char_index_at_byte(s, a, k) == char_index_at_byte(s, a, k + 1));
        assert(char_index_at_byte(s, b, k) == char_index_at_byte(s, b, k + 1));
        lemma_utf8_len_take(s, k);
        if utf8_len(s.take(k + 1)) <= a {
            lemma_char_index_monotone(s, a, b, k + 1);
        } else {
            assert(char_index_at_byte(s, a, k + 1) is None);
        }
    }
}

pub proof fn lemma_byte_boundary_monotone(s: Seq<char>, a: int, b: int)
    requires
        0 <= a <= b,
        byte_boundary(s, a) is Some,
        byte_boundary(s, b) is Some,
    ensures
        byte_boundary(s, a)->0 <= byte_boundary(s, b)->0,
{
    assert(s.take(0) =~= seq![]);
    lemma_char_index_monotone(s, a, b, 0);
}

// ------------------------------------------------------------------- CSV --

/// The header record and the data records that the `csv` crate reads from
/// `content` (a flexible reader with default options; records it cannot
/// read are skipped); `None` when it cannot read a header record.
pub uninterp spec fn csv_table(content: Seq<char>) -> Option<(Seq<Seq<char>>, Seq<Seq<Seq<char>>>)>;

pub open spec fn rows_views(rows: Seq<Vec<String>>) -> Seq<Seq<Seq<char>>> {
    Seq::new(rows.len(), |i: int| string_views(rows[i]@))
}

/// Reads `content` with `csv::ReaderBuilder::new().flexible(true)`: the
/// header record and every record that reads without error, as strings.
/// The contract names the result `csv_table(content)` and states nothing
/// more of it: CSV parsing is the `csv` crate's.
#[verifier::external_body]
fn read_csv_table(content: &str) -> (r: Option<(Vec<String>, Vec<Vec<String>>)>)
    ensures
        r matches Some((h, rows)) ==> csv_table(content@) == Some(
            (string_views(h@), rows_views(rows@)),
        ),
        r is None ==> csv_table(content@) is None,
{
    let mut reader = csv::ReaderBuilder::new().flexible(true).from_reader(content.as_bytes());
    let headers: Vec<String> = reader.headers().ok()?.iter().map(String::from).collect();
    let rows: Vec<Vec<String>> = reader.records().flatten().map(
        |rec| rec.iter().map(String::from).collect(),
    ).collect();
    Some((headers, rows))
}

/// A header cell as matched against column names.
pub open spec fn header_key(h: Seq<char>) -> Seq<char> {
    lower(trim(h))
}

pub open spec fn col_from(headers: Seq<Seq<char>>, name: Seq<char>, i: int) -> Option<int>
    decreases headers.len() - i,
{
    if i < 0 || i >= headers.len() {
        None
    } else if header_key(headers[i]) == name {
        Some(i)
    } else {
        col_from(headers, name, i + 1)
    }
}

/// Index of the first column named `name`.
pub open spec fn col(headers: Seq<Seq<char>>, name: Seq<char>) -> Option<int> {
    col_from(headers, name, 0)
}

pub open spec fn or_col(a: Option<int>, b: Option<int>) -> Option<int> {
    match a {
        Some(x) => Some(x),
        None => b,
    }
}

/// A trimmed cell; empty when the column or the cell is missing.
pub open spec fn field(row: Seq<Seq<char>>, c: Option<int>) -> Seq<char> {
    match c {
        Some(i) => if 0 <= i < row.len() {
            trim(row[i])
        } else {
            seq![]
        },
        None => seq![],
    }
}

pub open spec fn note_col(h: Seq<Seq<char>>) -> Option<int> {
    or_col(col(h, "note"@), col(h, "notes"@))
}

pub open spec fn excerpt_col(h: Seq<Seq<char>>) -> Option<int> {
    or_col(col(h, "excerpt"@), col(h, "description"@))
}

pub open spec fn created_col(h: Seq<Seq<char>>) -> Option<int> {
    or_col(or_col(or_col(col(h, "created"@), col(h, "created_at"@)), col(h, "time_added"@)), col(h, "add_date"@))
}

/// Which exporter the header row points at.
pub open spec fn csv_format(h: Seq<Seq<char>>) -> ImportFormat {
    if col(h, "time_added"@) is Some {
        ImportFormat::PocketCsv
    } else if col(h, "folder"@) is Some || col(h, "excerpt"@) is Some || col(h, "cover"@) is Some {
        ImportFormat::RaindropCsv
    } else {
        ImportFormat::GenericCsv
    }
}

/// The bookmark a record yields; `None` when its url cell is empty.
pub open spec fn csv_row_item(h: Seq<Seq<char>>, row: Seq<Seq<char>>) -> Option<ImportItemView> {
    let url = field(row, col(h, "url"@));
    let folder = field(row, col(h, "folder"@));
    if url.len() == 0 {
        None
    } else {
        Some(
            ImportItemView {
                url: url,
                title: field(row, col(h, "title"@)),
                description: field(row, excerpt_col(h)),
                notes: field(row, note_col(h)),
                tags: split_tags(field(row, col(h, "tags"@))) + (if folder_is_tag(folder) {
                    seq![folder]
                } else {
                    seq![]
                }),
                favorite: lower(field(row, col(h, "favorite"@))) == "true"@,
                created_at: timestamp_spec(field(row, created_col(h))),
            },
        )
    }
}

pub open spec fn csv_rows_items(h: Seq<Seq<char>>, rows: Seq<Seq<Seq<char>>>) -> Seq<ImportItemView>
    decreases rows.len(),
{
    if rows.len() == 0 {
        seq![]
    } else {
        let rest = csv_rows_items(h, rows.drop_last());
        match csv_row_item(h, rows.last()) {
            Some(it) => rest.push(it),
            None => rest,
        }
    }
}

/// The record each bookmark of a CSV export comes from.
pub open spec fn csv_origins(h: Seq<Seq<char>>, rows: Seq<Seq<Seq<char>>>) -> Seq<int>
    decreases rows.len(),
{
    if rows.len() == 0 {
        seq![]
    } else {
        let rest = csv_origins(h, rows.drop_last());
        match csv_row_item(h, rows.last()) {
            Some(_) => rest.push(rows.len() - 1),
            None => rest,
        }
    }
}

/// Every record with a url cell gives exactly one bookmark, in record
/// order, carrying that url and its favorite cell; records without one
/// give none.
#[verifier::spinoff_prover]
#[verifier::rlimit(50)]
pub proof fn lemma_csv_rows_items(h: Seq<Seq<char>>, rows: Seq<Seq<Seq<char>>>)
    ensures
        ({
            let items = csv_rows_items(h, rows);
            let o = csv_origins(h, rows);
            &&& items.len() == o.len() <= rows.len()
            &&& forall|k: int|
                0 <= k < items.len() ==> 0 <= #[trigger] o[k] < rows.len() && csv_row_item(h, rows[o[k]])
                    == Some(items[k]) && items[k].url == field(rows[o[k]], col(h, "url"@))
                    && items[k].url.len() > 0 && items[k].favorite == (lower(
                    field(rows[o[k]], col(h, "favorite"@)),
                ) == "true"@)
            &&& forall|k1: int, k2: int| 0 <= k1 < k2 < o.len() ==> #[trigger] o[k1] < #[trigger] o[k2]
            &&& forall|j: int|
                0 <= j < rows.len() && field(#[trigger] rows[j], col(h, "url"@)).len() > 0 ==> exists|k: int|
                    0 <= k < o.len() && o[k] == j
        }),
    decreases rows.len(),
{
    if rows.len() > 0 {
        let init = rows.drop_last();
        lemma_csv_rows_items(h, init);
        let items = csv_rows_items(h, rows);
        let o = csv_origins(h, rows);
        let ri = csv_rows_items(h, init);
        let ro = csv_origins(h, init);
        let last = rows.len() - 1;
        assert forall|k: int| 0 <= k < ri.len() implies rows[ro[k]] == init[ro[k]] by {}
        match csv_row_item(h, rows.last()) {
            Some(it) => {
                assert(o[ro.len() as int] == last);
                assert forall|k: int| 0 <= k < items.len() implies 0 <= #[trigger] o[k] < rows.len()
                    && csv_row_item(h, rows[o[k]]) == Some(items[k]) && items[k].url == field(
                    rows[o[k]],
                    col(h, "url"@),
                ) && items[k].url.len() > 0 && items[k].favorite == (lower(
                    field(rows[o[k]], col(h, "favorite"@)),
                ) == "true"@) by {
                    if k < ri.len() {
                        assert(o[k] == ro[k] && items[k] == ri[k]);
                    }
                }
                assert forall|k1: int, k2: int| 0 <= k1 < k2 < o.len() implies #[trigger] o[k1]
                    < #[trigger] o[k2] by {
                    assert(o[k1] == ro[k1]);
                    if k2 < ro.len() {
                        assert(o[k2] == ro[k2]);
                    }
                }
                assert forall|j: int|
                    0 <= j < rows.len() && field(#[trigger] rows[j], col(h, "url"@)).len() > 0 implies exists|k: int|
                    0 <= k < o.len() && o[k] == j by {
                    if j < last {
                        assert(init[j] == rows[j]);
                        let k = choose|k: int| 0 <= k < ro.len() && ro[k] == j;
                        assert(o[k] == ro[k]);
                    } else {
                        assert(o[ro.len() as int] == j);
                    }
                }
            },
            None => {
                assert forall|j: int|
                    0 <= j < rows.len() && field(#[trigger] rows[j], col(h, "url"@)).len() > 0 implies exists|k: int|
                    0 <= k < o.len() && o[k] == j by {
                    if j < last {
                        assert(init[j] == rows[j]);
                    }
                }
            },
        }
    }
}

/// Format and bookmarks of a CSV export; `None` without a `url` column.
pub open spec fn csv_import(h: Seq<Seq<char>>, rows: Seq<Seq<Seq<char>>>) -> Option<(ImportFormat, Seq<ImportItemView>)> {
    if col(h, "url"@) is Some {
        Some((csv_format(h), csv_rows_items(h, rows)))
    } else {
        None
    }
}

fn col_exec(h: &Vec<Vec<char>>, name: &str) -> (r: Option<usize>)
    ensures
        opt_int(r) == col(vec_views(h@), name@),
        r matches Some(i) ==> i < h.len(),
{
    let n = chars_of(name);
    let mut i: usize = 0;
    while i < h.len()
        invariant
            i <= h.len(),
            n@ == name@,
            col(vec_views(h@), name@) == col_from(vec_views(h@), name@, i as int),
        decreases h.len() - i,
    {
        let key = lower_vec(&trim_vec(&h[i]));
        if eq_chars(&key, &n) {
            return Some(i);
        }
        i = i + 1;
    }
    None
}

fn or_col_exec(a: Option<usize>, b: Option<usize>) -> (r: Option<usize>)
    ensures
        opt_int(r) == or_col(opt_int(a), opt_int(b)),
{
    match a {
        Some(x) => Some(x),
        None => b,
    }
}

fn field_exec(row: &Vec<Vec<char>>, c: Option<usize>) -> (r: Vec<char>)
    ensures
        r@ == field(vec_views(row@), opt_int(c)),
{
    match c {
        Some(i) => if i < row.len() {
            trim_vec(&row[i])
        } else {
            Vec::new()
        },
        None => Vec::new(),
    }
}

fn char_rows(headers: &Vec<String>, rows: &Vec<Vec<String>>) -> (r: (Vec<Vec<char>>, Vec<Vec<Vec<char>>>))
    ensures
        vec_views(r.0@) == string_views(headers@),
        r.1.len() == rows.len(),
        forall|i: int| 0 <= i < rows.len() ==> vec_views(#[trigger] r.1@[i]@) == string_views(rows@[i]@),
{
    let h = char_cells(headers);
    let mut out: Vec<Vec<Vec<char>>> = Vec::new();
    let mut i: usize = 0;
    while i < rows.len()
        invariant
            i <= rows.len(),
            out.len() == i,
            forall|k: int| 0 <= k < i ==> vec_views(#[trigger] out@[k]@) == string_views(rows@[k]@),
        decreases rows.len() - i,
    {
        out.push(char_cells(&rows[i]));
        i = i + 1;
    }
    (h, out)
}

fn char_cells(cells: &Vec<String>) -> (r: Vec<Vec<char>>)
    ensures
        vec_views(r@) == string_views(cells@),
{
    let mut out: Vec<Vec<char>> = Vec::new();
    let mut i: usize = 0;
    while i < cells.len()
        invariant
            i <= cells.len(),
            out.len() == i,
            vec_views(out@) == string_views(cells@).take(i as int),
        decreases cells.len() - i,
    {
        let c = chars_of(cells[i].as_str());
        out.push(c);
        assert(vec_views(out@) =~= string_views(cells@).take(i + 1));
        i = i + 1;
    }
    assert(string_views(cells@).take(cells.len() as int) =~= string_views(cells@));
    out
}

/// Columns of a CSV export, located once per file.
struct CsvColumns {
    url: usize,
    title: Option<usize>,
    tags: Option<usize>,
    note: Option<usize>,
    excerpt: Option<usize>,
    folder: Option<usize>,
    favorite: Option<usize>,
    created: Option<usize>,
}

fn csv_row_item_exec(cols: &CsvColumns, row: &Vec<Vec<char>>, Ghost(h): Ghost<Seq<Seq<char>>>) -> (r: Option<ImportItem>)
    requires
        col(h, "url"@) == Some(cols.url as int),
        col(h, "title"@) == opt_int(cols.title),
        col(h, "tags"@) == opt_int(cols.tags),
        note_col(h) == opt_int(cols.note),
        excerpt_col(h) == opt_int(cols.excerpt),
        col(h, "folder"@) == opt_int(cols.folder),
        col(h, "favorite"@) == opt_int(cols.favorite),
        created_col(h) == opt_int(cols.created),
    ensures
        r matches Some(it) ==> csv_row_item(h, vec_views(row@)) == Some(it@),
        r is None ==> csv_row_item(h, vec_views(row@)) is None,
{
    let url = field_exec(row, Some(cols.url));
    if url.len() == 0 {
        return None;
    }
    let folder = field_exec(row, cols.folder);
    let mut tags = split_tags_vec(&field_exec(row, cols.tags));
    let ghost split = vec_views(tags@);
    let keep = folder.len() > 0 && !is_generic_folder_exec(&lower_vec(&folder));
    if keep {
        tags.push(folder.clone());
    }
    assert(vec_views(tags@) =~= split + (if folder_is_tag(folder@) {
        seq![folder@]
    } else {
        seq![]
    }));
    let favorite = eq_chars(&lower_vec(&field_exec(row, cols.favorite)), &chars_of("true"));
    let created = field_exec(row, cols.created);
    let created_at = timestamp_of_chars(&created);
    Some(
        ImportItem {
            url: string_of(&url),
            title: string_of(&field_exec(row, cols.title)),
            description: string_of(&field_exec(row, cols.excerpt)),
            notes: string_of(&field_exec(row, cols.note)),
            tags: strings_of(&tags),
            favorite,
            created_at,
        },
    )
}

/// Format and bookmarks of a CSV export, from the records the `csv` crate
/// read; `None` without a `url` column.
pub fn csv_items(headers: &Vec<String>, rows: &Vec<Vec<String>>) -> (r: Option<(ImportFormat, Vec<ImportItem>)>)
    ensures
        r is Some <==> csv_import(string_views(headers@), rows_views(rows@)) is Some,
        r matches Some((f, items)) ==> csv_import(string_views(headers@), rows_views(rows@)) == Some(
            (f, item_views(items@)),
        ),
{
    let ghost hv = string_views(headers@);
    let ghost rv = rows_views(rows@);
    let (h, crows) = char_rows(headers, rows);
    let url = match col_exec(&h, "url") {
        Some(u) => u,
        None => {
            return None;
        },
    };
    let time_added = col_exec(&h, "time_added");
    let format = if time_added.is_some() {
        ImportFormat::PocketCsv
    } else if col_exec(&h, "folder").is_some() || col_exec(&h, "excerpt").is_some() || col_exec(
        &h,
        "cover",
    ).is_some() {
        ImportFormat::RaindropCsv
    } else {
        ImportFormat::GenericCsv
    };
    let cols = CsvColumns {
        url,
        title: col_exec(&h, "title"),
        tags: col_exec(&h, "tags"),
        note: or_col_exec(col_exec(&h, "note"), col_exec(&h, "notes")),
        excerpt: or_col_exec(col_exec(&h, "excerpt"), col_exec(&h, "description")),
        folder: col_exec(&h, "folder"),
        favorite: col_exec(&h, "favorite"),
        created: or_col_exec(
            or_col_exec(or_col_exec(col_exec(&h, "created"), col_exec(&h, "created_at")), time_added),
            col_exec(&h, "add_date"),
        ),
    };
    let mut items: Vec<ImportItem> = Vec::new();
    let mut i: usize = 0;
    while i < crows.len()
        invariant
            i <= crows.len() == rows.len(),
            vec_views(h@) == hv,
            hv == string_views(headers@),
            rv == rows_views(rows@),
            forall|k: int| 0 <= k < rows.len() ==> vec_views(#[trigger] crows@[k]@) == string_views(rows@[k]@),
            col(hv, "url"@) == Some(cols.url as int),
            col(hv, "title"@) == opt_int(cols.title),
            col(hv, "tags"@) == opt_int(cols.tags),
            note_col(hv) == opt_int(cols.note),
            excerpt_col(hv) == opt_int(cols.excerpt),
            col(hv, "folder"@) == opt_int(cols.folder),
            col(hv, "favorite"@) == opt_int(cols.favorite),
            created_col(hv) == opt_int(cols.created),
            item_views(items@) == csv_rows_items(hv, rv.take(i as int)),
        decreases crows.len() - i,
    {
        assert(rv.take(i + 1).drop_last() =~= rv.take(i as int));
        assert(rv.take(i + 1).last() == rv[i as int]);
        assert(rv[i as int] == vec_views(crows@[i as int]@));
        match csv_row_item_exec(&cols, &crows[i], Ghost(hv)) {
            Some(it) => {
                let ghost before = item_views(items@);
                items.push(it);
                assert(item_views(items@) =~= before.push(it@));
            },
            None => {},
        }
        i = i + 1;
    }
    assert(rv.take(rows.len() as int) =~= rv);
    Some((format, items))
}

// ------------------------------------------------------------- sniffing --

/// Whether content is treated as bookmark HTML.
pub open spec fn looks_like_html(content: Seq<char>) -> bool {
    let l = lower(trim_start(content));
    ||| starts_with(l, "<!doctype netscape"@)
    ||| starts_with(l, "<!doctype html"@)
    ||| contains(l, "<dl"@)
    ||| (contains(l, "<a "@) && contains(l, "href="@))
}

/// What `parse` returns: HTML when it looks like HTML, else a CSV export
/// with a `url` column, else a URL list.
pub open spec fn parse_result(content: Seq<char>) -> (ImportFormat, Seq<ImportItemView>) {
    if looks_like_html(content) {
        (ImportFormat::NetscapeHtml, netscape_items(content))
    } else {
        match csv_table(content) {
            Some((h, rows)) => match csv_import(h, rows) {
                Some(r) => r,
                None => (ImportFormat::UrlList, url_list_items(content)),
            },
            None => (ImportFormat::UrlList, url_list_items(content)),
        }
    }
}

/// Content that does not look like bookmark HTML, and that the `csv` crate
/// does not read as a table with a `url` column, is read as a URL list.
/// Whether a given text has such a column is the `csv` crate's reading.
pub proof fn lemma_parse_falls_back_to_url_list(content: Seq<char>)
    requires
        !looks_like_html(content),
        match csv_table(content) {
            Some((h, _)) => col(h, "url"@) is None,
            None => true,
        },
    ensures
        parse_result(content) == (ImportFormat::UrlList, url_list_items(content)),
{
}

/// Empty text holds no URL-list bookmark.
pub proof fn lemma_empty_url_list()
    ensures
        url_list_items(seq![]).len() == 0,
{
    lemma_url_list_count(seq![]);
    assert(split_on(seq![], '\n') == seq![Seq::<char>::empty()]);
}

fn looks_like_html_exec(c: &Vec<char>) -> (r: bool)
    ensures
        r == looks_like_html(c@),
{
    let start = skip_ws(c, 0);
    assert(c@.subrange(0, c.len() as int) =~= c@);
    let l = lower_vec(&slice_chars(c, start, c.len()));
    starts_with_exec(&l, &chars_of("<!doctype netscape")) || starts_with_exec(
        &l,
        &chars_of("<!doctype html"),
    ) || contains_exec(&l, &chars_of("<dl")) || (contains_exec(&l, &chars_of("<a "))
        && contains_exec(&l, &chars_of("href=")))
}

/// Sniff the format and parse. Unparseable content simply yields zero
/// items.
pub fn parse(content: &str) -> (r: (ImportFormat, Vec<ImportItem>))
    ensures
        r.0 == parse_result(content@).0,
        item_views(r.1@) == parse_result(content@).1,
{
    let c = chars_of(content);
    if looks_like_html_exec(&c) {
        return (ImportFormat::NetscapeHtml, parse_netscape_html(content));
    }
    match read_csv_table(content) {
        Some((h, rows)) => match csv_items(&h, &rows) {
            Some(r) => r,
            None => (ImportFormat::UrlList, parse_url_list(content)),
        },
        None => (ImportFormat::UrlList, parse_url_list(content)),
    }
}

// ------------------------------------------------------- string entry points --

/// Extract an attribute value from a raw tag string, case-insensitively
/// (`name` in lowercase), entities decoded.
pub fn attr(tag: &str, name: &str) -> (r: Option<String>)
    ensures
        match r {
            Some(v) => attr_spec(tag@, name@) == Some(v@),
            None => attr_spec(tag@, name@) is None,
        },
{
    match attr_chars(&chars_of(tag), &chars_of(name)) {
        Some(v) => Some(string_of(&v)),
        None => None,
    }
}

/// Epoch seconds from a numeric string, tolerating ms/µs precision; `None`
/// outside 1990..2100.
pub fn parse_epoch(raw: &str) -> (r: Option<i64>)
    ensures
        r == epoch_spec(raw@),
        r matches Some(v) ==> epoch_floor() <= v < epoch_ceiling(),
{
    epoch_of_chars(&chars_of(raw))
}

/// Epoch seconds from either a numeric epoch or an ISO-8601 date
/// (`2020-05-01T10:30:00.000Z` / `2020-05-01`). UTC assumed.
pub fn parse_timestamp(raw: &str) -> (r: Option<i64>)
    ensures
        r == timestamp_spec(raw@),
        r matches Some(v) ==> epoch_floor() <= v < epoch_ceiling(),
{
    timestamp_of_chars(&chars_of(raw))
}

/// What an import would do, as the desktop app shows it before importing.
#[derive(Debug, Clone)]
pub struct ImportPreview {
    pub format: String,
    pub report: ImportReport,
}

impl ImportPreview {
    /// The preview of an import of a file in `format`.
    pub fn new(format: ImportFormat, report: ImportReport) -> (r: ImportPreview)
        ensures
            r.format@ == format_label(format),
            r.report == report,
    {
        let label = format.label();
        ImportPreview { format: string_of(&chars_of(label)), report }
    }
}

} // verus!
