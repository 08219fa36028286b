//! Search over titles and plain texts: the tokens of a sanitised query match
//! a run of consecutive tokens of the text, up to ASCII case, the last query
//! token as a prefix of its text token.
use vstd::prelude::*;
use crate::tokens::{
    first_phrase, find_phrase, has_phrase, lemma_first_phrase_unique, span_view, spans, spans_ok, text_views_q,
    token_spans, token_texts, tokens,
};
use crate::model::{NoteData, SearchResultItem};
use crate::store::{Database, keep};
use crate::text::{is_ws_spec, sanitize_query, sanitize_spec, strip_quotes_spec, trim_end_spec, trim_start_spec};

verus! {

/// The most results a search returns.
pub const SEARCH_LIMIT: usize = 20;

/// Tokens in a snippet, unless the match itself is longer.
pub const SNIPPET_TOKENS: usize = 32;

/// Tokens of a snippet kept before the match.
pub const SNIPPET_LEAD: usize = 4;

/// The phrase `qt` occurs in `text`, its last token as a prefix.
pub open spec fn occurs(text: Seq<char>, qt: Seq<Seq<char>>) -> bool {
    has_phrase(text, qt, true)
}

/// The first token where the phrase `qt` occurs in `text`.
pub open spec fn match_token(text: Seq<char>, qt: Seq<Seq<char>>) -> int {
    choose|j: int| first_phrase(text, qt, j, true)
}

/// `text` with the characters from `from` to `to` wrapped in a mark.
pub open spec fn marked(text: Seq<char>, from: int, to: int) -> Seq<char> {
    text.subrange(0, from) + "<mark>"@ + text.subrange(from, to) + "</mark>"@ + text.subrange(to, text.len() as int)
}

/// `text` with the tokens of the first occurrence of `qt` marked.
pub open spec fn highlight_spec(text: Seq<char>, qt: Seq<Seq<char>>) -> Seq<char> {
    if occurs(text, qt) {
        let j = match_token(text, qt);
        let sp = spans(text);
        marked(text, sp[j].0, sp[j + qt.len() - 1].1)
    } else {
        text
    }
}

/// The snippet of a plain text for query tokens `qt`: the tokens around the
/// first occurrence, `SNIPPET_LEAD` before it and up to `SNIPPET_TOKENS` in
/// all, with the occurrence marked and an ellipsis where tokens were left
/// out; without an occurrence, the first `SNIPPET_TOKENS` tokens.
pub open spec fn snippet_spec(text: Seq<char>, qt: Seq<Seq<char>>) -> Seq<char> {
    let sp = spans(text);
    let n = sp.len() as int;
    if occurs(text, qt) {
        let j = match_token(text, qt);
        let e = j + qt.len();
        let w0 = if j > SNIPPET_LEAD { j - SNIPPET_LEAD } else { 0 };
        let cap = if w0 + SNIPPET_TOKENS < n { w0 + SNIPPET_TOKENS } else { n };
        let w1 = if cap < e { e } else { cap };
        (if w0 > 0 { "..."@ } else { Seq::empty() }) + text.subrange(sp[w0].0, sp[j].0) + "<mark>"@ + text.subrange(
            sp[j].0,
            sp[e - 1].1,
        ) + "</mark>"@ + text.subrange(sp[e - 1].1, sp[w1 - 1].1) + (if w1 < n { "..."@ } else { Seq::empty() })
    } else if n == 0 {
        Seq::empty()
    } else {
        let w1 = if SNIPPET_TOKENS < n { SNIPPET_TOKENS as int } else { n };
        text.subrange(sp[0].0, sp[w1 - 1].1) + (if w1 < n { "..."@ } else { Seq::empty() })
    }
}

proof fn lemma_span_order(text: Seq<char>, a: int, b: int)
    requires
        spans_ok(text, spans(text)),
        0 <= a <= b < spans(text).len(),
    ensures
        spans(text)[a].0 <= spans(text)[b].0,
        spans(text)[a].1 <= spans(text)[b].1,
        spans(text)[a].0 < spans(text)[b].1,
{
    let sp = spans(text);
    assert(0 <= sp[a].0 < sp[a].1 <= text.len());
    assert(0 <= sp[b].0 < sp[b].1 <= text.len());
    if a < b {
        assert(sp[a].1 < sp[b].0);
    }
}

/// `text` with the tokens of the first occurrence of `qt` marked.
pub fn highlight(text: &str, qt: &Vec<String>) -> (r: String)
    ensures
        r@ == highlight_spec(text@, text_views_q(qt@)),
{
    let sp = token_spans(text);
    match find_phrase(text, &sp, qt, true) {
        None => String::from_str(text),
        Some(j) => {
            let ghost q = text_views_q(qt@);
            proof {
                lemma_first_phrase_unique(text@, q, j as int, match_token(text@, q), true);
                lemma_span_order(text@, j as int, j + qt@.len() - 1);
                assert(span_view(sp@)[j as int] == spans(text@)[j as int]);
                assert(span_view(sp@)[j + qt@.len() - 1] == spans(text@)[j + qt@.len() - 1]);
            }
            let n = text.unicode_len();
            let from = sp[j].0;
            let to = sp[j + qt.len() - 1].1;
            let mut r = String::from_str(text.substring_char(0, from));
            r.append("<mark>");
            r.append(text.substring_char(from, to));
            r.append("</mark>");
            r.append(text.substring_char(to, n));
            r
        },
    }
}

/// The snippet of `text` for query tokens `qt`.
pub fn snippet(text: &str, qt: &Vec<String>) -> (r: String)
    ensures
        r@ == snippet_spec(text@, text_views_q(qt@)),
{
    let sp = token_spans(text);
    let n = sp.len();
    proof {
        reveal_strlit("");
    }
    match find_phrase(text, &sp, qt, true) {
        None => {
            if n == 0 {
                return String::new();
            }
            let w1 = if SNIPPET_TOKENS < n { SNIPPET_TOKENS } else { n };
            proof {
                lemma_span_order(text@, 0, w1 - 1);
                assert(span_view(sp@)[0] == spans(text@)[0]);
                assert(span_view(sp@)[w1 - 1] == spans(text@)[w1 - 1]);
            }
            let mut r = String::from_str(text.substring_char(sp[0].0, sp[w1 - 1].1));
            if w1 < n {
                r.append("...");
            }
            assert(r@ =~= snippet_spec(text@, text_views_q(qt@)));
            r
        },
        Some(j) => {
            let ghost q = text_views_q(qt@);
            let e = j + qt.len();
            let w0 = if j > SNIPPET_LEAD { j - SNIPPET_LEAD } else { 0 };
            let cap = if n >= SNIPPET_TOKENS && w0 < n - SNIPPET_TOKENS { w0 + SNIPPET_TOKENS } else { n };
            let w1 = if cap < e { e } else { cap };
            proof {
                lemma_first_phrase_unique(text@, q, j as int, match_token(text@, q), true);
                lemma_span_order(text@, w0 as int, j as int);
                lemma_span_order(text@, j as int, e - 1);
                lemma_span_order(text@, e - 1, w1 - 1);
                assert(span_view(sp@)[w0 as int] == spans(text@)[w0 as int]);
                assert(span_view(sp@)[j as int] == spans(text@)[j as int]);
                assert(span_view(sp@)[e - 1] == spans(text@)[e - 1]);
                assert(span_view(sp@)[w1 - 1] == spans(text@)[w1 - 1]);
            }
            let mut r = String::new();
            if w0 > 0 {
                r.append("...");
            }
            r.append(text.substring_char(sp[w0].0, sp[j].0));
            r.append("<mark>");
            r.append(text.substring_char(sp[j].0, sp[e - 1].1));
            r.append("</mark>");
            r.append(text.substring_char(sp[e - 1].1, sp[w1 - 1].1));
            if w1 < n {
                r.append("...");
            }
            assert(r@ =~= snippet_spec(text@, q));
            r
        },
    }
}

/// Live note `n` matches query tokens `qt` in its title (`title` set) or in
/// its plain text only (`title` clear).
pub open spec fn note_hit(n: NoteData, qt: Seq<Seq<char>>, title: bool) -> bool {
    !n.is_trashed && if title {
        occurs(n.title@, qt)
    } else {
        !occurs(n.title@, qt) && occurs(n.plain_text@, qt)
    }
}

pub open spec fn hit_in(qt: Seq<Seq<char>>, title: bool) -> spec_fn(NoteData) -> bool {
    |n: NoteData| note_hit(n, qt, title)
}

/// The live notes matching `qt`, ranked: title matches first, then matches
/// in the plain text only, each group in table order.
pub open spec fn ranked_hits(notes: Seq<NoteData>, qt: Seq<Seq<char>>) -> Seq<NoteData> {
    keep(notes, hit_in(qt, true)) + keep(notes, hit_in(qt, false))
}

/// `item` is the search result for note `n` and query tokens `qt`.
pub open spec fn result_for(item: SearchResultItem, n: NoteData, qt: Seq<Seq<char>>) -> bool {
    &&& item.id == n.id && item.note_id == n.id
    &&& item.title@ == highlight_spec(n.title@, qt)
    &&& item.snippet@ == snippet_spec(n.plain_text@, qt)
}

pub open spec fn min_nat(a: int, b: int) -> int {
    if a < b { a } else { b }
}

fn occurs_in(text: &str, qt: &Vec<String>) -> (r: bool)
    ensures
        r == occurs(text@, text_views_q(qt@)),
{
    let sp = token_spans(text);
    find_phrase(text, &sp, qt, true).is_some()
}

/// Appends the results for the notes that `qt` hits in the given group,
/// up to `SEARCH_LIMIT` results in all.
fn append_hits(db: &Database, qt: &Vec<String>, title: bool, r: &mut Vec<SearchResultItem>)
    requires
        old(r)@.len() <= SEARCH_LIMIT,
    ensures
        ({
            let q = text_views_q(qt@);
            let hs = keep(db.notes@, hit_in(q, title));
            let start = old(r)@.len() as int;
            &&& final(r)@.len() == start + min_nat(SEARCH_LIMIT - start, hs.len() as int)
            &&& forall|k: int| 0 <= k < start ==> #[trigger] final(r)@[k] == old(r)@[k]
            &&& forall|k: int| start <= k < final(r)@.len() ==> result_for(#[trigger] final(r)@[k], hs[k - start], q)
        }),
{
    let ghost q = text_views_q(qt@);
    let ghost p = hit_in(q, title);
    let ghost start = r@.len() as int;
    let ghost first = r@;
    let mut i: usize = 0;
    while i < db.notes.len() && r.len() < SEARCH_LIMIT
        invariant
            q == text_views_q(qt@),
            p == hit_in(q, title),
            first.len() == start,
            start <= SEARCH_LIMIT,
            i <= db.notes@.len(),
            r@.len() <= SEARCH_LIMIT,
            r@.len() == start + keep(db.notes@.subrange(0, i as int), p).len(),
            forall|k: int| 0 <= k < start ==> #[trigger] r@[k] == first[k],
            forall|k: int|
                start <= k < r@.len() ==> result_for(#[trigger] r@[k], keep(db.notes@.subrange(0, i as int), p)[k - start], q),
        decreases db.notes@.len() - i,
    {
        let ghost prev = keep(db.notes@.subrange(0, i as int), p);
        let ghost prev_r = r@;
        proof {
            let s = db.notes@.subrange(0, i + 1);
            assert(s.drop_last() =~= db.notes@.subrange(0, i as int));
        }
        let n = &db.notes[i];
        if !n.is_trashed {
            let in_title = occurs_in(n.title.as_str(), qt);
            let hit = if title {
                in_title
            } else {
                !in_title && occurs_in(n.plain_text.as_str(), qt)
            };
            if hit {
                let item = SearchResultItem {
                    id: n.id,
                    title: highlight(n.title.as_str(), qt),
                    snippet: snippet(n.plain_text.as_str(), qt),
                    note_id: n.id,
                };
                r.push(item);
                proof {
                    let cur = keep(db.notes@.subrange(0, i + 1), p);
                    assert(cur == prev.push(db.notes@[i as int]));
                    assert forall|k: int| start <= k < r@.len() implies result_for(#[trigger] r@[k], cur[k - start], q) by {
                        if k < prev_r.len() {
                            assert(r@[k] == prev_r[k]);
                        }
                    }
                    assert forall|k: int| 0 <= k < start implies #[trigger] r@[k] == first[k] by {
                        assert(r@[k] == prev_r[k]);
                    }
                }
            }
        }
        i = i + 1;
    }
    proof {
        lemma_keep_prefix_len(db.notes@, p, i as int);
        lemma_keep_prefix(db.notes@, p, i as int);
        if i == db.notes@.len() {
            assert(db.notes@.subrange(0, i as int) =~= db.notes@);
        }
    }
}

/// Searches the live notes. The query loses its double quotes and
/// surrounding whitespace; an empty query finds nothing. A note matches
/// when the query's tokens occur as consecutive tokens of its title or
/// plain text, the last one as a prefix. Notes whose title matches come
/// first, then notes whose plain text alone matches, each in table order,
/// at most `SEARCH_LIMIT` of them.
pub fn search_notes(db: &Database, query: &str) -> (r: Vec<SearchResultItem>)
    ensures
        ({
            let q = sanitize_spec(query@);
            let hits = ranked_hits(db.notes@, tokens(q));
            &&& q.len() == 0 ==> r@.len() == 0
            &&& q.len() > 0 ==> r@.len() == min_nat(SEARCH_LIMIT as int, hits.len() as int)
            &&& q.len() > 0 ==> forall|k: int| 0 <= k < r@.len() ==> result_for(#[trigger] r@[k], hits[k], tokens(q))
        }),
{
    let q = sanitize_query(query);
    let mut r: Vec<SearchResultItem> = Vec::new();
    if q.unicode_len() == 0 {
        return r;
    }
    let qt = token_texts(q.as_str());
    assert(text_views_q(qt@) =~= tokens(q@));
    append_hits(db, &qt, true, &mut r);
    let ghost mid = r@;
    append_hits(db, &qt, false, &mut r);
    proof {
        let qv = tokens(q@);
        let a = keep(db.notes@, hit_in(qv, true));
        let b = keep(db.notes@, hit_in(qv, false));
        let hits = ranked_hits(db.notes@, qv);
        assert forall|k: int| 0 <= k < r@.len() implies result_for(#[trigger] r@[k], hits[k], qv) by {
            if k < mid.len() {
                assert(r@[k] == mid[k]);
                assert(hits[k] == a[k]);
            } else {
                assert(hits[k] == b[k - mid.len()]);
            }
        }
    }
    r
}

pub proof fn lemma_keep_prefix_len<A>(s: Seq<A>, p: spec_fn(A) -> bool, i: int)
    requires
        0 <= i <= s.len(),
    ensures
        keep(s.subrange(0, i), p).len() <= keep(s, p).len(),
    decreases s.len() - i,
{
    if i < s.len() {
        lemma_keep_prefix_len(s, p, i + 1);
        assert(s.subrange(0, i + 1).drop_last() =~= s.subrange(0, i));
    } else {
        assert(s.subrange(0, i) =~= s);
    }
}

pub proof fn lemma_keep_prefix<A>(s: Seq<A>, p: spec_fn(A) -> bool, i: int)
    requires
        0 <= i <= s.len(),
    ensures
        forall|k: int| 0 <= k < keep(s.subrange(0, i), p).len() ==> #[trigger] keep(s.subrange(0, i), p)[k] == keep(s, p)[k],
    decreases s.len() - i,
{
    if i < s.len() {
        lemma_keep_prefix(s, p, i + 1);
        assert(s.subrange(0, i + 1).drop_last() =~= s.subrange(0, i));
        lemma_keep_prefix_len(s, p, i + 1);
        let a = keep(s.subrange(0, i), p);
        let b = keep(s.subrange(0, i + 1), p);
        assert forall|k: int| 0 <= k < a.len() implies #[trigger] a[k] == keep(s, p)[k] by {
            assert(a[k] == b[k]);
        }
    } else {
        assert(s.subrange(0, i) =~= s);
    }
}

proof fn lemma_strip_blank(q: Seq<char>)
    requires
        forall|i: int| 0 <= i < q.len() ==> is_ws_spec(#[trigger] q[i]) || q[i] == '"',
    ensures
        forall|i: int| 0 <= i < strip_quotes_spec(q).len() ==> is_ws_spec(#[trigger] strip_quotes_spec(q)[i]),
    decreases q.len(),
{
    if q.len() > 0 {
        let d = q.drop_last();
        assert forall|i: int| 0 <= i < d.len() implies is_ws_spec(#[trigger] d[i]) || d[i] == '"' by {
            assert(d[i] == q[i]);
        }
        lemma_strip_blank(d);
        let c = q[q.len() - 1];
        assert(is_ws_spec(c) || c == '"');
        let sd = strip_quotes_spec(d);
        let sq = strip_quotes_spec(q);
        if c != '"' {
            assert(sq == sd.push(c));
            assert forall|i: int| 0 <= i < sq.len() implies is_ws_spec(#[trigger] sq[i]) by {
                if i < sd.len() {
                    assert(sq[i] == sd[i]);
                }
            }
        } else {
            assert(sq == sd);
        }
    }
}

proof fn lemma_trim_start_blank(s: Seq<char>)
    requires
        forall|i: int| 0 <= i < s.len() ==> is_ws_spec(#[trigger] s[i]),
    ensures
        trim_start_spec(s).len() == 0,
    decreases s.len(),
{
    if s.len() > 0 {
        let d = s.drop_first();
        assert forall|i: int| 0 <= i < d.len() implies is_ws_spec(#[trigger] d[i]) by {
            assert(d[i] == s[i + 1]);
        }
        lemma_trim_start_blank(d);
        assert(is_ws_spec(s[0]));
    }
}

/// A query made only of whitespace and double quotes sanitises to nothing,
/// so searching for it finds nothing.
pub proof fn lemma_blank_query(q: Seq<char>)
    requires
        forall|i: int| 0 <= i < q.len() ==> is_ws_spec(#[trigger] q[i]) || q[i] == '"',
    ensures
        sanitize_spec(q).len() == 0,
{
    lemma_strip_blank(q);
    lemma_trim_start_blank(strip_quotes_spec(q));
    assert(trim_end_spec(trim_start_spec(strip_quotes_spec(q))) == trim_start_spec(strip_quotes_spec(q)));
}

} // verus!
