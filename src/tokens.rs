//! Word tokens of a text: maximal runs of letters and digits (of ASCII, and
//! every character beyond ASCII), and phrase matching over them up to ASCII
//! case.
use vstd::prelude::*;
use crate::links::{ci_eq, eq_ignore_case};

verus! {

/// Letters and digits of ASCII, and every character beyond ASCII.
pub open spec fn is_word_char(c: char) -> bool {
    ('a' <= c && c <= 'z') || ('A' <= c && c <= 'Z') || ('0' <= c && c <= '9') || c > '\u{7f}'
}

/// Whether `c` is a letter or digit of ASCII or any character beyond ASCII.
pub fn word_char(c: char) -> (r: bool)
    ensures
        r == is_word_char(c),
{
    ('a' <= c && c <= 'z') || ('A' <= c && c <= 'Z') || ('0' <= c && c <= '9') || c > '\u{7f}'
}

/// The tokens of `s` as spans: start and end (exclusive) of each maximal
/// run of word characters, in order.
pub open spec fn spans(s: Seq<char>) -> Seq<(int, int)>
    decreases s.len(),
{
    if s.len() == 0 {
        Seq::empty()
    } else {
        let p = spans(s.drop_last());
        let n = s.len() as int;
        if !is_word_char(s.last()) {
            p
        } else if n >= 2 && is_word_char(s[n - 2]) && p.len() > 0 {
            p.update(p.len() - 1, (p.last().0, n))
        } else {
            p.push((n - 1, n))
        }
    }
}

/// Spans lie inside the text, each ends on a word character, and they come
/// in order with a gap between neighbours.
pub open spec fn spans_ok(s: Seq<char>, sp: Seq<(int, int)>) -> bool {
    &&& forall|k: int| 0 <= k < sp.len() ==> 0 <= (#[trigger] sp[k]).0 < sp[k].1 <= s.len()
    &&& forall|k: int| 0 <= k < sp.len() ==> is_word_char(s[(#[trigger] sp[k]).1 - 1])
    &&& forall|a: int, b: int| 0 <= a < b < sp.len() ==> sp[a].1 < sp[b].0
}

pub proof fn lemma_spans_ok(s: Seq<char>)
    ensures
        spans_ok(s, spans(s)),
    decreases s.len(),
{
    if s.len() > 0 {
        let d = s.drop_last();
        lemma_spans_ok(d);
        let p = spans(d);
        let sp = spans(s);
        let n = s.len() as int;
        assert forall|k: int| 0 <= k < p.len() implies is_word_char(s[(#[trigger] p[k]).1 - 1]) by {
            assert(d[p[k].1 - 1] == s[p[k].1 - 1]);
        }
        if !is_word_char(s.last()) {
        } else if n >= 2 && is_word_char(s[n - 2]) && p.len() > 0 {
            assert forall|a: int, b: int| 0 <= a < b < sp.len() implies sp[a].1 < sp[b].0 by {
                if b == sp.len() - 1 {
                    assert(sp[b].0 == p[b].0);
                    assert(sp[a] == p[a]);
                }
            }
        } else {
            assert forall|k: int| 0 <= k < p.len() implies (#[trigger] p[k]).1 < n - 1 by {
                if p[k].1 == n - 1 {
                    assert(is_word_char(s[n - 2]));
                    assert(p.len() > 0);
                }
            }
            assert forall|a: int, b: int| 0 <= a < b < sp.len() implies sp[a].1 < sp[b].0 by {
                if b == sp.len() - 1 {
                    assert(sp[a] == p[a]);
                }
            }
        }
    }
}

/// The token of `s` at span `sp`.
pub open spec fn token(s: Seq<char>, sp: (int, int)) -> Seq<char> {
    s.subrange(sp.0, sp.1)
}

/// The tokens of `s`, in order.
pub open spec fn tokens(s: Seq<char>) -> Seq<Seq<char>> {
    spans(s).map_values(|sp: (int, int)| token(s, sp))
}

/// The view of exec spans.
pub open spec fn span_view(v: Seq<(usize, usize)>) -> Seq<(int, int)> {
    v.map_values(|sp: (usize, usize)| (sp.0 as int, sp.1 as int))
}

/// The token spans of `s`.
pub fn token_spans(s: &str) -> (r: Vec<(usize, usize)>)
    ensures
        span_view(r@) == spans(s@),
        spans_ok(s@, spans(s@)),
{
    proof {
        lemma_spans_ok(s@);
    }
    let n = s.unicode_len();
    let mut r: Vec<(usize, usize)> = Vec::new();
    let mut prev_word = false;
    let mut i: usize = 0;
    while i < n
        invariant
            n == s@.len(),
            i <= n,
            span_view(r@) == spans(s@.subrange(0, i as int)),
            i > 0 ==> prev_word == is_word_char(s@[i - 1]),
            i == 0 ==> !prev_word,
            forall|k: int| 0 <= k < r@.len() ==> (#[trigger] r@[k]).1 <= i,
        decreases n - i,
    {
        let c = s.get_char(i);
        let w = word_char(c);
        let ghost before = r@;
        proof {
            let t = s@.subrange(0, i + 1);
            assert(t.drop_last() =~= s@.subrange(0, i as int));
            assert(t.last() == c);
            if i >= 1 {
                assert(t[i - 1] == s@[i - 1]);
            }
        }
        if w {
            if prev_word && r.len() > 0 {
                let last = r.len() - 1;
                let start = r[last].0;
                r.set(last, (start, i + 1));
                assert(span_view(r@) =~= span_view(before).update(last as int, (span_view(before).last().0, i + 1)));
            } else {
                r.push((i, i + 1));
                assert(span_view(r@) =~= span_view(before).push((i as int, i + 1)));
            }
        }
        prev_word = w;
        i = i + 1;
    }
    assert(s@.subrange(0, n as int) =~= s@);
    r
}

/// The tokens of `s` as strings.
pub fn token_texts(s: &str) -> (r: Vec<String>)
    ensures
        r@.len() == tokens(s@).len(),
        forall|k: int| 0 <= k < r@.len() ==> (#[trigger] r@[k])@ == tokens(s@)[k],
{
    let sp = token_spans(s);
    let mut r: Vec<String> = Vec::new();
    let mut k: usize = 0;
    while k < sp.len()
        invariant
            span_view(sp@) == spans(s@),
            spans_ok(s@, spans(s@)),
            k <= sp@.len(),
            r@.len() == k,
            forall|x: int| 0 <= x < k ==> (#[trigger] r@[x])@ == tokens(s@)[x],
        decreases sp@.len() - k,
    {
        assert(span_view(sp@)[k as int] == spans(s@)[k as int]);
        r.push(String::from_str(s.substring_char(sp[k].0, sp[k].1)));
        k = k + 1;
    }
    r
}

/// `q` is a prefix of `t` up to ASCII case.
pub open spec fn ci_prefix(q: Seq<char>, t: Seq<char>) -> bool {
    q.len() <= t.len() && ci_eq(t.subrange(0, q.len() as int), q)
}

/// The query tokens `qt` occur in `text` as consecutive tokens from token
/// `j` on, up to ASCII case; with `prefix`, the last query token need only
/// start the last text token.
pub open spec fn phrase_at(text: Seq<char>, qt: Seq<Seq<char>>, j: int, prefix: bool) -> bool {
    let sp = spans(text);
    let m = qt.len() as int;
    &&& m > 0 && 0 <= j && j + m <= sp.len()
    &&& forall|k: int| 0 <= k < m - 1 ==> ci_eq(#[trigger] token(text, sp[j + k]), qt[k])
    &&& if prefix {
        ci_prefix(qt[m - 1], token(text, sp[j + m - 1]))
    } else {
        ci_eq(token(text, sp[j + m - 1]), qt[m - 1])
    }
}

/// `j` is the first token where the phrase occurs.
pub open spec fn first_phrase(text: Seq<char>, qt: Seq<Seq<char>>, j: int, prefix: bool) -> bool {
    phrase_at(text, qt, j, prefix) && forall|k: int| 0 <= k < j ==> !phrase_at(text, qt, k, prefix)
}

pub open spec fn has_phrase(text: Seq<char>, qt: Seq<Seq<char>>, prefix: bool) -> bool {
    exists|j: int| phrase_at(text, qt, j, prefix)
}

pub proof fn lemma_first_phrase_unique(text: Seq<char>, qt: Seq<Seq<char>>, i: int, j: int, prefix: bool)
    requires
        first_phrase(text, qt, i, prefix),
        first_phrase(text, qt, j, prefix),
    ensures
        i == j,
{
    if i < j {
        assert(!phrase_at(text, qt, i, prefix));
    } else if j < i {
        assert(!phrase_at(text, qt, j, prefix));
    }
}

fn phrase_at_exec(text: &str, sp: &Vec<(usize, usize)>, qt: &Vec<String>, j: usize, prefix: bool) -> (r: bool)
    requires
        span_view(sp@) == spans(text@),
        spans_ok(text@, spans(text@)),
        qt@.len() > 0,
        j + qt@.len() <= sp@.len(),
    ensures
        r == phrase_at(text@, text_views_q(qt@), j as int, prefix),
{
    let ghost qv = text_views_q(qt@);
    let m = qt.len();
    let n = sp.len();
    let mut k: usize = 0;
    while k < m - 1
        invariant
            n == sp@.len(),
            qv == text_views_q(qt@),
            span_view(sp@) == spans(text@),
            spans_ok(text@, spans(text@)),
            m == qt@.len(),
            m > 0,
            j + m <= sp@.len(),
            k <= m - 1,
            forall|x: int| 0 <= x < k ==> ci_eq(#[trigger] token(text@, spans(text@)[j + x]), qv[x]),
        decreases m - 1 - k,
    {
        assert(span_view(sp@)[j + k] == spans(text@)[j + k]);
        let (a, b) = sp[j + k];
        let t = text.substring_char(a, b);
        assert(t@ == token(text@, spans(text@)[j + k]));
        assert(qt@[k as int]@ == qv[k as int]);
        if !eq_ignore_case(t, qt[k].as_str()) {
            assert(!ci_eq(token(text@, spans(text@)[j + k]), qv[k as int]));
            return false;
        }
        k = k + 1;
    }
    assert(span_view(sp@)[j + m - 1] == spans(text@)[j + m - 1]);
    let (a, b) = sp[j + m - 1];
    let last = qt[m - 1].as_str();
    assert(last@ == qv[m - 1]);
    let ll = last.unicode_len();
    if prefix {
        if ll <= b - a {
            let t = text.substring_char(a, a + ll);
            assert(t@ =~= token(text@, spans(text@)[j + m - 1]).subrange(0, ll as int));
            eq_ignore_case(t, last)
        } else {
            false
        }
    } else {
        let t = text.substring_char(a, b);
        assert(t@ == token(text@, spans(text@)[j + m - 1]));
        eq_ignore_case(t, last)
    }
}

pub open spec fn text_views_q(v: Seq<String>) -> Seq<Seq<char>> {
    v.map_values(|x: String| x@)
}

/// The first token of `text` where the phrase `qt` occurs.
pub fn find_phrase(text: &str, sp: &Vec<(usize, usize)>, qt: &Vec<String>, prefix: bool) -> (r: Option<usize>)
    requires
        span_view(sp@) == spans(text@),
        spans_ok(text@, spans(text@)),
    ensures
        match r {
            Some(j) => first_phrase(text@, text_views_q(qt@), j as int, prefix),
            None => !has_phrase(text@, text_views_q(qt@), prefix),
        },
{
    let m = qt.len();
    if m == 0 || m > sp.len() {
        return None;
    }
    let mut j: usize = 0;
    while j <= sp.len() - m
        invariant
            span_view(sp@) == spans(text@),
            spans_ok(text@, spans(text@)),
            m == qt@.len(),
            0 < m <= sp@.len(),
            j <= sp@.len() - m + 1,
            forall|k: int| 0 <= k < j ==> !phrase_at(text@, text_views_q(qt@), k, prefix),
        decreases sp@.len() - m + 1 - j,
    {
        if phrase_at_exec(text, sp, qt, j, prefix) {
            return Some(j);
        }
        j = j + 1;
    }
    None
}

} // verus!
