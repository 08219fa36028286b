//! Related notes: the most frequent content words of a note, each looked
//! up as whole tokens in the other live notes, with notes scored by how many
//! of those words they contain.
use vstd::prelude::*;
use crate::model::{copy_opt, NoteData, StoreError};
use crate::order::{is_perm, sort_indices, sorted_by, text_views};
use crate::tokens::{find_phrase, has_phrase, text_views_q, token_spans, token_texts, tokens};
use crate::store::{Database, has_note_in, keep};
use crate::text::{is_ws, is_ws_spec, str_eq, token_starts_at, trim, trim_spec};

verus! {

/// How many keywords are looked up.
pub const KEYWORD_LIMIT: usize = 8;

/// How many notes one keyword can hit.
pub const HIT_LIMIT: usize = 20;

/// How many related notes are returned.
pub const RELATED_LIMIT: usize = 5;

/// The shortest keyword, in UTF-8 bytes.
pub const MIN_KEYWORD_BYTES: u64 = 4;

/// A related note with its score in percent of the keywords it contains.
pub struct RelatedNoteItem {
    pub id: u128,
    pub title: String,
    pub emoji: Option<String>,
    pub score: u64,
}

/// The lower-case form of a text, as `str::to_lowercase` gives it.
pub uninterp spec fn lower_of(s: Seq<char>) -> Seq<char>;

/// Whether `char::is_alphanumeric` holds of a character.
pub uninterp spec fn alnum(c: char) -> bool;

/// Relies on str::to_lowercase: the lower-case mapping of Unicode, a
/// function of the characters alone.
#[verifier::external_body]
fn to_lower(s: &str) -> (r: String)
    ensures
        r@ == lower_of(s@),
{
    s.to_lowercase()
}

/// Relies on char::is_alphanumeric: Unicode's Alphabetic or Numeric
/// property of one character.
#[verifier::external_body]
fn is_alphanumeric(c: char) -> (r: bool)
    ensures
        r == alnum(c),
{
    c.is_alphanumeric()
}

/// The whitespace-separated words of `s`, each keeping its alphanumeric
/// characters only (a word may become empty).
pub open spec fn clean_words(s: Seq<char>) -> Seq<Seq<char>>
    decreases s.len(),
{
    if s.len() == 0 {
        Seq::empty()
    } else {
        let w = clean_words(s.drop_last());
        let c = s.last();
        if is_ws_spec(c) {
            w
        } else {
            let w2 = if token_starts_at(s, s.len() - 1) { w.push(Seq::empty()) } else { w };
            if w2.len() > 0 && alnum(c) {
                w2.update(w2.len() - 1, w2.last().push(c))
            } else {
                w2
            }
        }
    }
}

/// The UTF-8 length of a character.
pub open spec fn char_bytes(c: char) -> nat {
    if (c as u32) < 0x80 {
        1
    } else if (c as u32) < 0x800 {
        2
    } else if (c as u32) < 0x10000 {
        3
    } else {
        4
    }
}

/// The UTF-8 length of a text.
pub open spec fn utf8_len(w: Seq<char>) -> nat
    decreases w.len(),
{
    if w.len() == 0 {
        0
    } else {
        utf8_len(w.drop_last()) + char_bytes(w.last())
    }
}

/// Common words that are never keywords.
pub open spec fn is_stop_spec(w: Seq<char>) -> bool {
    w == "the"@
        || w == "and"@
        || w == "for"@
        || w == "that"@
        || w == "this"@
        || w == "with"@
        || w == "from"@
        || w == "have"@
        || w == "been"@
        || w == "will"@
        || w == "are"@
        || w == "was"@
        || w == "were"@
        || w == "not"@
        || w == "but"@
        || w == "can"@
        || w == "all"@
        || w == "has"@
        || w == "each"@
        || w == "which"@
        || w == "their"@
        || w == "there"@
        || w == "about"@
        || w == "would"@
        || w == "make"@
        || w == "like"@
        || w == "just"@
        || w == "over"@
        || w == "such"@
        || w == "take"@
        || w == "than"@
        || w == "them"@
        || w == "very"@
        || w == "some"@
        || w == "into"@
        || w == "most"@
        || w == "other"@
        || w == "also"@
        || w == "more"@
        || w == "what"@
        || w == "when"@
        || w == "your"@
}

/// Whether `w` is one of the common words that are never keywords.
pub fn is_stop_word(w: &str) -> (r: bool)
    ensures
        r == is_stop_spec(w@),
{
    str_eq(w, "the")
        || str_eq(w, "and")
        || str_eq(w, "for")
        || str_eq(w, "that")
        || str_eq(w, "this")
        || str_eq(w, "with")
        || str_eq(w, "from")
        || str_eq(w, "have")
        || str_eq(w, "been")
        || str_eq(w, "will")
        || str_eq(w, "are")
        || str_eq(w, "was")
        || str_eq(w, "were")
        || str_eq(w, "not")
        || str_eq(w, "but")
        || str_eq(w, "can")
        || str_eq(w, "all")
        || str_eq(w, "has")
        || str_eq(w, "each")
        || str_eq(w, "which")
        || str_eq(w, "their")
        || str_eq(w, "there")
        || str_eq(w, "about")
        || str_eq(w, "would")
        || str_eq(w, "make")
        || str_eq(w, "like")
        || str_eq(w, "just")
        || str_eq(w, "over")
        || str_eq(w, "such")
        || str_eq(w, "take")
        || str_eq(w, "than")
        || str_eq(w, "them")
        || str_eq(w, "very")
        || str_eq(w, "some")
        || str_eq(w, "into")
        || str_eq(w, "most")
        || str_eq(w, "other")
        || str_eq(w, "also")
        || str_eq(w, "more")
        || str_eq(w, "what")
        || str_eq(w, "when")
        || str_eq(w, "your")
}

/// A word long enough and not common.
pub open spec fn is_keyword(w: Seq<char>) -> bool {
    utf8_len(w) >= MIN_KEYWORD_BYTES && !is_stop_spec(w)
}

/// The last place of key `w` in `t`, or -1.
pub open spec fn key_place(t: Seq<(Seq<char>, nat)>, w: Seq<char>) -> int
    decreases t.len(),
{
    if t.len() == 0 {
        -1
    } else if t.last().0 == w {
        t.len() - 1
    } else {
        key_place(t.drop_last(), w)
    }
}

/// The keywords of `words` with their counts, in order of first use.
pub open spec fn tally(words: Seq<Seq<char>>) -> Seq<(Seq<char>, nat)>
    decreases words.len(),
{
    if words.len() == 0 {
        Seq::empty()
    } else {
        let t = tally(words.drop_last());
        let w = words.last();
        if !is_keyword(w) {
            t
        } else if key_place(t, w) >= 0 {
            let i = key_place(t, w);
            t.update(i, (w, t[i].1 + 1))
        } else {
            t.push((w, 1nat))
        }
    }
}

proof fn lemma_key_place(t: Seq<(Seq<char>, nat)>, w: Seq<char>)
    ensures
        -1 <= key_place(t, w) < t.len(),
        key_place(t, w) >= 0 ==> t[key_place(t, w)].0 == w,
        key_place(t, w) < 0 ==> forall|i: int| 0 <= i < t.len() ==> t[i].0 != w,
    decreases t.len(),
{
    if t.len() > 0 {
        lemma_key_place(t.drop_last(), w);
        if t.last().0 != w && key_place(t, w) < 0 {
            assert forall|i: int| 0 <= i < t.len() implies t[i].0 != w by {
                if i < t.len() - 1 {
                    assert(t.drop_last()[i] == t[i]);
                }
            }
        }
    }
}

/// The view of a list of texts with counts.
pub open spec fn counted_view(v: Seq<(String, u64)>) -> Seq<(Seq<char>, nat)> {
    v.map_values(|e: (String, u64)| (e.0@, e.1 as nat))
}

fn utf8_bytes(w: &str) -> (r: u128)
    ensures
        r == utf8_len(w@),
{
    let n = w.unicode_len();
    let mut total: u128 = 0;
    let mut i: usize = 0;
    while i < n
        invariant
            n == w@.len(),
            i <= n,
            total == utf8_len(w@.subrange(0, i as int)),
            total <= 4 * i,
        decreases n - i,
    {
        let c = w.get_char(i);
        proof {
            let t = w@.subrange(0, i + 1);
            assert(t.drop_last() =~= w@.subrange(0, i as int));
        }
        let b: u128 = if (c as u32) < 0x80 {
            1
        } else if (c as u32) < 0x800 {
            2
        } else if (c as u32) < 0x10000 {
            3
        } else {
            4
        };
        total = total + b;
        i = i + 1;
    }
    assert(w@.subrange(0, n as int) =~= w@);
    total
}

/// The cleaned words of `s`.
fn split_clean(s: &str) -> (r: Vec<String>)
    ensures
        text_views(r@) == clean_words(s@),
{
    let n = s.unicode_len();
    let mut words: Vec<String> = Vec::new();
    let mut prev_ws = true;
    let mut i: usize = 0;
    while i < n
        invariant
            n == s@.len(),
            i <= n,
            text_views(words@) == clean_words(s@.subrange(0, i as int)),
            i > 0 ==> prev_ws == is_ws_spec(s@[i - 1]),
            i == 0 ==> prev_ws,
        decreases n - i,
    {
        let c = s.get_char(i);
        let ghost before = text_views(words@);
        proof {
            let t = s@.subrange(0, i + 1);
            assert(t.drop_last() =~= s@.subrange(0, i as int));
            assert(t.last() == c);
        }
        let ws = is_ws(c);
        if !ws {
            if prev_ws {
                words.push(String::new());
                assert(text_views(words@) =~= before.push(Seq::empty()));
            }
            let ghost w2 = text_views(words@);
            if words.len() > 0 && is_alphanumeric(c) {
                let ghost wv = words@;
                let mut last = words.pop().unwrap();
                let one = s.substring_char(i, i + 1);
                assert(one@ =~= seq![c]);
                last.append(one);
                words.push(last);
                assert(words@ == wv.update(wv.len() - 1, last));
                assert forall|k: int| 0 <= k < words@.len() implies #[trigger] text_views(words@)[k] == w2.update(
                    w2.len() - 1,
                    w2.last().push(c),
                )[k] by {
                    if k < words@.len() - 1 {
                        assert(words@[k] == wv[k]);
                    }
                }
                assert(text_views(words@) =~= w2.update(w2.len() - 1, w2.last().push(c)));
            }
        }
        prev_ws = ws;
        i = i + 1;
    }
    assert(s@.subrange(0, n as int) =~= s@);
    words
}

/// The keywords of the text `lowered` with their counts, in order of first
/// use.
pub fn keyword_tally(lowered: &str) -> (r: Vec<(String, u64)>)
    ensures
        counted_view(r@) == tally(clean_words(lowered@)),
{
    let words = split_clean(lowered);
    let ghost ws = text_views(words@);
    let mut t: Vec<(String, u64)> = Vec::new();
    let mut i: usize = 0;
    while i < words.len()
        invariant
            ws == text_views(words@),
            i <= words@.len(),
            counted_view(t@) == tally(ws.subrange(0, i as int)),
            forall|k: int| 0 <= k < t@.len() ==> (#[trigger] t@[k]).1 <= i,
        decreases words@.len() - i,
    {
        let w = words[i].as_str();
        let ghost before = counted_view(t@);
        proof {
            let sub = ws.subrange(0, i + 1);
            assert(sub.drop_last() =~= ws.subrange(0, i as int));
            assert(sub.last() == w@);
        }
        if utf8_bytes(w) >= MIN_KEYWORD_BYTES as u128 && !is_stop_word(w) {
            let mut j: usize = t.len();
            let mut found = false;
            assert(before.subrange(0, before.len() as int) =~= before);
            while j > 0 && !found
                invariant
                    j <= t@.len(),
                    before == counted_view(t@),
                    key_place(before, w@) == key_place(before.subrange(0, j as int), w@) || found,
                    found ==> j < t@.len() && key_place(before, w@) == j && t@[j as int].0@ == w@,
                decreases j + if found { 0int } else { 1int },
            {
                proof {
                    let sub = before.subrange(0, j as int);
                    assert(sub.drop_last() =~= before.subrange(0, j - 1));
                    assert(sub.last() == before[j - 1]);
                }
                if str_eq(t[j - 1].0.as_str(), w) {
                    found = true;
                }
                j = j - 1;
            }
            proof {
                lemma_key_place(before, w@);
            }
            if found {
                let key = t[j].0.clone();
                let c = t[j].1;
                t.set(j, (key, c + 1));
                assert(counted_view(t@) =~= before.update(j as int, (w@, before[j as int].1 + 1)));
            } else {
                assert(before.subrange(0, 0) =~= Seq::<(Seq<char>, nat)>::empty());
                t.push((String::from_str(w), 1));
                assert(counted_view(t@) =~= before.push((w@, 1nat)));
            }
        }
        i = i + 1;
    }
    assert(ws.subrange(0, words@.len() as int) =~= ws);
    t
}

/// Ranking keys of counted entries: higher count first, then earlier entry.
pub open spec fn rank_keys<K>(t: Seq<(K, nat)>) -> Seq<(i128, i128, i128)> {
    Seq::new(t.len(), |k: int| ((-(t[k].1 as int)) as i128, k as i128, 0i128))
}

/// `kws` are the first `KEYWORD_LIMIT` words of tally `t` by count, ties in
/// order of first use.
pub open spec fn top_of(t: Seq<(Seq<char>, nat)>, kws: Seq<Seq<char>>) -> bool {
    exists|order: Seq<usize>|
        {
            &&& is_perm(order, t.len())
            &&& sorted_by(order, rank_keys(t))
            &&& kws.len() == if t.len() < KEYWORD_LIMIT { t.len() as int } else { KEYWORD_LIMIT as int }
            &&& forall|k: int| 0 <= k < kws.len() ==> #[trigger] kws[k] == t[order[k] as int].0
        }
}

/// The most frequent keywords of a tally.
pub fn top_keywords(t: &Vec<(String, u64)>) -> (r: Vec<String>)
    ensures
        top_of(counted_view(t@), text_views(r@)),
{
    let ghost tv = counted_view(t@);
    let mut keys: Vec<(i128, i128, i128)> = Vec::new();
    let mut i: usize = 0;
    while i < t.len()
        invariant
            tv == counted_view(t@),
            i <= t@.len(),
            keys@.len() == i,
            forall|k: int| 0 <= k < i ==> #[trigger] keys@[k] == rank_keys(tv)[k],
        decreases t@.len() - i,
    {
        keys.push((-(t[i].1 as i128), i as i128, 0));
        i = i + 1;
    }
    assert(keys@ =~= rank_keys(tv));
    let order = sort_indices(&keys);
    let count: usize = if order.len() < KEYWORD_LIMIT { order.len() } else { KEYWORD_LIMIT };
    let mut r: Vec<String> = Vec::new();
    let mut k: usize = 0;
    while k < count
        invariant
            tv == counted_view(t@),
            count <= order@.len(),
            is_perm(order@, tv.len()),
            k <= count,
            r@.len() == k,
            forall|x: int| 0 <= x < k ==> #[trigger] text_views(r@)[x] == tv[order@[x] as int].0,
        decreases count - k,
    {
        let ghost prev = r@;
        r.push(t[order[k]].0.clone());
        proof {
            assert forall|x: int| 0 <= x < k + 1 implies #[trigger] text_views(r@)[x] == tv[order@[x] as int].0 by {
                if x < k {
                    assert(r@[x] == prev[x]);
                    assert(text_views(prev)[x] == tv[order@[x] as int].0);
                } else {
                    assert(tv[order@[x] as int] == (t@[order@[x] as int].0@, t@[order@[x] as int].1 as nat));
                }
            }
        }
        k = k + 1;
    }
    assert(order@.len() == order.len());
    r
}

/// `q` occurs in `text` as whole tokens, up to ASCII case.
pub open spec fn has_word(text: Seq<char>, q: Seq<char>) -> bool {
    has_phrase(text, tokens(q), false)
}

fn contains_word(text: &str, qt: &Vec<String>, q: &str) -> (r: bool)
    requires
        text_views_q(qt@) == tokens(q@),
    ensures
        r == has_word(text@, q@),
{
    let sp = token_spans(text);
    find_phrase(text, &sp, qt, false).is_some()
}

/// Another live note that contains keyword `kw` as whole words.
pub open spec fn hits_keyword(n: NoteData, note: u128, kw: Seq<char>) -> bool {
    !n.is_trashed && n.id != note && (has_word(n.title@, kw) || has_word(n.plain_text@, kw))
}

pub open spec fn hit_pred(note: u128, kw: Seq<char>) -> spec_fn(NoteData) -> bool {
    |n: NoteData| hits_keyword(n, note, kw)
}

/// The ids of the first `HIT_LIMIT` notes, in table order, that keyword
/// `kw` of note `note` hits.
pub open spec fn hits_spec(notes: Seq<NoteData>, note: u128, kw: Seq<char>) -> Seq<u128> {
    let all = keep(notes, hit_pred(note, kw)).map_values(|n: NoteData| n.id);
    if all.len() < HIT_LIMIT { all } else { all.subrange(0, HIT_LIMIT as int) }
}

fn keyword_hits(db: &Database, note_id: u128, kw: &str) -> (r: Vec<u128>)
    ensures
        r@ == hits_spec(db.notes@, note_id, kw@),
{
    let ghost p = hit_pred(note_id, kw@);
    let qt = token_texts(kw);
    assert(text_views_q(qt@) =~= tokens(kw@));
    let mut r: Vec<u128> = Vec::new();
    let mut i: usize = 0;
    while i < db.notes.len() && r.len() < HIT_LIMIT
        invariant
            p == hit_pred(note_id, kw@),
            text_views_q(qt@) == tokens(kw@),
            i <= db.notes@.len(),
            r@.len() <= HIT_LIMIT,
            r@ == keep(db.notes@.subrange(0, i as int), p).map_values(|n: NoteData| n.id),
        decreases db.notes@.len() - i,
    {
        let ghost prev = keep(db.notes@.subrange(0, i as int), p);
        proof {
            let s = db.notes@.subrange(0, i + 1);
            assert(s.drop_last() =~= db.notes@.subrange(0, i as int));
        }
        let n = &db.notes[i];
        if !n.is_trashed && n.id != note_id && (contains_word(n.title.as_str(), &qt, kw) || contains_word(
            n.plain_text.as_str(),
            &qt,
            kw,
        )) {
            r.push(n.id);
            proof {
                let cur = keep(db.notes@.subrange(0, i + 1), p);
                assert(cur == prev.push(db.notes@[i as int]));
                assert(r@ =~= cur.map_values(|n: NoteData| n.id));
            }
        }
        i = i + 1;
    }
    proof {
        crate::search::lemma_keep_prefix_len(db.notes@, p, i as int);
        crate::search::lemma_keep_prefix(db.notes@, p, i as int);
        let all = keep(db.notes@, p).map_values(|n: NoteData| n.id);
        let part = keep(db.notes@.subrange(0, i as int), p);
        if i == db.notes@.len() {
            assert(db.notes@.subrange(0, i as int) =~= db.notes@);
        } else {
            assert(r@ =~= all.subrange(0, HIT_LIMIT as int));
        }
    }
    r
}

/// The last place of note `id` in score list `t`, or -1.
pub open spec fn id_place(t: Seq<(u128, nat)>, id: u128) -> int
    decreases t.len(),
{
    if t.len() == 0 {
        -1
    } else if t.last().0 == id {
        t.len() - 1
    } else {
        id_place(t.drop_last(), id)
    }
}

proof fn lemma_id_place(t: Seq<(u128, nat)>, id: u128)
    ensures
        -1 <= id_place(t, id) < t.len(),
        id_place(t, id) >= 0 ==> t[id_place(t, id)].0 == id,
        id_place(t, id) < 0 ==> forall|i: int| 0 <= i < t.len() ==> t[i].0 != id,
    decreases t.len(),
{
    if t.len() > 0 {
        lemma_id_place(t.drop_last(), id);
        if t.last().0 != id && id_place(t, id) < 0 {
            assert forall|i: int| 0 <= i < t.len() implies t[i].0 != id by {
                if i < t.len() - 1 {
                    assert(t.drop_last()[i] == t[i]);
                }
            }
        }
    }
}

/// Scores `sc` with one more point for each of `ids`; new notes are added
/// at the end.
pub open spec fn acc(sc: Seq<(u128, nat)>, ids: Seq<u128>) -> Seq<(u128, nat)>
    decreases ids.len(),
{
    if ids.len() == 0 {
        sc
    } else {
        let s = acc(sc, ids.drop_last());
        let id = ids.last();
        let p = id_place(s, id);
        if p >= 0 {
            s.update(p, (id, s[p].1 + 1))
        } else {
            s.push((id, 1nat))
        }
    }
}

/// The scores of the notes that keywords `kws` of note `note` hit.
pub open spec fn scores_over(notes: Seq<NoteData>, note: u128, kws: Seq<Seq<char>>) -> Seq<(u128, nat)>
    decreases kws.len(),
{
    if kws.len() == 0 {
        Seq::empty()
    } else {
        acc(scores_over(notes, note, kws.drop_last()), hits_spec(notes, note, kws.last()))
    }
}

pub open spec fn scored_view(v: Seq<(u128, u64)>) -> Seq<(u128, nat)> {
    v.map_values(|e: (u128, u64)| (e.0, e.1 as nat))
}

fn add_hits(scores: &mut Vec<(u128, u64)>, ids: &Vec<u128>, round: usize)
    requires
        round < KEYWORD_LIMIT,
        ids@.len() <= HIT_LIMIT,
        forall|k: int| 0 <= k < old(scores)@.len() ==> (#[trigger] old(scores)@[k]).1 <= round * HIT_LIMIT,
    ensures
        scored_view(final(scores)@) == acc(scored_view(old(scores)@), ids@),
        forall|k: int| 0 <= k < final(scores)@.len() ==> (#[trigger] final(scores)@[k]).1 <= (round + 1) * HIT_LIMIT,
{
    let ghost start = scored_view(scores@);
    let mut j: usize = 0;
    while j < ids.len()
        invariant
            j <= ids@.len(),
            ids@.len() <= HIT_LIMIT,
            round < KEYWORD_LIMIT,
            scored_view(scores@) == acc(start, ids@.subrange(0, j as int)),
            forall|k: int| 0 <= k < scores@.len() ==> (#[trigger] scores@[k]).1 <= round * HIT_LIMIT + j,
        decreases ids@.len() - j,
    {
        let id = ids[j];
        let ghost before = scored_view(scores@);
        proof {
            let sub = ids@.subrange(0, j + 1);
            assert(sub.drop_last() =~= ids@.subrange(0, j as int));
            lemma_id_place(before, id);
        }
        let mut q: usize = scores.len();
        let mut found = false;
        assert(before.subrange(0, before.len() as int) =~= before);
        while q > 0 && !found
            invariant
                q <= scores@.len(),
                before == scored_view(scores@),
                j < ids@.len(),
                ids@.len() <= HIT_LIMIT,
                round < KEYWORD_LIMIT,
                forall|k: int| 0 <= k < scores@.len() ==> (#[trigger] scores@[k]).1 <= round * HIT_LIMIT + j,
                id_place(before, id) == id_place(before.subrange(0, q as int), id) || found,
                found ==> q < scores@.len() && id_place(before, id) == q,
            decreases q + if found { 0int } else { 1int },
        {
            proof {
                let sub = before.subrange(0, q as int);
                assert(sub.drop_last() =~= before.subrange(0, q - 1));
                assert(sub.last() == before[q - 1]);
            }
            if scores[q - 1].0 == id {
                found = true;
            }
            q = q - 1;
        }
        if found {
            let c = scores[q].1;
            scores.set(q, (id, c + 1));
            assert(scored_view(scores@) =~= before.update(q as int, (id, before[q as int].1 + 1)));
        } else {
            assert(before.subrange(0, 0) =~= Seq::<(u128, nat)>::empty());
            scores.push((id, 1));
            assert(scored_view(scores@) =~= before.push((id, 1nat)));
        }
        j = j + 1;
    }
    assert(ids@.subrange(0, ids@.len() as int) =~= ids@);
}

/// A related-note entry for score entry `e` among `kcount` keywords.
pub open spec fn related_item_ok(notes: Seq<NoteData>, item: RelatedNoteItem, e: (u128, nat), kcount: nat) -> bool {
    &&& item.id == e.0
    &&& item.score == (200 * e.1 + kcount) / (2 * kcount)
    &&& exists|i: int|
        0 <= i < notes.len() && #[trigger] notes[i].id == e.0 && notes[i].title == item.title && notes[i].emoji
            == item.emoji
}

/// `r` holds the best `RELATED_LIMIT` entries of `sc`, highest score first,
/// ties in order of first hit.
pub open spec fn ranked(notes: Seq<NoteData>, sc: Seq<(u128, nat)>, kcount: nat, r: Seq<RelatedNoteItem>) -> bool {
    exists|order: Seq<usize>|
        {
            &&& is_perm(order, sc.len())
            &&& sorted_by(order, rank_keys(sc))
            &&& r.len() == if sc.len() < RELATED_LIMIT { sc.len() as int } else { RELATED_LIMIT as int }
            &&& forall|k: int| 0 <= k < r.len() ==> related_item_ok(notes, #[trigger] r[k], sc[order[k] as int], kcount)
        }
}

proof fn lemma_acc_ids(notes: Seq<NoteData>, sc: Seq<(u128, nat)>, ids: Seq<u128>)
    requires
        forall|k: int| 0 <= k < sc.len() ==> has_note_in(notes, #[trigger] sc[k].0),
        forall|k: int| 0 <= k < ids.len() ==> has_note_in(notes, #[trigger] ids[k]),
    ensures
        forall|k: int| 0 <= k < acc(sc, ids).len() ==> has_note_in(notes, #[trigger] acc(sc, ids)[k].0),
    decreases ids.len(),
{
    if ids.len() > 0 {
        let d = ids.drop_last();
        assert forall|k: int| 0 <= k < d.len() implies has_note_in(notes, #[trigger] d[k]) by {
            assert(d[k] == ids[k]);
        }
        lemma_acc_ids(notes, sc, d);
        let s = acc(sc, d);
        lemma_id_place(s, ids.last());
        assert(has_note_in(notes, ids[ids.len() - 1]));
    }
}

proof fn lemma_scores_ids(notes: Seq<NoteData>, note: u128, kws: Seq<Seq<char>>)
    ensures
        forall|k: int|
            0 <= k < scores_over(notes, note, kws).len() ==> has_note_in(notes, #[trigger] scores_over(notes, note, kws)[k].0),
    decreases kws.len(),
{
    if kws.len() > 0 {
        lemma_scores_ids(notes, note, kws.drop_last());
        let kw = kws.last();
        let kept = keep(notes, hit_pred(note, kw));
        crate::store::lemma_keep_from(notes, hit_pred(note, kw));
        let h = hits_spec(notes, note, kw);
        assert forall|k: int| 0 <= k < h.len() implies has_note_in(notes, #[trigger] h[k]) by {
            assert(h[k] == kept[k].id);
            let j = choose|j: int| 0 <= j < notes.len() && notes[j] == kept[k];
            assert(notes[j].id == h[k]);
        }
        lemma_acc_ids(notes, scores_over(notes, note, kws.drop_last()), h);
    }
}

/// The related notes of note `note_id` whose plain text, lower-cased, is
/// `lowered`: the most frequent keywords of the text each hit up to
/// `HIT_LIMIT` other live notes, and the notes hit most are returned with
/// their score in percent of the keywords.
pub fn related_from_lowered(db: &Database, note_id: u128, lowered: &str) -> (r: Vec<RelatedNoteItem>)
    requires
        db.wf(),
    ensures
        exists|kws: Seq<Seq<char>>|
            {
                &&& top_of(tally(clean_words(lowered@)), kws)
                &&& kws.len() == 0 ==> r@.len() == 0
                &&& kws.len() > 0 ==> ranked(db.notes@, scores_over(db.notes@, note_id, kws), kws.len(), r@)
            },
{
    let t = keyword_tally(lowered);
    let kws = top_keywords(&t);
    let ghost kv = text_views(kws@);
    if kws.len() == 0 {
        return Vec::new();
    }
    let mut scores: Vec<(u128, u64)> = Vec::new();
    let mut k: usize = 0;
    while k < kws.len()
        invariant
            kv == text_views(kws@),
            kws@.len() <= KEYWORD_LIMIT,
            k <= kws@.len(),
            scored_view(scores@) == scores_over(db.notes@, note_id, kv.subrange(0, k as int)),
            forall|x: int| 0 <= x < scores@.len() ==> (#[trigger] scores@[x]).1 <= k * HIT_LIMIT,
        decreases kws@.len() - k,
    {
        let ids = keyword_hits(db, note_id, kws[k].as_str());
        proof {
            let sub = kv.subrange(0, k + 1);
            assert(sub.drop_last() =~= kv.subrange(0, k as int));
            assert(sub.last() == kws@[k as int]@);
        }
        add_hits(&mut scores, &ids, k);
        k = k + 1;
    }
    assert(kv.subrange(0, kws@.len() as int) =~= kv);
    let ghost sc = scored_view(scores@);
    proof {
        lemma_scores_ids(db.notes@, note_id, kv);
    }
    let mut keys: Vec<(i128, i128, i128)> = Vec::new();
    let mut i: usize = 0;
    while i < scores.len()
        invariant
            sc == scored_view(scores@),
            i <= scores@.len(),
            keys@.len() == i,
            forall|x: int| 0 <= x < i ==> #[trigger] keys@[x] == rank_keys(sc)[x],
        decreases scores@.len() - i,
    {
        keys.push((-(scores[i].1 as i128), i as i128, 0));
        i = i + 1;
    }
    assert(keys@ =~= rank_keys(sc));
    let order = sort_indices(&keys);
    let kc = kws.len() as u64;
    let count: usize = if order.len() < RELATED_LIMIT { order.len() } else { RELATED_LIMIT };
    let mut r: Vec<RelatedNoteItem> = Vec::new();
    let mut x: usize = 0;
    while x < count
        invariant
            db.wf(),
            sc == scored_view(scores@),
            sc == scores_over(db.notes@, note_id, kv),
            forall|k: int| 0 <= k < sc.len() ==> has_note_in(db.notes@, #[trigger] sc[k].0),
            forall|k: int| 0 <= k < scores@.len() ==> (#[trigger] scores@[k]).1 <= KEYWORD_LIMIT * HIT_LIMIT,
            kc == kv.len(),
            1 <= kc <= KEYWORD_LIMIT,
            count <= order@.len(),
            is_perm(order@, sc.len()),
            x <= count,
            r@.len() == x,
            forall|y: int| 0 <= y < x ==> related_item_ok(db.notes@, #[trigger] r@[y], sc[order@[y] as int], kc as nat),
        decreases count - x,
    {
        let (id, s) = scores[order[x]];
        proof {
            assert(sc[order@[x as int] as int] == (id, s as nat));
            assert(has_note_in(db.notes@, sc[order@[x as int] as int].0));
        }
        match db.find_note(id) {
            Some(p) => {
                let n = &db.notes[p];
                let score = (200 * s + kc) / (2 * kc);
                r.push(RelatedNoteItem { id, title: n.title.clone(), emoji: copy_opt(&n.emoji), score });
                proof {
                    assert(db.notes@[p as int].id == id);
                }
            },
            None => {
                proof {
                    let j = choose|j: int| 0 <= j < db.notes@.len() && #[trigger] db.notes@[j].id == id;
                    assert(db.notes@[j].id != id);
                }
            },
        }
        x = x + 1;
    }
    assert(order@.len() == order.len());
    r
}

/// The notes related to note `note_id`; none when its plain text is blank.
pub fn find_related_notes(db: &Database, note_id: u128) -> (r: Result<Vec<RelatedNoteItem>, StoreError>)
    requires
        db.wf(),
    ensures
        r is Ok <==> db.has_note(note_id),
        r is Err ==> r == Err::<Vec<RelatedNoteItem>, StoreError>(StoreError::NotFound),
        forall|i: int|
            0 <= i < db.notes@.len() && db.notes@[i].id == note_id ==> (r matches Ok(items) && (if trim_spec(
                db.notes@[i].plain_text@,
            ).len() == 0 {
                items@.len() == 0
            } else {
                exists|kws: Seq<Seq<char>>|
                    {
                        &&& top_of(tally(clean_words(lower_of(db.notes@[i].plain_text@))), kws)
                        &&& kws.len() == 0 ==> items@.len() == 0
                        &&& kws.len() > 0 ==> ranked(db.notes@, scores_over(db.notes@, note_id, kws), kws.len(), items@)
                    }
            })),
{
    match db.find_note(note_id) {
        None => Err(StoreError::NotFound),
        Some(i) => {
            proof {
                crate::notes::lemma_unique_place(*db, i as int, note_id);
            }
            let plain = db.notes[i].plain_text.as_str();
            if trim(plain).unicode_len() == 0 {
                return Ok(Vec::new());
            }
            let lowered = to_lower(plain);
            Ok(related_from_lowered(db, note_id, lowered.as_str()))
        },
    }
}

} // verus!
