//! The link graph: wikilinks resolved by case-insensitive title, and
//! backlink queries.
use vstd::prelude::*;
use crate::model::{BacklinkItem, NoteData, NoteTitleItem, StoreError, Wikilink};
use crate::model::copy_opt;
use crate::notes::{link_avoids, purged, tag_row_avoids};
use crate::tags::{listed, of_note};
use crate::order::{is_perm, sort_texts, sorted_by_text, text_views};
use crate::store::{Database, has_note_in, keep, lemma_keep_all, lemma_keep_distinct, lemma_keep_from, wikilinks_wf};

verus! {

pub open spec fn is_upper(c: char) -> bool {
    'A' <= c && c <= 'Z'
}

/// Equal characters up to ASCII case.
pub open spec fn fold_eq(a: char, b: char) -> bool {
    a == b || (is_upper(a) && b as u32 == a as u32 + 32) || (is_upper(b) && a as u32 == b as u32 + 32)
}

/// Equal texts up to ASCII case.
pub open spec fn ci_eq(a: Seq<char>, b: Seq<char>) -> bool {
    a.len() == b.len() && forall|i: int| 0 <= i < a.len() ==> fold_eq(a[i], b[i])
}

fn char_fold_eq(a: char, b: char) -> (r: bool)
    ensures
        r == fold_eq(a, b),
{
    a == b || ('A' <= a && a <= 'Z' && b as u32 == a as u32 + 32) || ('A' <= b && b <= 'Z' && a as u32 == b as u32
        + 32)
}

/// Whether `a` and `b` are equal up to ASCII case.
pub fn eq_ignore_case(a: &str, b: &str) -> (r: bool)
    ensures
        r == ci_eq(a@, b@),
{
    let n = a.unicode_len();
    if n != b.unicode_len() {
        return false;
    }
    let mut i: usize = 0;
    while i < n
        invariant
            n == a@.len() && n == b@.len(),
            i <= n,
            forall|k: int| 0 <= k < i ==> fold_eq(a@[k], b@[k]),
        decreases n - i,
    {
        if !char_fold_eq(a.get_char(i), b.get_char(i)) {
            return false;
        }
        i = i + 1;
    }
    true
}

/// Note `i` is a live note other than `src` whose title matches `title`.
pub open spec fn link_target_at(notes: Seq<NoteData>, src: u128, title: Seq<char>, i: int) -> bool {
    0 <= i < notes.len() && !notes[i].is_trashed && notes[i].id != src && ci_eq(notes[i].title@, title)
}

/// `title`, written in note `src`, resolves to note `target`: the first
/// matching live note other than `src`.
pub open spec fn resolves(notes: Seq<NoteData>, src: u128, title: Seq<char>, target: u128) -> bool {
    exists|i: int|
        #[trigger] link_target_at(notes, src, title, i) && notes[i].id == target && forall|k: int|
            0 <= k < i ==> !link_target_at(notes, src, title, k)
}

fn resolve_title(db: &Database, src: u128, title: &str) -> (r: Option<usize>)
    ensures
        match r {
            Some(i) => link_target_at(db.notes@, src, title@, i as int) && forall|k: int|
                0 <= k < i ==> !link_target_at(db.notes@, src, title@, k),
            None => forall|k: int| !link_target_at(db.notes@, src, title@, k),
        },
{
    let mut i: usize = 0;
    while i < db.notes.len()
        invariant
            i <= db.notes@.len(),
            forall|k: int| 0 <= k < i ==> !link_target_at(db.notes@, src, title@, k),
        decreases db.notes@.len() - i,
    {
        if !db.notes[i].is_trashed && db.notes[i].id != src && eq_ignore_case(db.notes[i].title.as_str(), title) {
            return Some(i);
        }
        i = i + 1;
    }
    None
}

/// Links that do not start at `src`.
pub open spec fn not_from(src: u128) -> spec_fn(Wikilink) -> bool {
    |w: Wikilink| w.source != src
}

/// The links from note `src` after a resync with target titles `titles`:
/// links of other notes stay, and `src` links to exactly the notes its
/// titles resolve to.
pub open spec fn links_synced(old_db: Database, new_db: Database, src: u128, titles: Seq<Seq<char>>) -> bool {
    &&& new_db.notes@ == old_db.notes@
    &&& new_db.tags@ == old_db.tags@
    &&& new_db.note_tags@ == old_db.note_tags@
    &&& new_db.flashcards@ == old_db.flashcards@
    &&& forall|w: Wikilink|
        w.source != src ==> (#[trigger] new_db.wikilinks@.contains(w) <==> old_db.wikilinks@.contains(w))
    &&& forall|t: u128|
        #[trigger] new_db.wikilinks@.contains(Wikilink { source: src, target: t }) <==> exists|k: int|
            0 <= k < titles.len() && #[trigger] resolves(old_db.notes@, src, titles[k], t)
}

/// Replaces the wikilinks from note `note_id` by links to the notes its
/// `target_titles` resolve to. Titles that resolve to nothing are dropped.
pub fn sync_wikilinks(db: &mut Database, note_id: u128, target_titles: Vec<String>) -> (r: Result<(), StoreError>)
    requires
        old(db).wf(),
    ensures
        final(db).wf(),
        r is Ok <==> old(db).has_note(note_id),
        r is Err ==> r == Err::<(), StoreError>(StoreError::NotFound) && *final(db) == *old(db),
        r is Ok ==> links_synced(*old(db), *final(db), note_id, target_titles@.map_values(|s: String| s@)),
{
    if db.find_note(note_id).is_none() {
        return Err(StoreError::NotFound);
    }
    let ghost o = *db;
    let ghost titles = target_titles@.map_values(|s: String| s@);
    let mut links: Vec<Wikilink> = Vec::new();
    let mut i: usize = 0;
    while i < db.wikilinks.len()
        invariant
            *db == o,
            i <= o.wikilinks@.len(),
            links@ == keep(o.wikilinks@.subrange(0, i as int), not_from(note_id)),
        decreases o.wikilinks@.len() - i,
    {
        let w = db.wikilinks[i];
        proof {
            let s = o.wikilinks@.subrange(0, i + 1);
            assert(s.drop_last() =~= o.wikilinks@.subrange(0, i as int));
        }
        if w.source != note_id {
            links.push(w);
        }
        i = i + 1;
    }
    assert(o.wikilinks@.subrange(0, o.wikilinks@.len() as int) =~= o.wikilinks@);
    proof {
        lemma_keep_from(o.wikilinks@, not_from(note_id));
        lemma_keep_all(o.wikilinks@, not_from(note_id));
        lemma_keep_distinct(o.wikilinks@, not_from(note_id), |w: Wikilink| w);
        assert forall|w: Wikilink| w.source != note_id implies (links@.contains(w) <==> o.wikilinks@.contains(w)) by {
            if o.wikilinks@.contains(w) {
                let q = choose|q: int| 0 <= q < o.wikilinks@.len() && o.wikilinks@[q] == w;
                assert(links@.contains(o.wikilinks@[q]));
            }
        }
        assert forall|q: int| 0 <= q < links@.len() implies (#[trigger] links@[q]).source != links@[q].target
            && has_note_in(o.notes@, links@[q].source) && has_note_in(o.notes@, links@[q].target) by {
            let j = choose|j: int| 0 <= j < o.wikilinks@.len() && o.wikilinks@[j] == links@[q];
            assert(o.wikilinks@[j] == links@[q]);
        }
    }
    let mut k: usize = 0;
    while k < target_titles.len()
        invariant
            *db == o,
            o.wf(),
            o.has_note(note_id),
            titles == target_titles@.map_values(|s: String| s@),
            k <= titles.len(),
            forall|a: int, b: int| 0 <= a < b < links@.len() ==> links@[a] != links@[b],
            forall|q: int|
                0 <= q < links@.len() ==> (#[trigger] links@[q]).source != links@[q].target && has_note_in(
                    o.notes@,
                    links@[q].source,
                ) && has_note_in(o.notes@, links@[q].target),
            forall|w: Wikilink| w.source != note_id ==> (#[trigger] links@.contains(w) <==> o.wikilinks@.contains(w)),
            forall|t: u128|
                #[trigger] links@.contains(Wikilink { source: note_id, target: t }) <==> exists|m: int|
                    0 <= m < k && #[trigger] resolves(o.notes@, note_id, titles[m], t),
        decreases titles.len() - k,
    {
        let found = resolve_title(db, note_id, target_titles[k].as_str());
        let ghost before = links@;
        assert(titles[k as int] == target_titles@[k as int]@);
        match found {
            None => {
                proof {
                    assert forall|t: u128|
                        #[trigger] links@.contains(Wikilink { source: note_id, target: t }) <==> exists|m: int|
                            0 <= m < k + 1 && #[trigger] resolves(o.notes@, note_id, titles[m], t) by {
                        if resolves(o.notes@, note_id, titles[k as int], t) {
                            let i = choose|i: int| #[trigger] link_target_at(o.notes@, note_id, titles[k as int], i) && o.notes@[i].id == t
                                && forall|x: int| 0 <= x < i ==> !link_target_at(o.notes@, note_id, titles[k as int], x);
                        }
                        if exists|m: int| 0 <= m < k + 1 && #[trigger] resolves(o.notes@, note_id, titles[m], t) {
                            let m = choose|m: int| 0 <= m < k + 1 && #[trigger] resolves(o.notes@, note_id, titles[m], t);
                            if m == k {
                                let i = choose|i: int| #[trigger] link_target_at(o.notes@, note_id, titles[m], i) && o.notes@[i].id == t
                                    && forall|x: int| 0 <= x < i ==> !link_target_at(o.notes@, note_id, titles[m], x);
                            }
                        }
                        if exists|m: int| 0 <= m < k && #[trigger] resolves(o.notes@, note_id, titles[m], t) {
                            let m = choose|m: int| 0 <= m < k && #[trigger] resolves(o.notes@, note_id, titles[m], t);
                            assert(0 <= m < k + 1);
                        }
                    }
                }
            },
            Some(ti) => {
                let target = db.notes[ti].id;
                proof {
                    assert(resolves(o.notes@, note_id, titles[k as int], target)) by {
                        assert(link_target_at(o.notes@, note_id, titles[k as int], ti as int));
                    }
                    assert(has_note_in(o.notes@, target)) by {
                        assert(o.notes@[ti as int].id == target);
                    }
                }
                let w = Wikilink { source: note_id, target };
                let mut present = false;
                let mut q: usize = 0;
                while q < links.len()
                    invariant
                        q <= links@.len(),
                        present == exists|x: int| 0 <= x < q && links@[x] == w,
                    decreases links@.len() - q,
                {
                    if links[q].source == w.source && links[q].target == w.target {
                        present = true;
                    }
                    q = q + 1;
                }
                if !present {
                    links.push(w);
                    proof {
                        assert forall|a: int, b: int| 0 <= a < b < links@.len() implies links@[a] != links@[b] by {
                            if b == before.len() {
                                assert(links@[a] == before[a]);
                            }
                        }
                        assert forall|q2: int|
                            0 <= q2 < links@.len() implies (#[trigger] links@[q2]).source != links@[q2].target
                                && has_note_in(o.notes@, links@[q2].source) && has_note_in(o.notes@, links@[q2].target) by {
                            if q2 < before.len() {
                                assert(links@[q2] == before[q2]);
                            }
                        }
                    }
                } else {
                    proof {
                        let x = choose|x: int| 0 <= x < links@.len() && links@[x] == w;
                        assert(links@.contains(w));
                    }
                }
                proof {
                    assert(links@ == before || links@ == before.push(w));
                    assert forall|y: Wikilink| links@.contains(y) <==> (before.contains(y) || y == w) by {
                        if links@ == before.push(w) {
                            if links@.contains(y) {
                                let j = choose|j: int| 0 <= j < links@.len() && links@[j] == y;
                                if j < before.len() {
                                    assert(before[j] == y);
                                }
                            }
                            if before.contains(y) {
                                let j = choose|j: int| 0 <= j < before.len() && before[j] == y;
                                assert(links@[j] == y);
                            }
                            if y == w {
                                assert(links@[before.len() as int] == y);
                            }
                        }
                    }
                    assert forall|w2: Wikilink| w2.source != note_id implies (#[trigger] links@.contains(w2)
                        <==> o.wikilinks@.contains(w2)) by {
                        assert(before.contains(w2) <==> o.wikilinks@.contains(w2));
                    }
                    assert forall|t: u128|
                        #[trigger] links@.contains(Wikilink { source: note_id, target: t }) <==> exists|m: int|
                            0 <= m < k + 1 && #[trigger] resolves(o.notes@, note_id, titles[m], t) by {
                        let y = Wikilink { source: note_id, target: t };
                        assert(before.contains(y) <==> exists|m: int|
                            0 <= m < k && #[trigger] resolves(o.notes@, note_id, titles[m], t));
                        if resolves(o.notes@, note_id, titles[k as int], t) {
                            let i = choose|i: int| #[trigger] link_target_at(o.notes@, note_id, titles[k as int], i) && o.notes@[i].id == t
                                && forall|x: int| 0 <= x < i ==> !link_target_at(o.notes@, note_id, titles[k as int], x);
                            if i < ti {
                                assert(!link_target_at(o.notes@, note_id, titles[k as int], i));
                            } else if ti < i {
                                assert(!link_target_at(o.notes@, note_id, titles[k as int], ti as int));
                            }
                            assert(t == target);
                        }
                        if exists|m: int| 0 <= m < k + 1 && #[trigger] resolves(o.notes@, note_id, titles[m], t) {
                            let m = choose|m: int| 0 <= m < k + 1 && #[trigger] resolves(o.notes@, note_id, titles[m], t);
                            if m < k {
                                assert(exists|m: int| 0 <= m < k && #[trigger] resolves(o.notes@, note_id, titles[m], t));
                            }
                        }
                        if exists|m: int| 0 <= m < k && #[trigger] resolves(o.notes@, note_id, titles[m], t) {
                            let m = choose|m: int| 0 <= m < k && #[trigger] resolves(o.notes@, note_id, titles[m], t);
                            assert(0 <= m < k + 1);
                        }
                        if t == target {
                            assert(resolves(o.notes@, note_id, titles[k as int], t));
                        }
                    }
                }
            },
        }
        k = k + 1;
    }
    db.wikilinks = links;
    proof {
        assert(wikilinks_wf(db.wikilinks@, db.notes@));
    }
    Ok(())
}

/// Note `id` exists and is not in the trash.
pub open spec fn is_live(notes: Seq<NoteData>, id: u128) -> bool {
    exists|i: int| 0 <= i < notes.len() && #[trigger] notes[i].id == id && !notes[i].is_trashed
}

/// Links into note `id` from live notes.
pub open spec fn backlink_into(notes: Seq<NoteData>, id: u128) -> spec_fn(Wikilink) -> bool {
    |w: Wikilink| w.target == id && is_live(notes, w.source)
}

/// `list` describes the live notes linking to note `id`, one entry per link,
/// in table order.
pub open spec fn backlinks_listed(db: Database, id: u128, list: Seq<BacklinkItem>) -> bool {
    let rows = keep(db.wikilinks@, backlink_into(db.notes@, id));
    &&& list.len() == rows.len()
    &&& forall|k: int|
        0 <= k < list.len() ==> (#[trigger] list[k]).id == rows[k].source && exists|i: int|
            0 <= i < db.notes@.len() && #[trigger] db.notes@[i].id == rows[k].source && db.notes@[i].title
                == list[k].title && db.notes@[i].emoji == list[k].emoji
}

/// The live notes that link to note `note_id`.
pub fn get_backlinks(db: &Database, note_id: u128) -> (r: Vec<BacklinkItem>)
    requires
        db.wf(),
    ensures
        backlinks_listed(*db, note_id, r@),
{
    let ghost all = db.wikilinks@;
    let ghost p = backlink_into(db.notes@, note_id);
    let mut r: Vec<BacklinkItem> = Vec::new();
    let mut i: usize = 0;
    while i < db.wikilinks.len()
        invariant
            db.wf(),
            all == db.wikilinks@,
            p == backlink_into(db.notes@, note_id),
            i <= all.len(),
            r@.len() == keep(all.subrange(0, i as int), p).len(),
            forall|k: int|
                0 <= k < r@.len() ==> (#[trigger] r@[k]).id == keep(all.subrange(0, i as int), p)[k].source && exists|
                    j: int,
                |
                    0 <= j < db.notes@.len() && #[trigger] db.notes@[j].id == keep(all.subrange(0, i as int), p)[k].source
                        && db.notes@[j].title == r@[k].title && db.notes@[j].emoji == r@[k].emoji,
        decreases all.len() - i,
    {
        let w = db.wikilinks[i];
        let ghost prev = keep(all.subrange(0, i as int), p);
        let ghost prev_r = r@;
        proof {
            let s = all.subrange(0, i + 1);
            assert(s.drop_last() =~= all.subrange(0, i as int));
        }
        if w.target == note_id {
            match db.find_note(w.source) {
                Some(j) => {
                    if !db.notes[j].is_trashed {
                        proof {
                            assert(is_live(db.notes@, w.source)) by {
                                assert(db.notes@[j as int].id == w.source);
                            }
                        }
                        r.push(BacklinkItem {
                            id: w.source,
                            title: db.notes[j].title.clone(),
                            emoji: copy_opt(&db.notes[j].emoji),
                        });
                        proof {
                            let cur = keep(all.subrange(0, i + 1), p);
                            assert(cur == prev.push(w));
                            assert forall|k: int| 0 <= k < r@.len() implies (#[trigger] r@[k]).id == cur[k].source && exists|
                                j2: int,
                            |
                                0 <= j2 < db.notes@.len() && #[trigger] db.notes@[j2].id == cur[k].source && db.notes@[j2].title
                                    == r@[k].title && db.notes@[j2].emoji == r@[k].emoji by {
                                if k < prev.len() {
                                    assert(r@[k] == prev_r[k]);
                                    assert(cur[k] == prev[k]);
                                } else {
                                    assert(db.notes@[j as int].id == cur[k].source);
                                }
                            }
                        }
                    } else {
                        proof {
                            assert(!is_live(db.notes@, w.source)) by {
                                if is_live(db.notes@, w.source) {
                                    let x = choose|x: int| 0 <= x < db.notes@.len() && #[trigger] db.notes@[x].id == w.source
                                        && !db.notes@[x].is_trashed;
                                    assert(x == j);
                                }
                            }
                        }
                    }
                },
                None => {},
            }
        }
        i = i + 1;
    }
    assert(all.subrange(0, all.len() as int) =~= all);
    r
}

/// Note `i` is live and its title matches `title`.
pub open spec fn titled_at(notes: Seq<NoteData>, title: Seq<char>, i: int) -> bool {
    0 <= i < notes.len() && !notes[i].is_trashed && ci_eq(notes[i].title@, title)
}

/// The id of the first live note titled `title`, up to ASCII case.
pub fn find_note_by_title(db: &Database, title: &str) -> (r: Option<u128>)
    ensures
        match r {
            Some(id) => exists|i: int|
                #[trigger] titled_at(db.notes@, title@, i) && db.notes@[i].id == id && forall|k: int|
                    0 <= k < i ==> !titled_at(db.notes@, title@, k),
            None => forall|k: int| !titled_at(db.notes@, title@, k),
        },
{
    let mut i: usize = 0;
    while i < db.notes.len()
        invariant
            i <= db.notes@.len(),
            forall|k: int| 0 <= k < i ==> !titled_at(db.notes@, title@, k),
        decreases db.notes@.len() - i,
    {
        if !db.notes[i].is_trashed && eq_ignore_case(db.notes[i].title.as_str(), title) {
            assert(titled_at(db.notes@, title@, i as int));
            return Some(db.notes[i].id);
        }
        i = i + 1;
    }
    None
}

/// Live notes that are not folders.
pub open spec fn is_leaf_live(n: NoteData) -> bool {
    !n.is_trashed && !n.is_folder
}

pub open spec fn leaf_live() -> spec_fn(NoteData) -> bool {
    |n: NoteData| is_leaf_live(n)
}

/// `r` lists the ids and titles of the live notes that are not folders, by
/// title in code-point order.
pub open spec fn titles_listed(db: Database, r: Seq<NoteTitleItem>) -> bool {
    let notes = keep(db.notes@, leaf_live());
    exists|order: Seq<usize>|
        {
            &&& is_perm(order, notes.len())
            &&& sorted_by_text(order, notes.map_values(|n: NoteData| n.title@))
            &&& r.len() == notes.len()
            &&& forall|k: int|
                0 <= k < r.len() ==> (#[trigger] r[k]).id == notes[order[k] as int].id && r[k].title
                    == notes[order[k] as int].title
        }
}

/// The ids and titles of the live notes that are not folders, by title.
pub fn get_all_note_titles(db: &Database) -> (r: Vec<NoteTitleItem>)
    ensures
        titles_listed(*db, r@),
{
    let ghost notes = keep(db.notes@, leaf_live());
    let mut pos: Vec<usize> = Vec::new();
    let mut keys: Vec<String> = Vec::new();
    let mut i: usize = 0;
    while i < db.notes.len()
        invariant
            i <= db.notes@.len(),
            pos@.len() == keep(db.notes@.subrange(0, i as int), leaf_live()).len(),
            keys@.len() == pos@.len(),
            forall|k: int|
                0 <= k < pos@.len() ==> (#[trigger] pos@[k]) < db.notes@.len() && db.notes@[pos@[k] as int] == keep(
                    db.notes@.subrange(0, i as int),
                    leaf_live(),
                )[k] && keys@[k]@ == db.notes@[pos@[k] as int].title@,
        decreases db.notes@.len() - i,
    {
        let ghost prev = keep(db.notes@.subrange(0, i as int), leaf_live());
        let ghost prev_p = pos@;
        let ghost prev_k = keys@;
        proof {
            let s = db.notes@.subrange(0, i + 1);
            assert(s.drop_last() =~= db.notes@.subrange(0, i as int));
        }
        if !db.notes[i].is_trashed && !db.notes[i].is_folder {
            pos.push(i);
            keys.push(db.notes[i].title.clone());
            proof {
                let cur = keep(db.notes@.subrange(0, i + 1), leaf_live());
                assert(cur == prev.push(db.notes@[i as int]));
                assert forall|k: int| 0 <= k < pos@.len() implies (#[trigger] pos@[k]) < db.notes@.len()
                    && db.notes@[pos@[k] as int] == cur[k] && keys@[k]@ == db.notes@[pos@[k] as int].title@ by {
                    if k < prev.len() {
                        assert(pos@[k] == prev_p[k] && keys@[k] == prev_k[k]);
                    }
                }
            }
        }
        i = i + 1;
    }
    assert(db.notes@.subrange(0, db.notes@.len() as int) =~= db.notes@);
    assert forall|k: int| 0 <= k < keys@.len() implies #[trigger] text_views(keys@)[k] == notes.map_values(
        |n: NoteData| n.title@,
    )[k] by {
        assert(db.notes@[pos@[k] as int] == notes[k]);
    }
    assert(text_views(keys@) =~= notes.map_values(|n: NoteData| n.title@));
    let order = sort_texts(&keys);
    let mut r: Vec<NoteTitleItem> = Vec::new();
    let mut k: usize = 0;
    while k < order.len()
        invariant
            k <= order@.len(),
            is_perm(order@, notes.len()),
            pos@.len() == notes.len(),
            forall|x: int| 0 <= x < pos@.len() ==> (#[trigger] pos@[x]) < db.notes@.len() && db.notes@[pos@[x] as int] == notes[x],
            r@.len() == k,
            forall|x: int|
                0 <= x < k ==> (#[trigger] r@[x]).id == notes[order@[x] as int].id && r@[x].title == notes[order@[x] as int].title,
        decreases order@.len() - k,
    {
        let n = &db.notes[pos[order[k]]];
        r.push(NoteTitleItem { id: n.id, title: n.title.clone() });
        k = k + 1;
    }
    r
}

/// Resyncing the links of note `a` with the single title `b`: when some live
/// note other than `a` has title `b` up to ASCII case, exactly one link
/// leaves `a`, to the first such note; when none has, no link leaves `a`.
pub proof fn lemma_single_title_link(old_db: Database, new_db: Database, a: u128, b: Seq<char>)
    requires
        new_db.wf(),
        links_synced(old_db, new_db, a, seq![b]),
    ensures
        (exists|i: int| link_target_at(old_db.notes@, a, b, i)) ==> exists|j: int|
            0 <= j < new_db.wikilinks@.len() && #[trigger] new_db.wikilinks@[j].source == a && resolves(
                old_db.notes@,
                a,
                b,
                new_db.wikilinks@[j].target,
            ) && forall|x: int| 0 <= x < new_db.wikilinks@.len() && new_db.wikilinks@[x].source == a ==> x == j,
        (forall|i: int| !link_target_at(old_db.notes@, a, b, i)) ==> forall|j: int|
            0 <= j < new_db.wikilinks@.len() ==> #[trigger] new_db.wikilinks@[j].source != a,
{
    let titles = seq![b];
    let wl = new_db.wikilinks@;
    // Every link leaving `a` goes to a note that `b` resolves to.
    assert forall|j: int| 0 <= j < wl.len() && wl[j].source == a implies resolves(old_db.notes@, a, b, #[trigger] wl[j].target) by {
        let t = wl[j].target;
        assert(wl[j] == Wikilink { source: a, target: t });
        assert(wl.contains(Wikilink { source: a, target: t }));
        let m = choose|m: int| 0 <= m < titles.len() && #[trigger] resolves(old_db.notes@, a, titles[m], t);
        assert(m == 0);
    }
    if exists|i: int| link_target_at(old_db.notes@, a, b, i) {
        let i0 = choose|i: int| link_target_at(old_db.notes@, a, b, i);
        lemma_first_match(old_db.notes@, a, b, i0);
        let f = choose|f: int| #[trigger] link_target_at(old_db.notes@, a, b, f) && forall|k: int|
            0 <= k < f ==> !link_target_at(old_db.notes@, a, b, k);
        let t = old_db.notes@[f].id;
        assert(resolves(old_db.notes@, a, titles[0], t));
        assert(wl.contains(Wikilink { source: a, target: t }));
        let j = choose|j: int| 0 <= j < wl.len() && wl[j] == Wikilink { source: a, target: t };
        assert(wl[j].source == a);
        assert forall|x: int| 0 <= x < wl.len() && wl[x].source == a implies x == j by {
            assert(resolves(old_db.notes@, a, b, wl[x].target));
            let g = choose|g: int| #[trigger] link_target_at(old_db.notes@, a, b, g) && old_db.notes@[g].id == wl[x].target
                && forall|k: int| 0 <= k < g ==> !link_target_at(old_db.notes@, a, b, k);
            if g < f {
                assert(!link_target_at(old_db.notes@, a, b, g));
            } else if f < g {
                assert(!link_target_at(old_db.notes@, a, b, f));
            }
            assert(wl[x] == wl[j]);
            if x < j {
                assert(wl[x] != wl[j]);
            } else if j < x {
                assert(wl[j] != wl[x]);
            }
        }
    }
    if forall|i: int| !link_target_at(old_db.notes@, a, b, i) {
        assert forall|j: int| 0 <= j < wl.len() implies #[trigger] wl[j].source != a by {
            if wl[j].source == a {
                assert(resolves(old_db.notes@, a, b, wl[j].target));
                let g = choose|g: int| #[trigger] link_target_at(old_db.notes@, a, b, g) && old_db.notes@[g].id == wl[j].target
                    && forall|k: int| 0 <= k < g ==> !link_target_at(old_db.notes@, a, b, k);
            }
        }
    }
}

proof fn lemma_first_match(notes: Seq<NoteData>, a: u128, b: Seq<char>, i: int)
    requires
        link_target_at(notes, a, b, i),
    ensures
        exists|f: int| #[trigger] link_target_at(notes, a, b, f) && forall|k: int| 0 <= k < f ==> !link_target_at(notes, a, b, k),
    decreases i,
{
    if exists|k: int| 0 <= k < i && link_target_at(notes, a, b, k) {
        let k = choose|k: int| 0 <= k < i && link_target_at(notes, a, b, k);
        lemma_first_match(notes, a, b, k);
    } else {
        assert(forall|k: int| 0 <= k < i ==> !link_target_at(notes, a, b, k));
    }
}

/// Once note `id` is deleted for good, nothing links to it and it carries
/// no tags: listing its backlinks or its tags gives nothing.
pub proof fn lemma_purge_leaves_nothing(
    old_db: Database,
    new_db: Database,
    id: u128,
    backs: Seq<BacklinkItem>,
    tags: Seq<crate::model::NoteTagInfo>,
)
    requires
        purged(old_db, new_db, id),
        backlinks_listed(new_db, id, backs),
        listed(new_db, id, tags),
    ensures
        backs.len() == 0,
        tags.len() == 0,
        forall|k: int| 0 <= k < new_db.wikilinks@.len() ==> (#[trigger] new_db.wikilinks@[k]).source != id
            && new_db.wikilinks@[k].target != id,
        forall|k: int| 0 <= k < new_db.note_tags@.len() ==> (#[trigger] new_db.note_tags@[k]).note_id != id,
{
    lemma_keep_from(old_db.wikilinks@, link_avoids(id));
    lemma_keep_from(old_db.note_tags@, tag_row_avoids(id));
    assert forall|k: int| 0 <= k < new_db.wikilinks@.len() implies (#[trigger] new_db.wikilinks@[k]).source != id
        && new_db.wikilinks@[k].target != id by {
        assert(link_avoids(id)(new_db.wikilinks@[k]));
    }
    assert forall|k: int| 0 <= k < new_db.note_tags@.len() implies (#[trigger] new_db.note_tags@[k]).note_id != id by {
        assert(tag_row_avoids(id)(new_db.note_tags@[k]));
    }
    let bl = keep(new_db.wikilinks@, backlink_into(new_db.notes@, id));
    lemma_keep_from(new_db.wikilinks@, backlink_into(new_db.notes@, id));
    if bl.len() > 0 {
        assert(backlink_into(new_db.notes@, id)(bl[0]));
        let j = choose|j: int| 0 <= j < new_db.wikilinks@.len() && new_db.wikilinks@[j] == bl[0];
        assert(new_db.wikilinks@[j].target != id);
    }
    let tl = keep(new_db.note_tags@, of_note(id));
    lemma_keep_from(new_db.note_tags@, of_note(id));
    if tl.len() > 0 {
        assert(of_note(id)(tl[0]));
        let j = choose|j: int| 0 <= j < new_db.note_tags@.len() && new_db.note_tags@[j] == tl[0];
        assert(new_db.note_tags@[j].note_id != id);
    }
}

/// Resyncing the links of note `a` with titles that resolve to no live
/// note other than `a` leaves no link from `a` and keeps every link of
/// other notes.
pub proof fn lemma_unresolved_titles(old_db: Database, new_db: Database, a: u128, titles: Seq<Seq<char>>)
    requires
        links_synced(old_db, new_db, a, titles),
        forall|k: int, i: int| 0 <= k < titles.len() ==> !link_target_at(old_db.notes@, a, titles[k], i),
    ensures
        forall|j: int| 0 <= j < new_db.wikilinks@.len() ==> #[trigger] new_db.wikilinks@[j].source != a,
        forall|w: Wikilink| w.source != a && old_db.wikilinks@.contains(w) ==> new_db.wikilinks@.contains(w),
{
    let wl = new_db.wikilinks@;
    assert forall|j: int| 0 <= j < wl.len() implies #[trigger] wl[j].source != a by {
        if wl[j].source == a {
            let t = wl[j].target;
            assert(wl[j] == Wikilink { source: a, target: t });
            assert(wl.contains(Wikilink { source: a, target: t }));
            let m = choose|m: int| 0 <= m < titles.len() && #[trigger] resolves(old_db.notes@, a, titles[m], t);
            let g = choose|g: int| #[trigger] link_target_at(old_db.notes@, a, titles[m], g) && old_db.notes@[g].id == t
                && forall|x: int| 0 <= x < g ==> !link_target_at(old_db.notes@, a, titles[m], x);
        }
    }
}

} // verus!
