//! The tag index: tags by unique name and the memberships of notes in them,
//! each marked manual or inline.
use vstd::prelude::*;
use crate::ids::new_uuid;
use crate::model::{NoteTag, NoteTagInfo, StoreError, Tag, TagInfo, TagSource};
use crate::model::copy_opt;
use crate::order::{is_perm, sort_texts, sorted_by_text, text_views};
use crate::text::str_eq;
use crate::store::{Database, note_tags_wf, wikilinks_wf, flashcards_wf, has_note_in, has_tag_in, keep, lemma_keep_all, lemma_keep_distinct, lemma_keep_from};

verus! {

/// Some tag of `tags` is named `name` and has id `id`.
pub open spec fn names_tag(tags: Seq<Tag>, name: Seq<char>, id: u128) -> bool {
    exists|i: int| 0 <= i < tags.len() && #[trigger] tags[i].name@ == name && tags[i].id == id
}

/// Some tag of `tags` is named `name`.
pub open spec fn has_named_tag(tags: Seq<Tag>, name: Seq<char>) -> bool {
    exists|t: u128| names_tag(tags, name, t)
}

/// `b` holds the tags of `a`, at the same places, and maybe more.
pub open spec fn tags_grown(a: Seq<Tag>, b: Seq<Tag>) -> bool {
    a.len() <= b.len() && forall|i: int| 0 <= i < a.len() ==> #[trigger] b[i] == a[i]
}

/// The store changed only by adding tags.
pub open spec fn only_tags_added(a: Database, b: Database) -> bool {
    &&& tags_grown(a.tags@, b.tags@)
    &&& a.notes@ == b.notes@
    &&& a.note_tags@ == b.note_tags@
    &&& a.wikilinks@ == b.wikilinks@
    &&& a.flashcards@ == b.flashcards@
}

proof fn lemma_tags_grown_has(a: Seq<Tag>, b: Seq<Tag>)
    requires
        tags_grown(a, b),
    ensures
        forall|id: u128| has_tag_in(a, id) ==> has_tag_in(b, id),
        forall|n: Seq<char>, id: u128| names_tag(a, n, id) ==> names_tag(b, n, id),
{
    assert forall|id: u128| has_tag_in(a, id) implies has_tag_in(b, id) by {
        let i = choose|i: int| 0 <= i < a.len() && #[trigger] a[i].id == id;
        assert(b[i] == a[i]);
    }
    assert forall|n: Seq<char>, id: u128| names_tag(a, n, id) implies names_tag(b, n, id) by {
        let i = choose|i: int| 0 <= i < a.len() && #[trigger] a[i].name@ == n && a[i].id == id;
        assert(b[i] == a[i]);
    }
}

/// The place of the tag named `name`.
pub fn find_tag_by_name(db: &Database, name: &str) -> (r: Option<usize>)
    ensures
        match r {
            Some(i) => i < db.tags@.len() && db.tags@[i as int].name@ == name@,
            None => forall|k: int| 0 <= k < db.tags@.len() ==> db.tags@[k].name@ != name@,
        },
{
    let mut i: usize = 0;
    while i < db.tags.len()
        invariant
            i <= db.tags@.len(),
            forall|k: int| 0 <= k < i ==> db.tags@[k].name@ != name@,
        decreases db.tags@.len() - i,
    {
        if str_eq(db.tags[i].name.as_str(), name) {
            return Some(i);
        }
        i = i + 1;
    }
    None
}

fn find_tag(db: &Database, id: u128) -> (r: bool)
    ensures
        r == db.has_tag(id),
{
    let mut i: usize = 0;
    while i < db.tags.len()
        invariant
            i <= db.tags@.len(),
            forall|k: int| 0 <= k < i ==> db.tags@[k].id != id,
        decreases db.tags@.len() - i,
    {
        if db.tags[i].id == id {
            return true;
        }
        i = i + 1;
    }
    false
}

/// The id of the tag named `name`; when there is none, a tag with id
/// `fresh`, that name and the default colour is added, unless `fresh` is
/// taken, which fails with `Conflict` and changes nothing.
pub fn upsert_tag_with(db: &mut Database, name: &str, fresh: u128) -> (r: Result<u128, StoreError>)
    requires
        old(db).wf(),
    ensures
        final(db).wf(),
        only_tags_added(*old(db), *final(db)),
        forall|i: int|
            0 <= i < old(db).tags@.len() && #[trigger] old(db).tags@[i].name@ == name@ ==> r == Ok::<u128, StoreError>(
                old(db).tags@[i].id,
            ) && final(db).tags@ == old(db).tags@,
        has_named_tag(old(db).tags@, name@) || r is Err <==> has_named_tag(old(db).tags@, name@) || old(db).has_tag(
            fresh,
        ),
        !has_named_tag(old(db).tags@, name@) ==> match r {
            Ok(id) => {
                &&& id == fresh
                &&& final(db).tags@.len() == old(db).tags@.len() + 1
                &&& final(db).tags@.last().id == fresh && final(db).tags@.last().name@ == name@
                &&& final(db).tags@.last().color matches Some(c) && c@ == "#6366f1"@
            },
            Err(e) => e == StoreError::Conflict && final(db).tags@ == old(db).tags@,
        },
{
    match find_tag_by_name(db, name) {
        Some(i) => {
            proof {
                assert forall|j: int| 0 <= j < db.tags@.len() && #[trigger] db.tags@[j].name@ == name@ implies j == i by {
                    if j < i {
                        assert(db.tags@[j].name@ != db.tags@[i as int].name@);
                    } else if j > i {
                        assert(db.tags@[i as int].name@ != db.tags@[j].name@);
                    }
                }
                assert(names_tag(db.tags@, name@, db.tags@[i as int].id));
            }
            Ok(db.tags[i].id)
        },
        None => {
            proof {
                assert(!has_named_tag(db.tags@, name@)) by {
                    if has_named_tag(db.tags@, name@) {
                        let t = choose|t: u128| names_tag(db.tags@, name@, t);
                        let j = choose|j: int| 0 <= j < db.tags@.len() && #[trigger] db.tags@[j].name@ == name@ && db.tags@[j].id == t;
                    }
                }
            }
            if find_tag(db, fresh) {
                return Err(StoreError::Conflict);
            }
            let ghost before = db.tags@;
            let color = String::from_str("#6366f1");
            db.tags.push(Tag { id: fresh, name: String::from_str(name), color: Some(color) });
            proof {
                assert(tags_grown(before, db.tags@));
                lemma_tags_grown_has(before, db.tags@);
                assert(db.tags@[before.len() as int].name@ == name@);
            }
            Ok(fresh)
        },
    }
}

/// The id of the tag named `name`, created with a fresh id and the default
/// colour when there is none. Fails with `Conflict`, changing nothing, when
/// the fresh id is taken.
pub fn upsert_tag(db: &mut Database, name: &str) -> (r: Result<u128, StoreError>)
    requires
        old(db).wf(),
    ensures
        final(db).wf(),
        only_tags_added(*old(db), *final(db)),
        match r {
            Ok(id) => names_tag(final(db).tags@, name@, id),
            Err(e) => e == StoreError::Conflict && final(db).tags@ == old(db).tags@,
        },
        forall|k: int| old(db).tags@.len() <= k < final(db).tags@.len() ==> #[trigger] final(db).tags@[k].name@ == name@,
        forall|i: int|
            0 <= i < old(db).tags@.len() && #[trigger] old(db).tags@[i].name@ == name@ ==> r == Ok::<u128, StoreError>(
                old(db).tags@[i].id,
            ),
{
    let fresh = new_uuid();
    let ghost before = db.tags@;
    let r = upsert_tag_with(db, name, fresh);
    proof {
        if has_named_tag(before, name@) {
            let t = choose|t: u128| names_tag(before, name@, t);
            let j = choose|j: int| 0 <= j < before.len() && #[trigger] before[j].name@ == name@ && before[j].id == t;
            assert(names_tag(db.tags@, name@, before[j].id));
        } else if r is Ok {
            assert(db.tags@[before.len() as int] == db.tags@.last());
            assert(names_tag(db.tags@, name@, fresh));
        }
    }
    r
}

/// The membership of note `note` in tag `tag` exists with some source.
pub open spec fn has_pair(rows: Seq<NoteTag>, note: u128, tag: u128) -> bool {
    exists|i: int| 0 <= i < rows.len() && #[trigger] rows[i].note_id == note && rows[i].tag_id == tag
}

fn find_pair(rows: &Vec<NoteTag>, note: u128, tag: u128) -> (r: Option<usize>)
    ensures
        match r {
            Some(i) => i < rows@.len() && rows@[i as int].note_id == note && rows@[i as int].tag_id == tag,
            None => !has_pair(rows@, note, tag),
        },
{
    let mut i: usize = 0;
    while i < rows.len()
        invariant
            i <= rows@.len(),
            forall|k: int| 0 <= k < i ==> !(rows@[k].note_id == note && rows@[k].tag_id == tag),
        decreases rows@.len() - i,
    {
        if rows[i].note_id == note && rows[i].tag_id == tag {
            return Some(i);
        }
        i = i + 1;
    }
    None
}

/// Note `note` carries the tag named `name`: the row is added as manual
/// unless the note carries that tag already, with either source.
pub open spec fn manual_added(old_db: Database, new_db: Database, note: u128, name: Seq<char>) -> bool {
    exists|t: u128|
        {
            &&& #[trigger] names_tag(new_db.tags@, name, t)
            &&& if has_pair(old_db.note_tags@, note, t) {
                new_db.note_tags@ == old_db.note_tags@
            } else {
                new_db.note_tags@ == old_db.note_tags@.push(NoteTag { note_id: note, tag_id: t, source: TagSource::Manual })
            }
        }
}

/// Attaches the tag named `tag_name` to note `note_id` by hand, creating the
/// tag when needed. A note already carrying the tag keeps its one row.
pub fn add_manual_tag(db: &mut Database, note_id: u128, tag_name: String) -> (r: Result<(), StoreError>)
    requires
        old(db).wf(),
    ensures
        final(db).wf(),
        tags_grown(old(db).tags@, final(db).tags@),
        final(db).notes@ == old(db).notes@,
        final(db).wikilinks@ == old(db).wikilinks@,
        final(db).flashcards@ == old(db).flashcards@,
        !old(db).has_note(note_id) ==> r == Err::<(), StoreError>(StoreError::NotFound) && *final(db) == *old(db),
        r is Err ==> final(db).note_tags@ == old(db).note_tags@,
        old(db).has_note(note_id) && r is Err ==> r == Err::<(), StoreError>(StoreError::Conflict),
        old(db).has_note(note_id) && has_named_tag(old(db).tags@, tag_name@) ==> r is Ok,
        r is Ok ==> old(db).has_note(note_id) && manual_added(*old(db), *final(db), note_id, tag_name@),
{
    let ni = match db.find_note(note_id) {
        None => return Err(StoreError::NotFound),
        Some(i) => i,
    };
    let ghost before = *db;
    let t = match upsert_tag(db, tag_name.as_str()) {
        Ok(t) => t,
        Err(e) => {
            proof {
                if has_named_tag(before.tags@, tag_name@) {
                    let x = choose|x: u128| names_tag(before.tags@, tag_name@, x);
                    let j = choose|j: int| 0 <= j < before.tags@.len() && #[trigger] before.tags@[j].name@ == tag_name@ && before.tags@[j].id == x;
                    assert(before.tags@[j].name@ == tag_name@);
                }
            }
            return Err(e);
        },
    };
    proof {
        lemma_tags_grown_has(old(db).tags@, db.tags@);
    }
    match find_pair(&db.note_tags, note_id, t) {
        Some(_) => {},
        None => {
            let ghost before = db.note_tags@;
            let ghost snap = *db;
            assert(snap.wf());
            assert(note_tags_wf(snap.note_tags@, snap.notes@, snap.tags@));
            db.note_tags.push(NoteTag { note_id, tag_id: t, source: TagSource::Manual });
            assert(db.tags@ == snap.tags@ && db.notes@ == snap.notes@);
            proof {
                let i = choose|i: int| 0 <= i < db.tags@.len() && #[trigger] db.tags@[i].name@ == tag_name@ && db.tags@[i].id == t;
                assert(has_tag_in(db.tags@, t)) by { assert(db.tags@[i].id == t); }
                assert(has_note_in(db.notes@, note_id)) by { assert(db.notes@[ni as int].id == note_id); }
                assert forall|a: int, b: int| 0 <= a < b < db.note_tags@.len() implies !(db.note_tags@[a].note_id
                    == db.note_tags@[b].note_id && db.note_tags@[a].tag_id == db.note_tags@[b].tag_id) by {
                    assert(db.note_tags@[a] == before[a]);
                    if b == before.len() {
                        let x = before[a];
                        if x.note_id == note_id && x.tag_id == t {
                            assert(has_pair(before, note_id, t));
                        }
                    } else {
                        assert(db.note_tags@[b] == before[b]);
                        assert(!(snap.note_tags@[a].note_id == snap.note_tags@[b].note_id && snap.note_tags@[a].tag_id
                            == snap.note_tags@[b].tag_id));
                    }
                }
                assert forall|k: int| 0 <= k < db.note_tags@.len() implies has_note_in(db.notes@, #[trigger] db.note_tags@[k].note_id)
                    && has_tag_in(db.tags@, db.note_tags@[k].tag_id) by {
                    if k < before.len() {
                        assert(db.note_tags@[k] == before[k]);
                        let row = snap.note_tags@[k];
                        assert(has_note_in(snap.notes@, row.note_id));
                        assert(has_tag_in(snap.tags@, row.tag_id));
                    } else {
                        assert(db.note_tags@[k].note_id == note_id && db.note_tags@[k].tag_id == t);
                    }
                }
                assert(note_tags_wf(db.note_tags@, db.notes@, db.tags@));
                assert(wikilinks_wf(db.wikilinks@, db.notes@) && flashcards_wf(db.flashcards@, db.notes@));
                assert(db.wf());
            }
        },
    }
    Ok(())
}

/// Removes the membership of note `note_id` in tag `tag_id`, whatever its
/// source. The tag itself stays.
pub fn remove_tag(db: &mut Database, note_id: u128, tag_id: u128)
    requires
        old(db).wf(),
    ensures
        final(db).wf(),
        final(db).notes@ == old(db).notes@,
        final(db).tags@ == old(db).tags@,
        final(db).wikilinks@ == old(db).wikilinks@,
        final(db).flashcards@ == old(db).flashcards@,
        final(db).note_tags@ == keep(old(db).note_tags@, other_pair(note_id, tag_id)),
{
    let ghost o = *db;
    let mut r: Vec<NoteTag> = Vec::new();
    let mut i: usize = 0;
    while i < db.note_tags.len()
        invariant
            *db == o,
            i <= o.note_tags@.len(),
            r@ == keep(o.note_tags@.subrange(0, i as int), other_pair(note_id, tag_id)),
        decreases o.note_tags@.len() - i,
    {
        let t = db.note_tags[i];
        proof {
            let s = o.note_tags@.subrange(0, i + 1);
            assert(s.drop_last() =~= o.note_tags@.subrange(0, i as int));
        }
        if !(t.note_id == note_id && t.tag_id == tag_id) {
            r.push(t);
        }
        i = i + 1;
    }
    assert(o.note_tags@.subrange(0, o.note_tags@.len() as int) =~= o.note_tags@);
    db.note_tags = r;
    proof {
        lemma_keep_from(o.note_tags@, other_pair(note_id, tag_id));
        lemma_keep_distinct(o.note_tags@, other_pair(note_id, tag_id), |t: NoteTag| (t.note_id, t.tag_id));
        assert forall|k: int| 0 <= k < db.note_tags@.len() implies has_note_in(db.notes@, #[trigger] db.note_tags@[k].note_id)
            && has_tag_in(db.tags@, db.note_tags@[k].tag_id) by {
            let t = db.note_tags@[k];
            let j = choose|j: int| 0 <= j < o.note_tags@.len() && o.note_tags@[j] == t;
            assert(o.note_tags@[j] == t);
        }
    }
}

/// Rows other than the membership of `note` in `tag`.
pub open spec fn other_pair(note: u128, tag: u128) -> spec_fn(NoteTag) -> bool {
    |t: NoteTag| !(t.note_id == note && t.tag_id == tag)
}

/// Rows that are not inline memberships of `note`.
pub open spec fn not_inline_of(note: u128) -> spec_fn(NoteTag) -> bool {
    |t: NoteTag| !(t.note_id == note && t.source == TagSource::Inline)
}

/// The memberships of note `note` after its inline tags were replaced by
/// the tags named `names`: rows of other notes and manual rows stay, and the
/// inline rows are those of the named tags that the note does not carry by
/// hand.
pub open spec fn inline_synced(old_db: Database, new_db: Database, note: u128, names: Seq<Seq<char>>) -> bool {
    &&& tags_grown(old_db.tags@, new_db.tags@)
    &&& new_db.notes@ == old_db.notes@
    &&& new_db.wikilinks@ == old_db.wikilinks@
    &&& new_db.flashcards@ == old_db.flashcards@
    &&& forall|k: int| 0 <= k < names.len() ==> #[trigger] has_named_tag(new_db.tags@, names[k])
    &&& forall|row: NoteTag|
        row.note_id != note ==> (#[trigger] new_db.note_tags@.contains(row) <==> old_db.note_tags@.contains(row))
    &&& forall|t: u128|
        #[trigger] new_db.note_tags@.contains(NoteTag { note_id: note, tag_id: t, source: TagSource::Manual })
            <==> old_db.note_tags@.contains(NoteTag { note_id: note, tag_id: t, source: TagSource::Manual })
    &&& forall|t: u128|
        #[trigger] new_db.note_tags@.contains(NoteTag { note_id: note, tag_id: t, source: TagSource::Inline }) <==> (
        (exists|k: int| 0 <= k < names.len() && #[trigger] names_tag(new_db.tags@, names[k], t))
            && !old_db.note_tags@.contains(NoteTag { note_id: note, tag_id: t, source: TagSource::Manual }))
}

pub open spec fn views(names: Seq<String>) -> Seq<Seq<char>> {
    names.map_values(|s: String| s@)
}

pub proof fn lemma_push_contains<A>(s: Seq<A>, x: A)
    ensures
        forall|y: A| s.push(x).contains(y) <==> (s.contains(y) || y == x),
{
    assert forall|y: A| s.push(x).contains(y) implies (s.contains(y) || y == x) by {
        let j = choose|j: int| 0 <= j < s.push(x).len() && s.push(x)[j] == y;
        if j < s.len() {
            assert(s[j] == y);
        }
    }
    assert forall|y: A| (s.contains(y) || y == x) implies s.push(x).contains(y) by {
        if y == x {
            assert(s.push(x)[s.len() as int] == x);
        } else {
            let j = choose|j: int| 0 <= j < s.len() && s[j] == y;
            assert(s.push(x)[j] == y);
        }
    }
}

/// Replaces the inline memberships of note `note_id` by memberships in the
/// tags named `tag_names`, creating tags when needed. Manual memberships
/// stay, and a named tag that the note carries by hand keeps its one row.
/// On `Conflict` (a fresh tag id was taken) only tags may have been added.
pub fn sync_inline_tags(db: &mut Database, note_id: u128, tag_names: Vec<String>) -> (r: Result<(), StoreError>)
    requires
        old(db).wf(),
    ensures
        final(db).wf(),
        !old(db).has_note(note_id) ==> r == Err::<(), StoreError>(StoreError::NotFound) && *final(db) == *old(db),
        r is Err ==> only_tags_added(*old(db), *final(db)),
        r is Ok ==> old(db).has_note(note_id) && inline_synced(*old(db), *final(db), note_id, views(tag_names@)),
        old(db).has_note(note_id) && (forall|k: int|
            0 <= k < tag_names@.len() ==> #[trigger] has_named_tag(old(db).tags@, tag_names@[k]@)) ==> r is Ok,
{
    let ni = match db.find_note(note_id) {
        None => return Err(StoreError::NotFound),
        Some(i) => i,
    };
    let ghost o = *db;
    let ghost names = views(tag_names@);
    assert(has_note_in(o.notes@, note_id)) by { assert(o.notes@[ni as int].id == note_id); }
    let mut ids: Vec<u128> = Vec::new();
    let mut i: usize = 0;
    while i < tag_names.len()
        invariant
            db.wf(),
            o == *old(db),
            has_note_in(o.notes@, note_id),
            names == views(tag_names@),
            only_tags_added(o, *db),
            i <= tag_names@.len(),
            ids@.len() == i,
            forall|k: int| 0 <= k < i ==> names_tag(db.tags@, names[k], #[trigger] ids@[k]),
        decreases tag_names@.len() - i,
    {
        let ghost before = db.tags@;
        let t = match upsert_tag(db, tag_names[i].as_str()) {
            Ok(t) => t,
            Err(e) => {
                proof {
                    assert(tags_grown(o.tags@, db.tags@));
                    if forall|k: int| 0 <= k < tag_names@.len() ==> #[trigger] has_named_tag(o.tags@, tag_names@[k]@) {
                        assert(has_named_tag(o.tags@, tag_names@[i as int]@));
                        let x = choose|x: u128| names_tag(o.tags@, tag_names@[i as int]@, x);
                        let j = choose|j: int| 0 <= j < o.tags@.len() && #[trigger] o.tags@[j].name@ == tag_names@[i as int]@ && o.tags@[j].id == x;
                        assert(before[j] == o.tags@[j]);
                        assert(before[j].name@ == tag_names@[i as int]@);
                    }
                }
                return Err(e);
            },
        };
        proof {
            lemma_tags_grown_has(before, db.tags@);
            assert forall|k: int| 0 <= k < i implies names_tag(db.tags@, names[k], #[trigger] ids@[k]) by {
                assert(names_tag(before, names[k], ids@[k]));
            }
            assert(tags_grown(o.tags@, db.tags@)) by {
                assert forall|k: int| 0 <= k < o.tags@.len() implies #[trigger] db.tags@[k] == o.tags@[k] by {
                    assert(before[k] == o.tags@[k]);
                }
            }
        }
        ids.push(t);
        i = i + 1;
    }
    let ghost mid = *db;
    let ghost base = keep(mid.note_tags@, not_inline_of(note_id));
    let mut rows: Vec<NoteTag> = Vec::new();
    let mut j: usize = 0;
    while j < db.note_tags.len()
        invariant
            *db == mid,
            j <= mid.note_tags@.len(),
            rows@ == keep(mid.note_tags@.subrange(0, j as int), not_inline_of(note_id)),
        decreases mid.note_tags@.len() - j,
    {
        let t = db.note_tags[j];
        proof {
            let s = mid.note_tags@.subrange(0, j + 1);
            assert(s.drop_last() =~= mid.note_tags@.subrange(0, j as int));
        }
        if !(t.note_id == note_id && t.source == TagSource::Inline) {
            rows.push(t);
        }
        j = j + 1;
    }
    assert(mid.note_tags@.subrange(0, mid.note_tags@.len() as int) =~= mid.note_tags@);
    proof {
        lemma_keep_from(mid.note_tags@, not_inline_of(note_id));
        lemma_keep_all(mid.note_tags@, not_inline_of(note_id));
        lemma_keep_distinct(mid.note_tags@, not_inline_of(note_id), |t: NoteTag| (t.note_id, t.tag_id));
        assert(mid.note_tags@ == o.note_tags@);
        assert forall|row: NoteTag| not_inline_of(note_id)(row) implies (base.contains(row) <==> o.note_tags@.contains(row)) by {
            if o.note_tags@.contains(row) {
                let q = choose|q: int| 0 <= q < o.note_tags@.len() && o.note_tags@[q] == row;
                assert(base.contains(o.note_tags@[q]));
            }
            if base.contains(row) {
                let q = choose|q: int| 0 <= q < base.len() && base[q] == row;
                assert(mid.note_tags@.contains(base[q]));
            }
        }
        assert forall|q: int| 0 <= q < base.len() implies has_note_in(mid.notes@, #[trigger] base[q].note_id)
            && has_tag_in(mid.tags@, base[q].tag_id) by {
            let j = choose|j: int| 0 <= j < mid.note_tags@.len() && mid.note_tags@[j] == base[q];
            let x = mid.note_tags@[j];
            assert(has_note_in(mid.notes@, x.note_id));
            assert(has_tag_in(mid.tags@, x.tag_id));
        }
        assert forall|row: NoteTag| !not_inline_of(note_id)(row) implies !base.contains(row) by {
            if base.contains(row) {
                let q = choose|q: int| 0 <= q < base.len() && base[q] == row;
                assert(not_inline_of(note_id)(base[q]));
            }
        }
    }
    let mut k: usize = 0;
    while k < ids.len()
        invariant
            db.wf(),
            *db == mid,
            o.note_tags@ == mid.note_tags@,
            names == views(tag_names@),
            ids@.len() == tag_names@.len(),
            forall|m: int| 0 <= m < ids@.len() ==> names_tag(mid.tags@, names[m], #[trigger] ids@[m]),
            k <= ids@.len(),
            has_note_in(mid.notes@, note_id),
            forall|a: int, b: int|
                0 <= a < b < rows@.len() ==> !(rows@[a].note_id == rows@[b].note_id && rows@[a].tag_id == rows@[b].tag_id),
            forall|q: int|
                0 <= q < rows@.len() ==> has_note_in(mid.notes@, #[trigger] rows@[q].note_id) && has_tag_in(mid.tags@, rows@[q].tag_id),
            forall|row: NoteTag| row.note_id != note_id ==> (#[trigger] rows@.contains(row) <==> o.note_tags@.contains(row)),
            forall|t: u128|
                #[trigger] rows@.contains(NoteTag { note_id, tag_id: t, source: TagSource::Manual })
                    <==> o.note_tags@.contains(NoteTag { note_id, tag_id: t, source: TagSource::Manual }),
            forall|t: u128|
                #[trigger] rows@.contains(NoteTag { note_id, tag_id: t, source: TagSource::Inline }) <==> (
                (exists|m: int| 0 <= m < k && ids@[m] == t)
                    && !o.note_tags@.contains(NoteTag { note_id, tag_id: t, source: TagSource::Manual })),
        decreases ids@.len() - k,
    {
        let t = ids[k];
        let ghost before = rows@;
        proof {
            let m = k as int;
            let ii = choose|ii: int| 0 <= ii < mid.tags@.len() && #[trigger] mid.tags@[ii].name@ == names[m] && mid.tags@[ii].id == t;
            assert(has_tag_in(mid.tags@, t)) by { assert(mid.tags@[ii].id == t); }
        }
        match find_pair(&rows, note_id, t) {
            Some(p) => {
                proof {
                    assert forall|u: u128|
                        #[trigger] rows@.contains(NoteTag { note_id, tag_id: u, source: TagSource::Inline }) <==> (
                        (exists|m: int| 0 <= m < k + 1 && ids@[m] == u)
                            && !o.note_tags@.contains(NoteTag { note_id, tag_id: u, source: TagSource::Manual })) by {
                        if u == t {
                            let row = rows@[p as int];
                            assert(rows@.contains(row));
                            if row.source == TagSource::Manual {
                                assert(row == NoteTag { note_id, tag_id: t, source: TagSource::Manual });
                                if rows@.contains(NoteTag { note_id, tag_id: t, source: TagSource::Inline }) {
                                    let q = choose|q: int| 0 <= q < rows@.len() && rows@[q] == NoteTag { note_id, tag_id: t, source: TagSource::Inline };
                                    assert(q != p);
                                }
                            } else {
                                assert(row == NoteTag { note_id, tag_id: t, source: TagSource::Inline });
                                if o.note_tags@.contains(NoteTag { note_id, tag_id: t, source: TagSource::Manual }) {
                                    assert(rows@.contains(NoteTag { note_id, tag_id: t, source: TagSource::Manual }));
                                    let q = choose|q: int| 0 <= q < rows@.len() && rows@[q] == NoteTag { note_id, tag_id: t, source: TagSource::Manual };
                                    assert(q != p);
                                }
                            }
                        }
                        if exists|m: int| 0 <= m < k + 1 && ids@[m] == u {
                            let m = choose|m: int| 0 <= m < k + 1 && ids@[m] == u;
                            if m < k {
                                assert(exists|m: int| 0 <= m < k && ids@[m] == u);
                            }
                        }
                        if exists|m: int| 0 <= m < k && ids@[m] == u {
                            let m = choose|m: int| 0 <= m < k && ids@[m] == u;
                            assert(0 <= m < k + 1 && ids@[m] == u);
                        }
                    }
                }
            },
            None => {
                let row = NoteTag { note_id, tag_id: t, source: TagSource::Inline };
                rows.push(row);
                proof {
                    lemma_push_contains(before, row);
                    assert(rows@ == before.push(row));
                    assert forall|y: NoteTag| y.note_id != note_id implies (#[trigger] rows@.contains(y) <==> o.note_tags@.contains(y)) by {
                        assert(before.push(row).contains(y) <==> (before.contains(y) || y == row));
                    }
                    assert forall|u: u128| #[trigger] rows@.contains(NoteTag { note_id, tag_id: u, source: TagSource::Manual })
                        <==> o.note_tags@.contains(NoteTag { note_id, tag_id: u, source: TagSource::Manual }) by {
                        let y = NoteTag { note_id, tag_id: u, source: TagSource::Manual };
                        assert(before.push(row).contains(y) <==> (before.contains(y) || y == row));
                    }
                    assert forall|a: int, b: int|
                        0 <= a < b < rows@.len() implies !(rows@[a].note_id == rows@[b].note_id && rows@[a].tag_id == rows@[b].tag_id) by {
                        if b == before.len() {
                            assert(rows@[a] == before[a]);
                        }
                    }
                    assert forall|q: int|
                        0 <= q < rows@.len() implies has_note_in(mid.notes@, #[trigger] rows@[q].note_id) && has_tag_in(mid.tags@, rows@[q].tag_id) by {
                        if q < before.len() {
                            assert(rows@[q] == before[q]);
                            let x = before[q];
                            assert(has_note_in(mid.notes@, x.note_id));
                        }
                    }
                    assert(!before.contains(NoteTag { note_id, tag_id: t, source: TagSource::Manual })) by {
                        if before.contains(NoteTag { note_id, tag_id: t, source: TagSource::Manual }) {
                            let q = choose|q: int| 0 <= q < before.len() && before[q] == NoteTag { note_id, tag_id: t, source: TagSource::Manual };
                            assert(before[q].note_id == note_id && before[q].tag_id == t);
                            assert(has_pair(before, note_id, t));
                        }
                    }
                    assert forall|u: u128|
                        #[trigger] rows@.contains(NoteTag { note_id, tag_id: u, source: TagSource::Inline }) <==> (
                        (exists|m: int| 0 <= m < k + 1 && ids@[m] == u)
                            && !o.note_tags@.contains(NoteTag { note_id, tag_id: u, source: TagSource::Manual })) by {
                        if exists|m: int| 0 <= m < k + 1 && ids@[m] == u {
                            let m = choose|m: int| 0 <= m < k + 1 && ids@[m] == u;
                            if m < k {
                                assert(exists|m: int| 0 <= m < k && ids@[m] == u);
                            }
                        }
                        if exists|m: int| 0 <= m < k && ids@[m] == u {
                            let m = choose|m: int| 0 <= m < k && ids@[m] == u;
                            assert(0 <= m < k + 1 && ids@[m] == u);
                        }
                        let y = NoteTag { note_id, tag_id: u, source: TagSource::Inline };
                        assert(before.push(row).contains(y) <==> (before.contains(y) || y == row));
                        if u == t {
                            assert(ids@[k as int] == u);
                        }
                    }
                }
            },
        }
        k = k + 1;
    }
    db.note_tags = rows;
    proof {
        assert(has_note_in(o.notes@, note_id)) by { assert(o.notes@[ni as int].id == note_id); }
        assert forall|u: u128|
            #[trigger] db.note_tags@.contains(NoteTag { note_id, tag_id: u, source: TagSource::Inline }) <==> (
            (exists|m: int| 0 <= m < names.len() && #[trigger] names_tag(db.tags@, names[m], u))
                && !o.note_tags@.contains(NoteTag { note_id, tag_id: u, source: TagSource::Manual })) by {
            if exists|m: int| 0 <= m < ids@.len() && ids@[m] == u {
                let m = choose|m: int| 0 <= m < ids@.len() && ids@[m] == u;
                assert(names_tag(db.tags@, names[m], ids@[m]));
            }
            if exists|m: int| 0 <= m < names.len() && #[trigger] names_tag(db.tags@, names[m], u) {
                let m = choose|m: int| 0 <= m < names.len() && #[trigger] names_tag(db.tags@, names[m], u);
                assert(names_tag(db.tags@, names[m], ids@[m]));
                let a = choose|a: int| 0 <= a < db.tags@.len() && #[trigger] db.tags@[a].name@ == names[m] && db.tags@[a].id == u;
                let b = choose|b: int| 0 <= b < db.tags@.len() && #[trigger] db.tags@[b].name@ == names[m] && db.tags@[b].id == ids@[m];
                assert(a == b);
            }
        }
        assert forall|m: int| 0 <= m < names.len() implies #[trigger] has_named_tag(db.tags@, names[m]) by {
            assert(names_tag(db.tags@, names[m], ids@[m]));
        }
    }
    Ok(())
}

/// Rows of note `note`.
pub open spec fn of_note(note: u128) -> spec_fn(NoteTag) -> bool {
    |t: NoteTag| t.note_id == note
}

/// `info` describes membership `row`.
pub open spec fn info_matches(info: NoteTagInfo, row: NoteTag, tags: Seq<Tag>) -> bool {
    &&& info.tag_id == row.tag_id
    &&& info.source == row.source
    &&& exists|i: int|
        0 <= i < tags.len() && #[trigger] tags[i].id == row.tag_id && tags[i].name == info.tag_name && tags[i].color
            == info.tag_color
}

/// `list` describes the memberships of note `note`, in table order.
pub open spec fn listed(db: Database, note: u128, list: Seq<NoteTagInfo>) -> bool {
    let rows = keep(db.note_tags@, of_note(note));
    &&& list.len() == rows.len()
    &&& forall|k: int| 0 <= k < list.len() ==> info_matches(#[trigger] list[k], rows[k], db.tags@)
}

fn tag_place(db: &Database, id: u128) -> (r: usize)
    requires
        db.has_tag(id),
    ensures
        r < db.tags@.len() && db.tags@[r as int].id == id,
{
    let mut i: usize = 0;
    while i < db.tags.len()
        invariant
            i <= db.tags@.len(),
            db.has_tag(id),
            forall|k: int| 0 <= k < i ==> db.tags@[k].id != id,
        decreases db.tags@.len() - i,
    {
        if db.tags[i].id == id {
            return i;
        }
        i = i + 1;
    }
    proof {
        let k = choose|k: int| 0 <= k < db.tags@.len() && #[trigger] db.tags@[k].id == id;
        assert(db.tags@[k].id != id);
    }
    0
}

/// The tags of note `note_id`, one entry per membership. A note that does
/// not exist has none.
pub fn get_note_tags(db: &Database, note_id: u128) -> (r: Vec<NoteTagInfo>)
    requires
        db.wf(),
    ensures
        listed(*db, note_id, r@),
{
    let ghost rows_all = db.note_tags@;
    let mut r: Vec<NoteTagInfo> = Vec::new();
    let mut i: usize = 0;
    while i < db.note_tags.len()
        invariant
            db.wf(),
            rows_all == db.note_tags@,
            i <= rows_all.len(),
            r@.len() == keep(rows_all.subrange(0, i as int), of_note(note_id)).len(),
            forall|k: int|
                0 <= k < r@.len() ==> info_matches(
                    #[trigger] r@[k],
                    keep(rows_all.subrange(0, i as int), of_note(note_id))[k],
                    db.tags@,
                ),
        decreases rows_all.len() - i,
    {
        let row = db.note_tags[i];
        let ghost prev = keep(rows_all.subrange(0, i as int), of_note(note_id));
        let ghost prev_r = r@;
        proof {
            let s = rows_all.subrange(0, i + 1);
            assert(s.drop_last() =~= rows_all.subrange(0, i as int));
        }
        if row.note_id == note_id {
            let p = tag_place(db, row.tag_id);
            let info = NoteTagInfo {
                tag_id: row.tag_id,
                tag_name: db.tags[p].name.clone(),
                tag_color: copy_opt(&db.tags[p].color),
                source: row.source,
            };
            r.push(info);
            proof {
                let cur = keep(rows_all.subrange(0, i + 1), of_note(note_id));
                assert(cur == prev.push(row));
                assert forall|k: int| 0 <= k < r@.len() implies info_matches(#[trigger] r@[k], cur[k], db.tags@) by {
                    if k < prev.len() {
                        assert(r@[k] == prev_r[k]);
                    } else {
                        assert(db.tags@[p as int].id == row.tag_id);
                    }
                }
            }
        }
        i = i + 1;
    }
    assert(rows_all.subrange(0, rows_all.len() as int) =~= rows_all);
    r
}

/// Some entry of `list` is for tag `t`.
pub open spec fn lists_tag(list: Seq<NoteTagInfo>, t: u128) -> bool {
    exists|k: int| 0 <= k < list.len() && #[trigger] list[k].tag_id == t
}

/// After the inline tags of a note are replaced by the tags named `names`,
/// listing the note's tags gives each tag once, and the tags listed are
/// exactly its earlier manual tags together with the named ones.
pub proof fn lemma_sync_then_list(
    old_db: Database,
    new_db: Database,
    note: u128,
    names: Seq<Seq<char>>,
    list: Seq<NoteTagInfo>,
)
    requires
        old_db.wf(),
        new_db.wf(),
        inline_synced(old_db, new_db, note, names),
        listed(new_db, note, list),
    ensures
        forall|a: int, b: int| 0 <= a < b < list.len() ==> list[a].tag_id != list[b].tag_id,
        forall|t: u128|
            #[trigger] lists_tag(list, t) <==> (old_db.note_tags@.contains(
                NoteTag { note_id: note, tag_id: t, source: TagSource::Manual },
            ) || exists|m: int| 0 <= m < names.len() && #[trigger] names_tag(new_db.tags@, names[m], t)),
{
    let rows = keep(new_db.note_tags@, of_note(note));
    lemma_keep_from(new_db.note_tags@, of_note(note));
    lemma_keep_all(new_db.note_tags@, of_note(note));
    lemma_keep_distinct(new_db.note_tags@, of_note(note), |t: NoteTag| (t.note_id, t.tag_id));
    assert forall|a: int, b: int| 0 <= a < b < list.len() implies list[a].tag_id != list[b].tag_id by {
        assert(info_matches(list[a], rows[a], new_db.tags@));
        assert(info_matches(list[b], rows[b], new_db.tags@));
        assert(of_note(note)(rows[a]) && of_note(note)(rows[b]));
    }
    assert forall|t: u128|
        #[trigger] lists_tag(list, t) <==> (old_db.note_tags@.contains(
            NoteTag { note_id: note, tag_id: t, source: TagSource::Manual },
        ) || exists|m: int| 0 <= m < names.len() && #[trigger] names_tag(new_db.tags@, names[m], t)) by {
        let man = NoteTag { note_id: note, tag_id: t, source: TagSource::Manual };
        let inl = NoteTag { note_id: note, tag_id: t, source: TagSource::Inline };
        if lists_tag(list, t) {
            let k = choose|k: int| 0 <= k < list.len() && #[trigger] list[k].tag_id == t;
            assert(info_matches(list[k], rows[k], new_db.tags@));
            assert(of_note(note)(rows[k]));
            assert(new_db.note_tags@.contains(rows[k]));
            if rows[k].source == TagSource::Manual {
                assert(rows[k] == man);
            } else {
                assert(rows[k] == inl);
            }
        }
        let has_man = old_db.note_tags@.contains(man);
        let named = exists|m: int| 0 <= m < names.len() && #[trigger] names_tag(new_db.tags@, names[m], t);
        if has_man || named {
            let row = if has_man { man } else { inl };
            assert(new_db.note_tags@.contains(row));
            let j = choose|j: int| 0 <= j < new_db.note_tags@.len() && new_db.note_tags@[j] == row;
            assert(of_note(note)(new_db.note_tags@[j]));
            assert(rows.contains(new_db.note_tags@[j]));
            let k = choose|k: int| 0 <= k < rows.len() && rows[k] == row;
            assert(info_matches(list[k], rows[k], new_db.tags@));
            assert(list[k].tag_id == t);
        }
    }
}

/// Exactly one row of `rows` is a membership of `note` in `t`.
pub open spec fn exactly_one(rows: Seq<NoteTag>, note: u128, t: u128) -> bool {
    exists|i: int|
        0 <= i < rows.len() && #[trigger] rows[i].note_id == note && rows[i].tag_id == t && forall|j: int|
            0 <= j < rows.len() && rows[j].note_id == note && rows[j].tag_id == t ==> j == i
}

/// Attaching the same tag to a note by hand twice leaves the memberships
/// as the first call left them, with exactly one row for that note and tag.
pub proof fn lemma_manual_tag_idempotent(a: Database, b: Database, c: Database, note: u128, name: Seq<char>)
    requires
        b.wf(),
        c.wf(),
        manual_added(a, b, note, name),
        manual_added(b, c, note, name),
        tags_grown(b.tags@, c.tags@),
    ensures
        c.note_tags@ == b.note_tags@,
        exists|t: u128| #[trigger] names_tag(c.tags@, name, t) && exactly_one(c.note_tags@, note, t),
{
    let t1 = choose|t: u128|
        {
            &&& #[trigger] names_tag(b.tags@, name, t)
            &&& if has_pair(a.note_tags@, note, t) {
                b.note_tags@ == a.note_tags@
            } else {
                b.note_tags@ == a.note_tags@.push(NoteTag { note_id: note, tag_id: t, source: TagSource::Manual })
            }
        };
    let t2 = choose|t: u128|
        {
            &&& #[trigger] names_tag(c.tags@, name, t)
            &&& if has_pair(b.note_tags@, note, t) {
                c.note_tags@ == b.note_tags@
            } else {
                c.note_tags@ == b.note_tags@.push(NoteTag { note_id: note, tag_id: t, source: TagSource::Manual })
            }
        };
    lemma_tags_grown_has(b.tags@, c.tags@);
    let x = choose|x: int| 0 <= x < c.tags@.len() && #[trigger] c.tags@[x].name@ == name && c.tags@[x].id == t1;
    let y = choose|y: int| 0 <= y < c.tags@.len() && #[trigger] c.tags@[y].name@ == name && c.tags@[y].id == t2;
    assert(x == y);
    assert(t1 == t2);
    let i: int = if has_pair(a.note_tags@, note, t1) {
        choose|i: int| 0 <= i < a.note_tags@.len() && #[trigger] a.note_tags@[i].note_id == note && a.note_tags@[i].tag_id == t1
    } else {
        a.note_tags@.len() as int
    };
    assert(b.note_tags@[i].note_id == note && b.note_tags@[i].tag_id == t1);
    assert(has_pair(b.note_tags@, note, t1));
    assert(c.note_tags@ == b.note_tags@);
    assert forall|j: int| 0 <= j < c.note_tags@.len() && c.note_tags@[j].note_id == note && c.note_tags@[j].tag_id == t1 implies j == i by {
        if j < i {
            assert(!(c.note_tags@[j].note_id == c.note_tags@[i].note_id && c.note_tags@[j].tag_id == c.note_tags@[i].tag_id));
        } else if i < j {
            assert(!(c.note_tags@[i].note_id == c.note_tags@[j].note_id && c.note_tags@[i].tag_id == c.note_tags@[j].tag_id));
        }
    }
    assert(exactly_one(c.note_tags@, note, t1));
}

/// Memberships in tag `t` of live notes.
pub open spec fn counted_in(notes: Seq<crate::model::NoteData>, t: u128) -> spec_fn(NoteTag) -> bool {
    |r: NoteTag| r.tag_id == t && crate::links::is_live(notes, r.note_id)
}

/// `info` describes tag `t` with the number of live notes carrying it.
pub open spec fn tag_info_of(db: Database, info: TagInfo, t: Tag) -> bool {
    &&& info.id == t.id && info.name == t.name && info.color == t.color
    &&& info.note_count == keep(db.note_tags@, counted_in(db.notes@, t.id)).len()
}

fn count_live_members(db: &Database, t: u128) -> (r: u64)
    requires
        db.wf(),
    ensures
        r == keep(db.note_tags@, counted_in(db.notes@, t)).len(),
{
    let mut n: u64 = 0;
    let mut i: usize = 0;
    while i < db.note_tags.len()
        invariant
            db.wf(),
            i <= db.note_tags@.len(),
            n == keep(db.note_tags@.subrange(0, i as int), counted_in(db.notes@, t)).len(),
            n <= i,
        decreases db.note_tags@.len() - i,
    {
        proof {
            let s = db.note_tags@.subrange(0, i + 1);
            assert(s.drop_last() =~= db.note_tags@.subrange(0, i as int));
        }
        let row = db.note_tags[i];
        if row.tag_id == t {
            let live = match db.find_note(row.note_id) {
                None => false,
                Some(j) => {
                    proof {
                        if crate::links::is_live(db.notes@, row.note_id) {
                            let x = choose|x: int| 0 <= x < db.notes@.len() && #[trigger] db.notes@[x].id == row.note_id
                                && !db.notes@[x].is_trashed;
                            assert(x == j);
                        }
                    }
                    !db.notes[j].is_trashed
                },
            };
            if live {
                n = n + 1;
            }
        }
        i = i + 1;
    }
    assert(db.note_tags@.subrange(0, db.note_tags@.len() as int) =~= db.note_tags@);
    n
}

/// `r` lists every tag by name in code-point order, with the number of
/// live notes carrying it. Tags without members stay listed.
pub open spec fn tags_listed(db: Database, r: Seq<TagInfo>) -> bool {
    exists|order: Seq<usize>|
        {
            &&& is_perm(order, db.tags@.len())
            &&& sorted_by_text(order, db.tags@.map_values(|t: Tag| t.name@))
            &&& r.len() == db.tags@.len()
            &&& forall|k: int| 0 <= k < r.len() ==> tag_info_of(db, #[trigger] r[k], db.tags@[order[k] as int])
        }
}

/// Every tag by name, with the number of live notes carrying it.
pub fn get_all_tags(db: &Database) -> (r: Vec<TagInfo>)
    requires
        db.wf(),
    ensures
        tags_listed(*db, r@),
{
    let mut keys: Vec<String> = Vec::new();
    let mut i: usize = 0;
    while i < db.tags.len()
        invariant
            i <= db.tags@.len(),
            keys@.len() == i,
            forall|k: int| 0 <= k < i ==> (#[trigger] keys@[k])@ == db.tags@[k].name@,
        decreases db.tags@.len() - i,
    {
        keys.push(db.tags[i].name.clone());
        i = i + 1;
    }
    assert forall|k: int| 0 <= k < keys@.len() implies #[trigger] text_views(keys@)[k] == db.tags@.map_values(
        |t: Tag| t.name@,
    )[k] by {
        assert(keys@[k]@ == db.tags@[k].name@);
    }
    assert(text_views(keys@) =~= db.tags@.map_values(|t: Tag| t.name@));
    let order = sort_texts(&keys);
    let mut r: Vec<TagInfo> = Vec::new();
    let mut k: usize = 0;
    while k < order.len()
        invariant
            db.wf(),
            k <= order@.len(),
            is_perm(order@, db.tags@.len()),
            r@.len() == k,
            forall|x: int| 0 <= x < k ==> tag_info_of(*db, #[trigger] r@[x], db.tags@[order@[x] as int]),
        decreases order@.len() - k,
    {
        let t = &db.tags[order[k]];
        let count = count_live_members(db, t.id);
        r.push(TagInfo { id: t.id, name: t.name.clone(), color: copy_opt(&t.color), note_count: count });
        k = k + 1;
    }
    r
}

/// The store went from `a` through `mid` to `b` by removing the
/// membership of `note` in the tag named `from`, if that tag exists, and
/// then attaching the tag named `to` by hand.
pub open spec fn tag_moved(
    a: Database,
    mid: Database,
    b: Database,
    note: u128,
    from: Seq<char>,
    to: Seq<char>,
    r: Result<(), StoreError>,
) -> bool {
    &&& mid.notes@ == a.notes@ && mid.tags@ == a.tags@
    &&& mid.wikilinks@ == a.wikilinks@ && mid.flashcards@ == a.flashcards@
    &&& (forall|f: u128| !names_tag(a.tags@, from, f)) ==> mid.note_tags@ == a.note_tags@
    &&& forall|f: u128| names_tag(a.tags@, from, f) ==> mid.note_tags@ == keep(a.note_tags@, other_pair(note, f))
    &&& r is Ok ==> manual_added(mid, b, note, to)
    &&& r is Err ==> r == Err::<(), StoreError>(StoreError::Conflict) && b.note_tags@ == mid.note_tags@
    &&& tags_grown(mid.tags@, b.tags@)
}

/// Moves note `note_id` from the tag named `from_tag` to the tag named
/// `to_tag`: the membership in the first tag, if that tag exists, is
/// removed, then the second is attached by hand.
pub fn move_note_to_tag(db: &mut Database, note_id: u128, from_tag: String, to_tag: String) -> (r: Result<
    (),
    StoreError,
>)
    requires
        old(db).wf(),
    ensures
        final(db).wf(),
        !old(db).has_note(note_id) ==> r == Err::<(), StoreError>(StoreError::NotFound) && *final(db) == *old(db),
        old(db).has_note(note_id) ==> exists|mid: Database| #[trigger] tag_moved(*old(db), mid, *final(db), note_id, from_tag@, to_tag@, r),
{
    let ni = match db.find_note(note_id) {
        None => return Err(StoreError::NotFound),
        Some(i) => i,
    };
    let ghost o = *db;
    assert(o.has_note(note_id)) by { assert(o.notes@[ni as int].id == note_id); }
    match find_tag_by_name(db, from_tag.as_str()) {
        Some(i) => {
            let f = db.tags[i].id;
            remove_tag(db, note_id, f);
            proof {
                assert forall|g: u128| names_tag(o.tags@, from_tag@, g) implies g == f by {
                    let j = choose|j: int| 0 <= j < o.tags@.len() && #[trigger] o.tags@[j].name@ == from_tag@ && o.tags@[j].id == g;
                    if j != i {
                        if j < i {
                            assert(o.tags@[j].name@ != o.tags@[i as int].name@);
                        } else {
                            assert(o.tags@[i as int].name@ != o.tags@[j].name@);
                        }
                    }
                }
                assert(names_tag(o.tags@, from_tag@, f));
                assert(forall|g: u128| names_tag(o.tags@, from_tag@, g) ==> db.note_tags@ == keep(o.note_tags@, other_pair(note_id, g)));
            }
        },
        None => {
            proof {
                assert forall|g: u128| !names_tag(o.tags@, from_tag@, g) by {
                    if names_tag(o.tags@, from_tag@, g) {
                        let j = choose|j: int| 0 <= j < o.tags@.len() && #[trigger] o.tags@[j].name@ == from_tag@ && o.tags@[j].id == g;
                    }
                }
            }
        },
    }
    let ghost mid = *db;
    let ghost to = to_tag@;
    let r = add_manual_tag(db, note_id, to_tag);
    proof {
        assert(mid.notes@ == o.notes@ && mid.tags@ == o.tags@);
        assert(mid.wikilinks@ == o.wikilinks@ && mid.flashcards@ == o.flashcards@);
        assert((forall|f: u128| !names_tag(o.tags@, from_tag@, f)) ==> mid.note_tags@ == o.note_tags@);
        assert(r is Ok ==> manual_added(mid, *db, note_id, to));
        assert(tags_grown(mid.tags@, db.tags@));
        assert(forall|g: u128| names_tag(o.tags@, from_tag@, g) ==> mid.note_tags@ == keep(o.note_tags@, other_pair(note_id, g)));
        assert(mid.has_note(note_id));
        assert(r is Err ==> r == Err::<(), StoreError>(StoreError::Conflict) && db.note_tags@ == mid.note_tags@);
        assert(tag_moved(o, mid, *db, note_id, from_tag@, to, r));
    }
    r
}

/// After a manual tag is attached, a tag of that name exists, so attaching
/// it again to the same note is owed success.
pub proof fn lemma_manual_added_names(a: Database, b: Database, note: u128, name: Seq<char>)
    requires
        manual_added(a, b, note, name),
    ensures
        has_named_tag(b.tags@, name),
{
}

/// After the inline tags of a note are replaced by the tags named `names`,
/// the names listed for the note are exactly the names of its earlier
/// manual tags together with `names`.
pub proof fn lemma_sync_then_list_names(
    old_db: Database,
    new_db: Database,
    note: u128,
    names: Seq<Seq<char>>,
    list: Seq<NoteTagInfo>,
)
    requires
        old_db.wf(),
        new_db.wf(),
        inline_synced(old_db, new_db, note, names),
        listed(new_db, note, list),
    ensures
        forall|n: Seq<char>|
            (exists|k: int| 0 <= k < list.len() && #[trigger] list[k].tag_name@ == n) <==> (names.contains(n) || exists|t: u128|
                old_db.note_tags@.contains(NoteTag { note_id: note, tag_id: t, source: TagSource::Manual })
                    && #[trigger] names_tag(new_db.tags@, n, t)),
{
    lemma_sync_then_list(old_db, new_db, note, names, list);
    let rows = keep(new_db.note_tags@, of_note(note));
    let tags = new_db.tags@;
    assert forall|n: Seq<char>|
        (exists|k: int| 0 <= k < list.len() && #[trigger] list[k].tag_name@ == n) <==> (names.contains(n) || exists|t: u128|
            old_db.note_tags@.contains(NoteTag { note_id: note, tag_id: t, source: TagSource::Manual })
                && #[trigger] names_tag(new_db.tags@, n, t)) by {
        if exists|k: int| 0 <= k < list.len() && #[trigger] list[k].tag_name@ == n {
            let k = choose|k: int| 0 <= k < list.len() && #[trigger] list[k].tag_name@ == n;
            let t = list[k].tag_id;
            assert(info_matches(list[k], rows[k], tags));
            let i = choose|i: int| 0 <= i < tags.len() && #[trigger] tags[i].id == rows[k].tag_id && tags[i].name == list[k].tag_name
                && tags[i].color == list[k].tag_color;
            assert(names_tag(tags, n, t));
            assert(lists_tag(list, t));
            if !old_db.note_tags@.contains(NoteTag { note_id: note, tag_id: t, source: TagSource::Manual }) {
                let m = choose|m: int| 0 <= m < names.len() && #[trigger] names_tag(tags, names[m], t);
                let i2 = choose|i2: int| 0 <= i2 < tags.len() && #[trigger] tags[i2].name@ == names[m] && tags[i2].id == t;
                if i2 != i {
                    if i2 < i {
                        assert(tags[i2].id != tags[i].id);
                    } else {
                        assert(tags[i].id != tags[i2].id);
                    }
                }
                assert(names[m] == n);
                assert(names.contains(n));
            }
        }
        let rhs_manual = exists|t: u128|
            old_db.note_tags@.contains(NoteTag { note_id: note, tag_id: t, source: TagSource::Manual })
                && #[trigger] names_tag(new_db.tags@, n, t);
        if names.contains(n) || rhs_manual {
            let t: u128 = if rhs_manual {
                choose|t: u128|
                    old_db.note_tags@.contains(NoteTag { note_id: note, tag_id: t, source: TagSource::Manual })
                        && #[trigger] names_tag(new_db.tags@, n, t)
            } else {
                let m = choose|m: int| 0 <= m < names.len() && names[m] == n;
                assert(has_named_tag(tags, names[m]));
                choose|t: u128| names_tag(tags, names[m], t)
            };
            assert(names_tag(tags, n, t));
            if !rhs_manual {
                let m = choose|m: int| 0 <= m < names.len() && names[m] == n;
                assert(names_tag(tags, names[m], t));
            }
            assert(lists_tag(list, t));
            let k = choose|k: int| 0 <= k < list.len() && #[trigger] list[k].tag_id == t;
            assert(info_matches(list[k], rows[k], tags));
            let i = choose|i: int| 0 <= i < tags.len() && #[trigger] tags[i].id == rows[k].tag_id && tags[i].name == list[k].tag_name
                && tags[i].color == list[k].tag_color;
            let i2 = choose|i2: int| 0 <= i2 < tags.len() && #[trigger] tags[i2].name@ == n && tags[i2].id == t;
            if i2 != i {
                if i2 < i {
                    assert(tags[i2].id != tags[i].id);
                } else {
                    assert(tags[i].id != tags[i2].id);
                }
            }
            assert(list[k].tag_name@ == n);
        }
    }
}

} // verus!
