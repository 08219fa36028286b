//! Document store operations and the trash lifecycle.
use vstd::prelude::*;
use crate::ids::new_uuid;
use crate::model::{FlashcardData, NoteData, NoteTag, StoreError, Wikilink};
use crate::store::{
    Database, flashcards_wf, has_note_in, keep, lemma_keep_distinct, lemma_keep_from,
    lemma_same_ids, note_ok, note_tags_wf, notes_wf, same_ids, wikilinks_wf,
};
use crate::text::{word_count, word_count_spec};

verus! {

/// Only the note table differs between `a` and `b`.
pub open spec fn only_notes_changed(a: Database, b: Database) -> bool {
    &&& a.tags@ == b.tags@
    &&& a.note_tags@ == b.note_tags@
    &&& a.wikilinks@ == b.wikilinks@
    &&& a.flashcards@ == b.flashcards@
}

/// `n` is a new note with the given fields and defaults elsewhere.
pub open spec fn fresh_note(
    n: NoteData,
    id: u128,
    title: Seq<char>,
    content: Seq<char>,
    plain: Seq<char>,
    emoji: Seq<char>,
    parent: Option<u128>,
    is_folder: bool,
    now: i64,
) -> bool {
    &&& n.id == id && n.title@ == title && n.content@ == content && n.plain_text@ == plain
    &&& n.emoji is Some && n.emoji.unwrap()@ == emoji
    &&& n.parent_id == parent && n.is_folder == is_folder
    &&& !n.is_favorite && !n.is_pinned && !n.is_trashed && n.sort_order == 0
    &&& n.created_at == now && n.updated_at == now && n.trashed_at is None
    &&& n.word_count == word_count_spec(plain)
}

/// The outcome of creating a note whose new id came from outside: either
/// the id was free and the note was appended, or it was taken and nothing
/// changed.
pub open spec fn created(
    old_db: Database,
    new_db: Database,
    r: Result<u128, StoreError>,
    title: Seq<char>,
    content: Seq<char>,
    plain: Seq<char>,
    emoji: Seq<char>,
    parent: Option<u128>,
    is_folder: bool,
    now: i64,
) -> bool {
    &&& only_notes_changed(old_db, new_db)
    &&& match r {
        Ok(id) => {
            &&& !old_db.has_note(id)
            &&& new_db.notes@.len() == old_db.notes@.len() + 1
            &&& new_db.notes@.drop_last() == old_db.notes@
            &&& fresh_note(new_db.notes@.last(), id, title, content, plain, emoji, parent, is_folder, now)
        },
        Err(e) => e == StoreError::Conflict && new_db.notes@ == old_db.notes@,
    }
}

/// Builds a new note record.
pub fn new_record(
    id: u128,
    title: String,
    content: String,
    plain: String,
    emoji: String,
    parent: Option<u128>,
    is_folder: bool,
    now: i64,
) -> (r: NoteData)
    ensures
        fresh_note(r, id, title@, content@, plain@, emoji@, parent, is_folder, now),
        note_ok(r),
{
    let wc = word_count(plain.as_str());
    NoteData {
        id,
        title,
        content,
        plain_text: plain,
        emoji: Some(emoji),
        parent_id: parent,
        is_folder,
        is_favorite: false,
        is_pinned: false,
        is_trashed: false,
        sort_order: 0,
        created_at: now,
        updated_at: now,
        trashed_at: None,
        word_count: wc,
    }
}

/// Appends note `n` unless its id is taken.
pub fn insert_note(db: &mut Database, n: NoteData) -> (r: Result<(), StoreError>)
    requires
        old(db).wf(),
        note_ok(n),
    ensures
        final(db).wf(),
        only_notes_changed(*old(db), *final(db)),
        r is Ok <==> !old(db).has_note(n.id),
        r is Ok ==> final(db).notes@ == old(db).notes@.push(n),
        r is Err ==> r == Err::<(), StoreError>(StoreError::Conflict) && final(db).notes@ == old(db).notes@,
{
    match db.find_note(n.id) {
        Some(_) => Err(StoreError::Conflict),
        None => {
            let ghost before = db.notes@;
            db.notes.push(n);
            proof {
                assert forall|x: u128| has_note_in(before, x) implies has_note_in(db.notes@, x) by {
                    let i = choose|i: int| 0 <= i < before.len() && #[trigger] before[i].id == x;
                    assert(db.notes@[i] == before[i]);
                }
            }
            Ok(())
        },
    }
}

/// Inserts a new note with a fresh id.
fn create_record(
    db: &mut Database,
    title: String,
    content: String,
    plain: String,
    emoji: String,
    parent: Option<u128>,
    is_folder: bool,
    now: i64,
) -> (r: Result<u128, StoreError>)
    requires
        old(db).wf(),
    ensures
        final(db).wf(),
        created(*old(db), *final(db), r, title@, content@, plain@, emoji@, parent, is_folder, now),
        old(db).notes@.len() == 0 ==> r is Ok,
{
    let id = new_uuid();
    let n = new_record(id, title, content, plain, emoji, parent, is_folder, now);
    match insert_note(db, n) {
        Ok(()) => {
            assert(db.notes@.drop_last() =~= old(db).notes@);
            Ok(id)
        },
        Err(e) => Err(e),
    }
}

/// Creates an empty note titled "Untitled" under `parent_id`.
pub fn create_note(db: &mut Database, parent_id: Option<u128>, now: i64) -> (r: Result<u128, StoreError>)
    requires
        old(db).wf(),
    ensures
        final(db).wf(),
        created(*old(db), *final(db), r, "Untitled"@, "[]"@, ""@, "\u{1f4dd}"@, parent_id, false, now),
        old(db).notes@.len() == 0 ==> r is Ok,
{
    proof {
        reveal_strlit("");
    }
    let t = String::from_str("Untitled");
    let c = String::from_str("[]");
    let p = String::new();
    let e = String::from_str("\u{1f4dd}");
    assert(t@ == "Untitled"@ && c@ == "[]"@ && p@ == ""@ && e@ == "\u{1f4dd}"@);
    create_record(db, t, c, p, e, parent_id, false, now)
}

/// Creates a folder named `name` under `parent_id`.
pub fn create_folder(db: &mut Database, name: String, parent_id: Option<u128>, now: i64) -> (r: Result<
    u128,
    StoreError,
>)
    requires
        old(db).wf(),
    ensures
        final(db).wf(),
        created(*old(db), *final(db), r, name@, "[]"@, ""@, "\u{1f4c1}"@, parent_id, true, now),
        old(db).notes@.len() == 0 ==> r is Ok,
{
    proof {
        reveal_strlit("");
    }
    let c = String::from_str("[]");
    let p = String::new();
    let e = String::from_str("\u{1f4c1}");
    assert(c@ == "[]"@ && p@ == ""@ && e@ == "\u{1f4c1}"@);
    create_record(db, name, c, p, e, parent_id, true, now)
}

/// Creates a top-level note from a template whose plain text is
/// `plain_text`.
pub fn create_note_from_template(
    db: &mut Database,
    title: String,
    emoji: String,
    content: String,
    plain_text: String,
    now: i64,
) -> (r: Result<u128, StoreError>)
    requires
        old(db).wf(),
    ensures
        final(db).wf(),
        created(*old(db), *final(db), r, title@, content@, plain_text@, emoji@, None, false, now),
        old(db).notes@.len() == 0 ==> r is Ok,
{
    create_record(db, title, content, plain_text, emoji, None, false, now)
}

/// The note `id`.
pub fn get_note(db: &Database, note_id: u128) -> (r: Result<NoteData, StoreError>)
    requires
        db.wf(),
    ensures
        r is Ok <==> db.has_note(note_id),
        r is Err ==> r == Err::<NoteData, StoreError>(StoreError::NotFound),
        forall|i: int|
            0 <= i < db.notes@.len() && db.notes@[i].id == note_id ==> r == Ok::<NoteData, StoreError>(
                db.notes@[i],
            ),
{
    match db.find_note(note_id) {
        Some(i) => {
            proof {
                lemma_unique_place(*db, i as int, note_id);
            }
            Ok(db.notes[i].duplicate())
        },
        None => Err(StoreError::NotFound),
    }
}

/// The outcome of an update of note `id` by `f`: it fails with `NotFound`
/// when there is no such note, else the note is replaced by `f` of itself.
pub open spec fn updated(
    old_db: Database,
    new_db: Database,
    r: Result<(), StoreError>,
    id: u128,
    f: spec_fn(NoteData) -> NoteData,
) -> bool {
    &&& only_notes_changed(old_db, new_db)
    &&& (r is Ok <==> old_db.has_note(id))
    &&& (r is Err ==> r == Err::<(), StoreError>(StoreError::NotFound) && new_db.notes@ == old_db.notes@)
    &&& forall|i: int|
        0 <= i < old_db.notes@.len() && old_db.notes@[i].id == id ==> new_db.notes@ == old_db.notes@.update(
            i,
            f(old_db.notes@[i]),
        )
}

pub proof fn lemma_unique_place(db: Database, i: int, id: u128)
    requires
        db.wf(),
        0 <= i < db.notes@.len(),
        db.notes@[i].id == id,
    ensures
        forall|j: int| 0 <= j < db.notes@.len() && db.notes@[j].id == id ==> j == i,
{
}

/// The note after a content save.
pub open spec fn saved(n: NoteData, content: String, title: String, plain_text: String, now: i64) -> NoteData {
    NoteData {
        content,
        title,
        plain_text,
        word_count: word_count_spec(plain_text@) as u64,
        updated_at: now,
        ..n
    }
}

/// Stores new content, title and plain text for note `id`, with the word
/// count of the plain text.
pub fn save_note_content(
    db: &mut Database,
    note_id: u128,
    content: String,
    title: String,
    plain_text: String,
    now: i64,
) -> (r: Result<(), StoreError>)
    requires
        old(db).wf(),
    ensures
        final(db).wf(),
        updated(*old(db), *final(db), r, note_id, |n: NoteData| saved(n, content, title, plain_text, now)),
{
    match db.find_note(note_id) {
        None => Err(StoreError::NotFound),
        Some(i) => {
            let ghost (c, t, p) = (content, title, plain_text);
            let mut n = db.notes[i].duplicate();
            n.word_count = word_count(plain_text.as_str());
            n.content = content;
            n.title = title;
            n.plain_text = plain_text;
            n.updated_at = now;
            assert(n == saved(old(db).notes@[i as int], c, t, p, now));
            db.replace_note(i, n);
            proof {
                lemma_unique_place(*old(db), i as int, note_id);
            }
            Ok(())
        },
    }
}

/// Gives note `id` the title `new_title`.
pub fn rename_note(db: &mut Database, note_id: u128, new_title: String, now: i64) -> (r: Result<(), StoreError>)
    requires
        old(db).wf(),
    ensures
        final(db).wf(),
        updated(
            *old(db),
            *final(db),
            r,
            note_id,
            |n: NoteData| NoteData { title: new_title, updated_at: now, ..n },
        ),
{
    match db.find_note(note_id) {
        None => Err(StoreError::NotFound),
        Some(i) => {
            let ghost t = new_title;
            let mut n = db.notes[i].duplicate();
            n.title = new_title;
            n.updated_at = now;
            assert(n == NoteData { title: t, updated_at: now, ..old(db).notes@[i as int] });
            db.replace_note(i, n);
            proof {
                lemma_unique_place(*old(db), i as int, note_id);
            }
            Ok(())
        },
    }
}

/// Moves note `id` under `new_parent_id` (or to the top level). The parent
/// is not checked.
pub fn move_note(db: &mut Database, note_id: u128, new_parent_id: Option<u128>) -> (r: Result<(), StoreError>)
    requires
        old(db).wf(),
    ensures
        final(db).wf(),
        updated(*old(db), *final(db), r, note_id, |n: NoteData| NoteData { parent_id: new_parent_id, ..n }),
{
    match db.find_note(note_id) {
        None => Err(StoreError::NotFound),
        Some(i) => {
            let mut n = db.notes[i].duplicate();
            n.parent_id = new_parent_id;
            db.replace_note(i, n);
            proof {
                lemma_unique_place(*old(db), i as int, note_id);
            }
            Ok(())
        },
    }
}

/// Flips the favourite flag of note `id`.
pub fn toggle_favorite(db: &mut Database, note_id: u128) -> (r: Result<(), StoreError>)
    requires
        old(db).wf(),
    ensures
        final(db).wf(),
        updated(*old(db), *final(db), r, note_id, |n: NoteData| NoteData { is_favorite: !n.is_favorite, ..n }),
{
    match db.find_note(note_id) {
        None => Err(StoreError::NotFound),
        Some(i) => {
            let mut n = db.notes[i].duplicate();
            n.is_favorite = !n.is_favorite;
            db.replace_note(i, n);
            proof {
                lemma_unique_place(*old(db), i as int, note_id);
            }
            Ok(())
        },
    }
}

/// Flips the pinned flag of note `id`.
pub fn toggle_pin(db: &mut Database, note_id: u128) -> (r: Result<(), StoreError>)
    requires
        old(db).wf(),
    ensures
        final(db).wf(),
        updated(*old(db), *final(db), r, note_id, |n: NoteData| NoteData { is_pinned: !n.is_pinned, ..n }),
{
    match db.find_note(note_id) {
        None => Err(StoreError::NotFound),
        Some(i) => {
            let mut n = db.notes[i].duplicate();
            n.is_pinned = !n.is_pinned;
            db.replace_note(i, n);
            proof {
                lemma_unique_place(*old(db), i as int, note_id);
            }
            Ok(())
        },
    }
}

/// Note `n` after trashing note `id` at `now`: the note itself and its
/// direct children are trashed, nothing else changes.
pub open spec fn trash_one(n: NoteData, id: u128, now: i64) -> NoteData {
    if n.id == id || n.parent_id == Some(id) {
        NoteData { is_trashed: true, trashed_at: Some(now), ..n }
    } else {
        n
    }
}

/// The note table after trashing note `id` at `now`.
pub open spec fn trash_spec(notes: Seq<NoteData>, id: u128, now: i64) -> Seq<NoteData> {
    notes.map_values(|n: NoteData| trash_one(n, id, now))
}

/// The note table after restoring note `id`.
pub open spec fn restore_spec(notes: Seq<NoteData>, id: u128) -> Seq<NoteData> {
    notes.map_values(
        |n: NoteData|
            if n.id == id {
                NoteData { is_trashed: false, trashed_at: None, ..n }
            } else {
                n
            },
    )
}

/// Moves note `id` and its direct children to the trash. Grandchildren
/// keep their state.
pub fn delete_note(db: &mut Database, note_id: u128, now: i64) -> (r: Result<(), StoreError>)
    requires
        old(db).wf(),
    ensures
        final(db).wf(),
        only_notes_changed(*old(db), *final(db)),
        r is Ok <==> old(db).has_note(note_id),
        r is Ok ==> final(db).notes@ == trash_spec(old(db).notes@, note_id, now),
        r is Err ==> r == Err::<(), StoreError>(StoreError::NotFound) && final(db).notes@ == old(db).notes@,
{
    if db.find_note(note_id).is_none() {
        return Err(StoreError::NotFound);
    }
    let ghost before = db.notes@;
    let mut i: usize = 0;
    while i < db.notes.len()
        invariant
            before == old(db).notes@,
            only_notes_changed(*old(db), *db),
            db.notes@.len() == before.len(),
            i <= before.len(),
            forall|k: int| 0 <= k < i ==> db.notes@[k] == trash_one(before[k], note_id, now),
            forall|k: int| i <= k < before.len() ==> db.notes@[k] == before[k],
            notes_wf(before),
        decreases before.len() - i,
    {
        if db.notes[i].id == note_id || db.notes[i].parent_id == Some(note_id) {
            let mut n = db.notes[i].duplicate();
            n.is_trashed = true;
            n.trashed_at = Some(now);
            db.notes.set(i, n);
        }
        i = i + 1;
    }
    proof {
        assert(db.notes@ =~= trash_spec(before, note_id, now));
        assert(same_ids(before, db.notes@));
        lemma_same_ids(before, db.notes@);
        assert forall|k: int| 0 <= k < db.notes@.len() implies note_ok(#[trigger] db.notes@[k]) by {
            assert(note_ok(before[k]));
        }
        assert forall|a: int, b: int| 0 <= a < b < db.notes@.len() implies db.notes@[a].id != db.notes@[b].id by {
            assert(before[a].id != before[b].id);
        }
        assert(notes_wf(db.notes@));
        assert(note_tags_wf(db.note_tags@, db.notes@, db.tags@));
        assert(wikilinks_wf(db.wikilinks@, db.notes@));
        assert(flashcards_wf(db.flashcards@, db.notes@));
    }
    Ok(())
}

/// Takes note `id` out of the trash. Its children keep their state.
pub fn restore_note(db: &mut Database, note_id: u128) -> (r: Result<(), StoreError>)
    requires
        old(db).wf(),
    ensures
        final(db).wf(),
        only_notes_changed(*old(db), *final(db)),
        r is Ok <==> old(db).has_note(note_id),
        r is Ok ==> final(db).notes@ == restore_spec(old(db).notes@, note_id),
        r is Err ==> r == Err::<(), StoreError>(StoreError::NotFound) && final(db).notes@ == old(db).notes@,
{
    match db.find_note(note_id) {
        None => Err(StoreError::NotFound),
        Some(i) => {
            let mut n = db.notes[i].duplicate();
            n.is_trashed = false;
            n.trashed_at = None;
            db.replace_note(i, n);
            proof {
                lemma_unique_place(*old(db), i as int, note_id);
                assert(db.notes@ =~= restore_spec(old(db).notes@, note_id));
            }
            Ok(())
        },
    }
}

/// Wikilinks that do not touch note `id`.
pub open spec fn link_avoids(id: u128) -> spec_fn(Wikilink) -> bool {
    |w: Wikilink| w.source != id && w.target != id
}

/// Memberships of notes other than `id`.
pub open spec fn tag_row_avoids(id: u128) -> spec_fn(NoteTag) -> bool {
    |t: NoteTag| t.note_id != id
}

/// Flashcards of notes other than `id`.
pub open spec fn card_avoids(id: u128) -> spec_fn(FlashcardData) -> bool {
    |c: FlashcardData| c.note_id != id
}

/// The store after note `id` is deleted for good with everything that
/// refers to it.
pub open spec fn purged(old_db: Database, new_db: Database, id: u128) -> bool {
    &&& new_db.tags@ == old_db.tags@
    &&& new_db.wikilinks@ == keep(old_db.wikilinks@, link_avoids(id))
    &&& new_db.note_tags@ == keep(old_db.note_tags@, tag_row_avoids(id))
    &&& new_db.flashcards@ == keep(old_db.flashcards@, card_avoids(id))
    &&& forall|i: int| 0 <= i < old_db.notes@.len() && old_db.notes@[i].id == id ==> new_db.notes@ == old_db.notes@.remove(i)
}

fn links_without(links: &Vec<Wikilink>, id: u128) -> (r: Vec<Wikilink>)
    ensures
        r@ == keep(links@, link_avoids(id)),
{
    let mut r: Vec<Wikilink> = Vec::new();
    let mut i: usize = 0;
    while i < links.len()
        invariant
            i <= links@.len(),
            r@ == keep(links@.subrange(0, i as int), link_avoids(id)),
        decreases links@.len() - i,
    {
        let w = links[i];
        proof {
            let t = links@.subrange(0, i + 1);
            assert(t.drop_last() =~= links@.subrange(0, i as int));
        }
        if w.source != id && w.target != id {
            r.push(w);
        }
        i = i + 1;
    }
    assert(links@.subrange(0, links@.len() as int) =~= links@);
    r
}

fn tag_rows_without(rows: &Vec<NoteTag>, id: u128) -> (r: Vec<NoteTag>)
    ensures
        r@ == keep(rows@, tag_row_avoids(id)),
{
    let mut r: Vec<NoteTag> = Vec::new();
    let mut i: usize = 0;
    while i < rows.len()
        invariant
            i <= rows@.len(),
            r@ == keep(rows@.subrange(0, i as int), tag_row_avoids(id)),
        decreases rows@.len() - i,
    {
        let t = rows[i];
        proof {
            let s = rows@.subrange(0, i + 1);
            assert(s.drop_last() =~= rows@.subrange(0, i as int));
        }
        if t.note_id != id {
            r.push(t);
        }
        i = i + 1;
    }
    assert(rows@.subrange(0, rows@.len() as int) =~= rows@);
    r
}

fn cards_without(cards: &Vec<FlashcardData>, id: u128) -> (r: Vec<FlashcardData>)
    ensures
        r@ == keep(cards@, card_avoids(id)),
{
    let mut r: Vec<FlashcardData> = Vec::new();
    let mut i: usize = 0;
    while i < cards.len()
        invariant
            i <= cards@.len(),
            r@ == keep(cards@.subrange(0, i as int), card_avoids(id)),
        decreases cards@.len() - i,
    {
        proof {
            let s = cards@.subrange(0, i + 1);
            assert(s.drop_last() =~= cards@.subrange(0, i as int));
        }
        if cards[i].note_id != id {
            r.push(cards[i].duplicate());
        }
        i = i + 1;
    }
    assert(cards@.subrange(0, cards@.len() as int) =~= cards@);
    r
}

proof fn lemma_remove_keeps(s: Seq<NoteData>, i: int, x: u128)
    requires
        0 <= i < s.len(),
        has_note_in(s, x),
        s[i].id != x,
    ensures
        has_note_in(s.remove(i), x),
{
    let j = choose|j: int| 0 <= j < s.len() && #[trigger] s[j].id == x;
    if j < i {
        assert(s.remove(i)[j] == s[j]);
    } else {
        assert(s.remove(i)[j - 1] == s[j]);
    }
}

/// Note `id` exists and is in the trash.
pub open spec fn is_in_trash(notes: Seq<NoteData>, id: u128) -> bool {
    exists|i: int| 0 <= i < notes.len() && #[trigger] notes[i].id == id && notes[i].is_trashed
}

/// Deletes note `id`, which must be in the trash, for good, with its tag
/// memberships, the wikilinks from and to it, and its flashcards. Children
/// keep their parent reference. A note that is missing or not in the trash
/// gives `NotFound`.
pub fn permanently_delete_note(db: &mut Database, note_id: u128) -> (r: Result<(), StoreError>)
    requires
        old(db).wf(),
    ensures
        final(db).wf(),
        r is Ok <==> is_in_trash(old(db).notes@, note_id),
        r is Err ==> r == Err::<(), StoreError>(StoreError::NotFound) && *final(db) == *old(db),
        r is Ok ==> purged(*old(db), *final(db), note_id),
{
    let i = match db.find_note(note_id) {
        None => return Err(StoreError::NotFound),
        Some(i) => i,
    };
    proof {
        lemma_unique_place(*db, i as int, note_id);
    }
    if !db.notes[i].is_trashed {
        return Err(StoreError::NotFound);
    }
    let ghost o = *db;
    let links = links_without(&db.wikilinks, note_id);
    let rows = tag_rows_without(&db.note_tags, note_id);
    let cards = cards_without(&db.flashcards, note_id);
    db.wikilinks = links;
    db.note_tags = rows;
    db.flashcards = cards;
    db.notes.remove(i);
    proof {
        lemma_unique_place(o, i as int, note_id);
        let ns = o.notes@.remove(i as int);
        assert(db.notes@ == ns);
        assert forall|a: int, b: int| 0 <= a < b < ns.len() implies ns[a].id != ns[b].id by {
            let a0 = if a < i { a } else { a + 1 };
            let b0 = if b < i { b } else { b + 1 };
            assert(ns[a] == o.notes@[a0] && ns[b] == o.notes@[b0]);
        }
        assert forall|k: int| 0 <= k < ns.len() implies note_ok(#[trigger] ns[k]) by {
            let k0 = if k < i { k } else { k + 1 };
            assert(ns[k] == o.notes@[k0]);
        }
        lemma_keep_from(o.wikilinks@, link_avoids(note_id));
        lemma_keep_distinct(o.wikilinks@, link_avoids(note_id), |w: Wikilink| w);
        assert forall|k: int| 0 <= k < db.wikilinks@.len() implies (#[trigger] db.wikilinks@[k]).source
            != db.wikilinks@[k].target && has_note_in(ns, db.wikilinks@[k].source) && has_note_in(
            ns,
            db.wikilinks@[k].target,
        ) by {
            let w = db.wikilinks@[k];
            assert(link_avoids(note_id)(w));
            let j = choose|j: int| 0 <= j < o.wikilinks@.len() && o.wikilinks@[j] == w;
            assert(o.wikilinks@[j] == w);
            lemma_remove_keeps(o.notes@, i as int, w.source);
            lemma_remove_keeps(o.notes@, i as int, w.target);
        }
        lemma_keep_from(o.note_tags@, tag_row_avoids(note_id));
        lemma_keep_distinct(o.note_tags@, tag_row_avoids(note_id), |t: NoteTag| (t.note_id, t.tag_id));
        assert forall|k: int| 0 <= k < db.note_tags@.len() implies has_note_in(
            ns,
            #[trigger] db.note_tags@[k].note_id,
        ) && db.has_tag(db.note_tags@[k].tag_id) by {
            let t = db.note_tags@[k];
            assert(tag_row_avoids(note_id)(t));
            let j = choose|j: int| 0 <= j < o.note_tags@.len() && o.note_tags@[j] == t;
            assert(o.note_tags@[j] == t);
            lemma_remove_keeps(o.notes@, i as int, t.note_id);
        }
        lemma_keep_from(o.flashcards@, card_avoids(note_id));
        lemma_keep_distinct(o.flashcards@, card_avoids(note_id), |c: FlashcardData| c.id);
        assert forall|k: int| 0 <= k < db.flashcards@.len() implies has_note_in(
            ns,
            #[trigger] db.flashcards@[k].note_id,
        ) by {
            let c = db.flashcards@[k];
            assert(card_avoids(note_id)(c));
            let j = choose|j: int| 0 <= j < o.flashcards@.len() && o.flashcards@[j] == c;
            assert(o.flashcards@[j] == c);
            lemma_remove_keeps(o.notes@, i as int, c.note_id);
        }
    }
    Ok(())
}

/// The first live note titled exactly `title`, if any.
pub open spec fn is_first_live_titled(notes: Seq<NoteData>, i: int, title: Seq<char>) -> bool {
    &&& 0 <= i < notes.len()
    &&& !notes[i].is_trashed && notes[i].title@ == title
    &&& forall|k: int| 0 <= k < i ==> !(!notes[k].is_trashed && notes[k].title@ == title)
}

/// The content of a new daily note: a heading holding the date and an
/// empty paragraph.
pub open spec fn daily_content(date: Seq<char>) -> Seq<char> {
    "[{\"type\":\"h1\",\"children\":[{\"text\":\""@ + date + "\"}]},{\"type\":\"p\",\"children\":[{\"text\":\"\"}]}]"@
}

/// The id of the live note titled `date`; when there is none, a new note
/// with that title is created.
pub fn get_or_create_daily_note(db: &mut Database, date: String, now: i64) -> (r: Result<u128, StoreError>)
    requires
        old(db).wf(),
    ensures
        final(db).wf(),
        (exists|i: int| is_first_live_titled(old(db).notes@, i, date@)) ==> {
            &&& *final(db) == *old(db)
            &&& exists|i: int|
                is_first_live_titled(old(db).notes@, i, date@) && r == Ok::<u128, StoreError>(
                    old(db).notes@[i].id,
                )
        },
        (forall|i: int| !is_first_live_titled(old(db).notes@, i, date@)) ==> created(
            *old(db),
            *final(db),
            r,
            date@,
            daily_content(date@),
            ""@,
            "\u{1f4c5}"@,
            None,
            false,
            now,
        ),
        old(db).notes@.len() == 0 ==> r is Ok,
{
    let mut i: usize = 0;
    while i < db.notes.len()
        invariant
            *db == *old(db),
            db.wf(),
            i <= db.notes@.len(),
            forall|k: int| 0 <= k < i ==> !(!db.notes@[k].is_trashed && db.notes@[k].title@ == date@),
        decreases db.notes@.len() - i,
    {
        if !db.notes[i].is_trashed && db.notes[i].title == date {
            assert(is_first_live_titled(db.notes@, i as int, date@));
            return Ok(db.notes[i].id);
        }
        i = i + 1;
    }
    assert forall|j: int| !is_first_live_titled(old(db).notes@, j, date@) by {
        if 0 <= j < db.notes@.len() {
            assert(!(!db.notes@[j].is_trashed && db.notes@[j].title@ == date@));
        }
    }
    let content = String::from_str("[{\"type\":\"h1\",\"children\":[{\"text\":\"").concat(date.as_str()).concat(
        "\"}]},{\"type\":\"p\",\"children\":[{\"text\":\"\"}]}]",
    );
    let p = String::new();
    let e = String::from_str("\u{1f4c5}");
    proof {
        reveal_strlit("");
    }
    assert(content@ == daily_content(date@) && p@ == ""@ && e@ == "\u{1f4c5}"@);
    create_record(db, date, content, p, e, None, false, now)
}

/// Every note of a well-formed store is trashed exactly when it has a trash
/// time, and its word count is that of its plain text. Every operation of
/// the store keeps it well-formed.
pub proof fn lemma_note_rows(db: Database)
    requires
        db.wf(),
    ensures
        forall|i: int|
            0 <= i < db.notes@.len() ==> (#[trigger] db.notes@[i].is_trashed <==> db.notes@[i].trashed_at is Some),
        forall|i: int|
            0 <= i < db.notes@.len() ==> #[trigger] db.notes@[i].word_count == word_count_spec(db.notes@[i].plain_text@),
{
    assert forall|i: int| 0 <= i < db.notes@.len() implies (#[trigger] db.notes@[i].is_trashed
        <==> db.notes@[i].trashed_at is Some) by {
        assert(note_ok(db.notes@[i]));
    }
    assert forall|i: int| 0 <= i < db.notes@.len() implies #[trigger] db.notes@[i].word_count == word_count_spec(
        db.notes@[i].plain_text@,
    ) by {
        assert(note_ok(db.notes@[i]));
    }
}

/// Trashing note `id` trashes it and its direct children and leaves every
/// other note, grandchildren included, as it was; restoring note `id`
/// changes that note alone and never its children.
pub proof fn lemma_trash_scope(notes: Seq<NoteData>, id: u128, now: i64)
    ensures
        forall|i: int|
            0 <= i < notes.len() && (notes[i].id == id || notes[i].parent_id == Some(id))
                ==> #[trigger] trash_spec(notes, id, now)[i].is_trashed && trash_spec(notes, id, now)[i].trashed_at
                == Some(now),
        forall|i: int|
            0 <= i < notes.len() && notes[i].id != id && notes[i].parent_id != Some(id) ==> #[trigger] trash_spec(
                notes,
                id,
                now,
            )[i] == notes[i],
        forall|i: int|
            0 <= i < notes.len() && notes[i].id != id ==> #[trigger] restore_spec(notes, id)[i] == notes[i],
        forall|i: int|
            0 <= i < notes.len() && notes[i].id == id ==> !(#[trigger] restore_spec(notes, id)[i]).is_trashed
                && restore_spec(notes, id)[i].trashed_at is None,
{
}

/// The Markdown export of a note: its title as a heading, a blank line,
/// then its plain text.
pub open spec fn markdown_spec(title: Seq<char>, plain: Seq<char>) -> Seq<char> {
    "# "@ + title + "\n\n"@ + plain
}

/// Note `id` as Markdown.
pub fn export_note_markdown(db: &Database, note_id: u128) -> (r: Result<String, StoreError>)
    requires
        db.wf(),
    ensures
        r is Ok <==> db.has_note(note_id),
        r is Err ==> r == Err::<String, StoreError>(StoreError::NotFound),
        forall|i: int|
            0 <= i < db.notes@.len() && db.notes@[i].id == note_id ==> (r matches Ok(s) && s@ == markdown_spec(
                db.notes@[i].title@,
                db.notes@[i].plain_text@,
            )),
{
    match db.find_note(note_id) {
        None => Err(StoreError::NotFound),
        Some(i) => {
            proof {
                lemma_unique_place(*db, i as int, note_id);
            }
            let n = &db.notes[i];
            let s = String::from_str("# ").concat(n.title.as_str()).concat("\n\n").concat(n.plain_text.as_str());
            Ok(s)
        },
    }
}

} // verus!
