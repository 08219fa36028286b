//! Adding stored rows one by one, as when a store is read back from disk:
//! each row is taken only where it keeps the store well-formed.
use vstd::prelude::*;
use crate::model::{FlashcardData, NoteTag, StoreError, Tag, Wikilink};
use crate::store::{Database, has_note_in, has_tag_in, tags_wf};
use crate::tags::has_pair;
use crate::text::str_eq;

verus! {

/// Only table `which` may differ between `a` and `b`: 0 tags, 1
/// memberships, 2 wikilinks, 3 flashcards.
pub open spec fn others_same(a: Database, b: Database, which: int) -> bool {
    &&& a.notes@ == b.notes@
    &&& (which != 0 ==> a.tags@ == b.tags@)
    &&& (which != 1 ==> a.note_tags@ == b.note_tags@)
    &&& (which != 2 ==> a.wikilinks@ == b.wikilinks@)
    &&& (which != 3 ==> a.flashcards@ == b.flashcards@)
}

/// Adds tag `t` unless its id or its name is taken (`Conflict`).
pub fn insert_tag(db: &mut Database, t: Tag) -> (r: Result<(), StoreError>)
    requires
        old(db).wf(),
    ensures
        final(db).wf(),
        others_same(*old(db), *final(db), 0),
        r is Ok <==> forall|i: int|
            0 <= i < old(db).tags@.len() ==> (#[trigger] old(db).tags@[i]).id != t.id && old(db).tags@[i].name@ != t.name@,
        r is Ok ==> final(db).tags@ == old(db).tags@.push(t),
        r is Err ==> r == Err::<(), StoreError>(StoreError::Conflict) && *final(db) == *old(db),
{
    let mut i: usize = 0;
    while i < db.tags.len()
        invariant
            *db == *old(db),
            db.wf(),
            i <= db.tags@.len(),
            forall|k: int| 0 <= k < i ==> (#[trigger] db.tags@[k]).id != t.id && db.tags@[k].name@ != t.name@,
        decreases db.tags@.len() - i,
    {
        if db.tags[i].id == t.id || str_eq(db.tags[i].name.as_str(), t.name.as_str()) {
            return Err(StoreError::Conflict);
        }
        i = i + 1;
    }
    let ghost before = db.tags@;
    let ghost o = *db;
    assert(o.wf());
    db.tags.push(t);
    proof {
        assert forall|a: int, b: int| 0 <= a < b < db.tags@.len() implies db.tags@[a].id != db.tags@[b].id
            && db.tags@[a].name@ != db.tags@[b].name@ by {
            assert(db.tags@[a] == before[a]);
            if b < before.len() {
                assert(db.tags@[b] == before[b]);
            }
        }
        assert(tags_wf(db.tags@));
        assert forall|id: u128| has_tag_in(before, id) implies has_tag_in(db.tags@, id) by {
            let j = choose|j: int| 0 <= j < before.len() && #[trigger] before[j].id == id;
            assert(db.tags@[j] == before[j]);
        }
        assert forall|k: int| 0 <= k < db.note_tags@.len() implies has_note_in(db.notes@, #[trigger] db.note_tags@[k].note_id)
            && has_tag_in(db.tags@, db.note_tags@[k].tag_id) by {
            let x = o.note_tags@[k];
            assert(has_note_in(o.notes@, x.note_id));
            assert(has_tag_in(o.tags@, x.tag_id));
        }
        assert(crate::store::note_tags_wf(db.note_tags@, db.notes@, db.tags@)) by {
            assert forall|a: int, b: int| 0 <= a < b < db.note_tags@.len() implies !(db.note_tags@[a].note_id
                == db.note_tags@[b].note_id && db.note_tags@[a].tag_id == db.note_tags@[b].tag_id) by {
                assert(!(o.note_tags@[a].note_id == o.note_tags@[b].note_id && o.note_tags@[a].tag_id == o.note_tags@[b].tag_id));
            }
        }
        assert(crate::store::notes_wf(db.notes@));
        assert(crate::store::wikilinks_wf(db.wikilinks@, db.notes@));
        assert(crate::store::flashcards_wf(db.flashcards@, db.notes@));
    }
    Ok(())
}

/// Adds membership `row`: `NotFound` unless its note and tag exist,
/// `Conflict` when the note already carries the tag.
pub fn insert_note_tag(db: &mut Database, row: NoteTag) -> (r: Result<(), StoreError>)
    requires
        old(db).wf(),
    ensures
        final(db).wf(),
        others_same(*old(db), *final(db), 1),
        r is Ok <==> old(db).has_note(row.note_id) && old(db).has_tag(row.tag_id) && !has_pair(
            old(db).note_tags@,
            row.note_id,
            row.tag_id,
        ),
        r is Ok ==> final(db).note_tags@ == old(db).note_tags@.push(row),
        r is Err ==> *final(db) == *old(db),
        !(old(db).has_note(row.note_id) && old(db).has_tag(row.tag_id)) ==> r == Err::<(), StoreError>(StoreError::NotFound),
        old(db).has_note(row.note_id) && old(db).has_tag(row.tag_id) && has_pair(old(db).note_tags@, row.note_id, row.tag_id)
            ==> r == Err::<(), StoreError>(StoreError::Conflict),
{
    let ni = match db.find_note(row.note_id) {
        None => return Err(StoreError::NotFound),
        Some(i) => i,
    };
    assert(db.has_note(row.note_id)) by { assert(db.notes@[ni as int].id == row.note_id); }
    let mut found = false;
    let mut i: usize = 0;
    while i < db.tags.len()
        invariant
            i <= db.tags@.len(),
            found == exists|k: int| 0 <= k < i && #[trigger] db.tags@[k].id == row.tag_id,
        decreases db.tags@.len() - i,
    {
        if db.tags[i].id == row.tag_id {
            found = true;
        }
        i = i + 1;
    }
    if !found {
        return Err(StoreError::NotFound);
    }
    assert(db.has_tag(row.tag_id));
    let mut j: usize = 0;
    while j < db.note_tags.len()
        invariant
            *db == *old(db),
            db.wf(),
            db.has_note(row.note_id),
            db.has_tag(row.tag_id),
            j <= db.note_tags@.len(),
            forall|k: int| 0 <= k < j ==> !(db.note_tags@[k].note_id == row.note_id && db.note_tags@[k].tag_id == row.tag_id),
        decreases db.note_tags@.len() - j,
    {
        if db.note_tags[j].note_id == row.note_id && db.note_tags[j].tag_id == row.tag_id {
            proof {
                assert(db.note_tags@[j as int].note_id == row.note_id);
            }
            return Err(StoreError::Conflict);
        }
        j = j + 1;
    }
    let ghost before = *db;
    assert(before.wf());
    db.note_tags.push(row);
    proof {
        assert forall|a: int, b: int| 0 <= a < b < db.note_tags@.len() implies !(db.note_tags@[a].note_id
            == db.note_tags@[b].note_id && db.note_tags@[a].tag_id == db.note_tags@[b].tag_id) by {
            assert(db.note_tags@[a] == before.note_tags@[a]);
            if b < before.note_tags@.len() {
                assert(db.note_tags@[b] == before.note_tags@[b]);
                assert(!(before.note_tags@[a].note_id == before.note_tags@[b].note_id && before.note_tags@[a].tag_id
                    == before.note_tags@[b].tag_id));
            }
        }
        assert forall|k: int| 0 <= k < db.note_tags@.len() implies has_note_in(db.notes@, #[trigger] db.note_tags@[k].note_id)
            && has_tag_in(db.tags@, db.note_tags@[k].tag_id) by {
            if k < before.note_tags@.len() {
                let x = before.note_tags@[k];
                assert(db.note_tags@[k] == x);
                assert(has_note_in(before.notes@, x.note_id));
                assert(has_tag_in(before.tags@, x.tag_id));
            }
        }
    }
    Ok(())
}

/// Adds wikilink `w`: `NotFound` unless both ends exist, `Conflict` for a
/// link of a note to itself or one that is present already.
pub fn insert_wikilink(db: &mut Database, w: Wikilink) -> (r: Result<(), StoreError>)
    requires
        old(db).wf(),
    ensures
        final(db).wf(),
        others_same(*old(db), *final(db), 2),
        r is Ok <==> old(db).has_note(w.source) && old(db).has_note(w.target) && w.source != w.target
            && !old(db).wikilinks@.contains(w),
        r is Ok ==> final(db).wikilinks@ == old(db).wikilinks@.push(w),
        r is Err ==> *final(db) == *old(db),
        !(old(db).has_note(w.source) && old(db).has_note(w.target)) ==> r == Err::<(), StoreError>(StoreError::NotFound),
        old(db).has_note(w.source) && old(db).has_note(w.target) && r is Err ==> r == Err::<(), StoreError>(
            StoreError::Conflict,
        ),
{
    let si = match db.find_note(w.source) {
        None => return Err(StoreError::NotFound),
        Some(i) => i,
    };
    let ti = match db.find_note(w.target) {
        None => return Err(StoreError::NotFound),
        Some(i) => i,
    };
    assert(db.has_note(w.source)) by { assert(db.notes@[si as int].id == w.source); }
    assert(db.has_note(w.target)) by { assert(db.notes@[ti as int].id == w.target); }
    if w.source == w.target {
        return Err(StoreError::Conflict);
    }
    let mut j: usize = 0;
    while j < db.wikilinks.len()
        invariant
            *db == *old(db),
            db.wf(),
            db.has_note(w.source),
            db.has_note(w.target),
            j <= db.wikilinks@.len(),
            forall|k: int| 0 <= k < j ==> db.wikilinks@[k] != w,
        decreases db.wikilinks@.len() - j,
    {
        if db.wikilinks[j] == w {
            proof {
                assert(db.wikilinks@.contains(w)) by { assert(db.wikilinks@[j as int] == w); }
            }
            return Err(StoreError::Conflict);
        }
        j = j + 1;
    }
    let ghost before = *db;
    assert(before.wf());
    db.wikilinks.push(w);
    proof {
        assert forall|a: int, b: int| 0 <= a < b < db.wikilinks@.len() implies db.wikilinks@[a] != db.wikilinks@[b] by {
            assert(db.wikilinks@[a] == before.wikilinks@[a]);
            if b < before.wikilinks@.len() {
                assert(db.wikilinks@[b] == before.wikilinks@[b]);
            }
        }
        assert forall|k: int| 0 <= k < db.wikilinks@.len() implies (#[trigger] db.wikilinks@[k]).source != db.wikilinks@[k].target
            && has_note_in(db.notes@, db.wikilinks@[k].source) && has_note_in(db.notes@, db.wikilinks@[k].target) by {
            if k < before.wikilinks@.len() {
                assert(db.wikilinks@[k] == before.wikilinks@[k]);
            }
        }
    }
    Ok(())
}

/// Adds flashcard `c`: `NotFound` unless its note exists, `Conflict` when
/// its id is taken.
pub fn insert_flashcard(db: &mut Database, c: FlashcardData) -> (r: Result<(), StoreError>)
    requires
        old(db).wf(),
    ensures
        final(db).wf(),
        others_same(*old(db), *final(db), 3),
        r is Ok <==> old(db).has_note(c.note_id) && forall|i: int|
            0 <= i < old(db).flashcards@.len() ==> (#[trigger] old(db).flashcards@[i]).id != c.id,
        r is Ok ==> final(db).flashcards@ == old(db).flashcards@.push(c),
        r is Err ==> *final(db) == *old(db),
        !old(db).has_note(c.note_id) ==> r == Err::<(), StoreError>(StoreError::NotFound),
        old(db).has_note(c.note_id) && r is Err ==> r == Err::<(), StoreError>(StoreError::Conflict),
{
    let ni = match db.find_note(c.note_id) {
        None => return Err(StoreError::NotFound),
        Some(i) => i,
    };
    assert(db.has_note(c.note_id)) by { assert(db.notes@[ni as int].id == c.note_id); }
    let mut j: usize = 0;
    while j < db.flashcards.len()
        invariant
            *db == *old(db),
            db.wf(),
            db.has_note(c.note_id),
            j <= db.flashcards@.len(),
            forall|k: int| 0 <= k < j ==> (#[trigger] db.flashcards@[k]).id != c.id,
        decreases db.flashcards@.len() - j,
    {
        if db.flashcards[j].id == c.id {
            return Err(StoreError::Conflict);
        }
        j = j + 1;
    }
    let ghost before = *db;
    assert(before.wf());
    db.flashcards.push(c);
    proof {
        assert forall|a: int, b: int| 0 <= a < b < db.flashcards@.len() implies db.flashcards@[a].id != db.flashcards@[b].id by {
            assert(db.flashcards@[a] == before.flashcards@[a]);
            if b < before.flashcards@.len() {
                assert(db.flashcards@[b] == before.flashcards@[b]);
            }
        }
        assert forall|k: int| 0 <= k < db.flashcards@.len() implies has_note_in(db.notes@, #[trigger] db.flashcards@[k].note_id) by {
            if k < before.flashcards@.len() {
                assert(db.flashcards@[k] == before.flashcards@[k]);
            }
        }
    }
    Ok(())
}

} // verus!
