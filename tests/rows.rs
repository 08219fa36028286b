use notestore::model::{FlashcardData, NoteTag, StoreError, Tag, TagSource, Wikilink};
use notestore::notes::create_note;
use notestore::review::Schedule;
use notestore::rows::{insert_flashcard, insert_note_tag, insert_tag, insert_wikilink};
use notestore::store::Database;

fn tag(id: u128, name: &str) -> Tag {
    Tag { id, name: name.to_string(), color: None }
}

#[test]
fn tags_are_taken_once_by_id_and_name() {
    let mut db = Database::new();
    assert_eq!(insert_tag(&mut db, tag(1, "a")), Ok(()));
    assert_eq!(insert_tag(&mut db, tag(1, "b")), Err(StoreError::Conflict));
    assert_eq!(insert_tag(&mut db, tag(2, "a")), Err(StoreError::Conflict));
    assert_eq!(insert_tag(&mut db, tag(2, "b")), Ok(()));
    assert_eq!(db.tags.len(), 2);
}

#[test]
fn memberships_need_note_and_tag() {
    let mut db = Database::new();
    let n = create_note(&mut db, None, 0).unwrap();
    insert_tag(&mut db, tag(5, "t")).unwrap();
    let row = NoteTag { note_id: n, tag_id: 5, source: TagSource::Manual };
    assert_eq!(insert_note_tag(&mut db, NoteTag { note_id: n, tag_id: 6, source: TagSource::Inline }), Err(StoreError::NotFound));
    assert_eq!(insert_note_tag(&mut db, NoteTag { note_id: 1, tag_id: 5, source: TagSource::Inline }), Err(StoreError::NotFound));
    assert_eq!(insert_note_tag(&mut db, row), Ok(()));
    assert_eq!(insert_note_tag(&mut db, NoteTag { note_id: n, tag_id: 5, source: TagSource::Inline }), Err(StoreError::Conflict));
    assert_eq!(db.note_tags.len(), 1);
}

#[test]
fn links_need_two_distinct_notes() {
    let mut db = Database::new();
    let a = create_note(&mut db, None, 0).unwrap();
    let b = create_note(&mut db, None, 0).unwrap();
    assert_eq!(insert_wikilink(&mut db, Wikilink { source: a, target: 3 }), Err(StoreError::NotFound));
    assert_eq!(insert_wikilink(&mut db, Wikilink { source: a, target: a }), Err(StoreError::Conflict));
    assert_eq!(insert_wikilink(&mut db, Wikilink { source: a, target: b }), Ok(()));
    assert_eq!(insert_wikilink(&mut db, Wikilink { source: a, target: b }), Err(StoreError::Conflict));
    assert_eq!(db.wikilinks.len(), 1);
}

#[test]
fn cards_need_note_and_fresh_id() {
    let mut db = Database::new();
    let n = create_note(&mut db, None, 0).unwrap();
    let card = |id: u128, note: u128| FlashcardData {
        id,
        note_id: note,
        question: "q".to_string(),
        answer: "a".to_string(),
        next_review: 0,
        schedule: Schedule::new(),
        updated_at: 0,
    };
    assert_eq!(insert_flashcard(&mut db, card(1, 77)), Err(StoreError::NotFound));
    assert_eq!(insert_flashcard(&mut db, card(1, n)), Ok(()));
    assert_eq!(insert_flashcard(&mut db, card(1, n)), Err(StoreError::Conflict));
    assert_eq!(db.flashcards.len(), 1);
}
