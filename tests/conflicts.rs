use notestore::cards::{replace_flashcards, sync_flashcards};
use notestore::model::{NoteData, StoreError};
use notestore::notes::{create_note, get_note, insert_note};
use notestore::store::Database;
use notestore::tags::upsert_tag_with;

fn record(id: u128) -> NoteData {
    NoteData {
        id,
        title: "T".to_string(),
        content: "[]".to_string(),
        plain_text: "two words".to_string(),
        emoji: None,
        parent_id: None,
        is_folder: false,
        is_favorite: false,
        is_pinned: false,
        is_trashed: false,
        sort_order: 0,
        created_at: 1,
        updated_at: 1,
        trashed_at: None,
        word_count: 2,
    }
}

#[test]
fn insert_note_rejects_taken_id() {
    let mut db = Database::new();
    assert_eq!(insert_note(&mut db, record(7)), Ok(()));
    assert_eq!(insert_note(&mut db, record(7)), Err(StoreError::Conflict));
    assert_eq!(db.notes.len(), 1);
    assert_eq!(get_note(&db, 7).unwrap().word_count, 2);
}

#[test]
fn upsert_tag_with_fresh_and_taken_ids() {
    let mut db = Database::new();
    assert_eq!(upsert_tag_with(&mut db, "a", 1), Ok(1));
    assert_eq!(upsert_tag_with(&mut db, "a", 2), Ok(1));
    assert_eq!(upsert_tag_with(&mut db, "b", 1), Err(StoreError::Conflict));
    assert_eq!(db.tags.len(), 1);
    assert_eq!(upsert_tag_with(&mut db, "b", 3), Ok(3));
    assert_eq!(db.tags[1].color.as_deref(), Some("#6366f1"));
}

#[test]
fn replace_flashcards_checks_ids() {
    let mut db = Database::new();
    let n = create_note(&mut db, None, 0).unwrap();
    let m = create_note(&mut db, None, 0).unwrap();
    let cards = vec![(1u128, "q".to_string(), "a".to_string()), (2u128, "q2".to_string(), "a2".to_string())];
    assert_eq!(replace_flashcards(&mut db, n, cards, 10), Ok(()));
    assert_eq!(db.flashcards.len(), 2);
    assert_eq!(db.flashcards[1].id, 2);
    assert_eq!(db.flashcards[1].next_review, 10);
    let dup = vec![(5u128, "x".to_string(), "y".to_string()), (5u128, "z".to_string(), "w".to_string())];
    assert_eq!(replace_flashcards(&mut db, m, dup, 11), Err(StoreError::Conflict));
    let taken = vec![(1u128, "x".to_string(), "y".to_string())];
    assert_eq!(replace_flashcards(&mut db, m, taken, 11), Err(StoreError::Conflict));
    assert_eq!(db.flashcards.len(), 2);
    let reuse = vec![(1u128, "again".to_string(), "y".to_string())];
    assert_eq!(replace_flashcards(&mut db, n, reuse, 12), Ok(()));
    assert_eq!(db.flashcards.len(), 1);
    assert_eq!(db.flashcards[0].question, "again");
    assert_eq!(replace_flashcards(&mut db, 999, vec![], 1), Err(StoreError::NotFound));
    assert_eq!(sync_flashcards(&mut db, m, vec![("p".to_string(), "q".to_string())], 13), Ok(()));
    assert_eq!(db.flashcards.len(), 2);
}
