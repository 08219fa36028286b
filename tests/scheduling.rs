use notestore::cards::{day_of, get_due_flashcards, get_flashcard_stats, review_flashcard, sync_flashcards};
use notestore::model::StoreError;
use notestore::notes::{create_note, delete_note, permanently_delete_note};
use notestore::review::{next_review_at, Schedule};
use notestore::store::Database;
use notestore::text::{base64_encode, sanitize_query, trim, word_count};

#[test]
fn top_ratings_from_new_card() {
    let s0 = Schedule::new();
    assert_eq!(s0, Schedule { interval: 1000, ease: 2500, repetitions: 0 });
    let s1 = s0.review(5);
    assert_eq!((s1.repetitions, s1.interval), (1, 1000));
    let s2 = s1.review(5);
    assert_eq!((s2.repetitions, s2.interval), (2, 6000));
    let s3 = s2.review(5);
    assert_eq!(s3.repetitions, 3);
    assert_eq!(s3.ease, 2980);
    assert_eq!(s3.interval, 6000 * 2980 / 1000);
    assert!(s3.interval > 6000);
}

#[test]
fn failed_review_resets() {
    let s = Schedule { interval: 17880, ease: 2980, repetitions: 3 };
    let f = s.review(0);
    assert_eq!(f, Schedule { interval: 1000, ease: 2780, repetitions: 0 });
    let low = Schedule { interval: 5000, ease: 1400, repetitions: 9 }.review(1);
    assert_eq!(low, Schedule { interval: 1000, ease: 1300, repetitions: 0 });
}

#[test]
fn ease_changes_by_rating() {
    let s = Schedule { interval: 1000, ease: 2500, repetitions: 5 };
    assert_eq!(s.review(4).ease, 2600);
    assert_eq!(s.review(3).ease, 2500);
    assert_eq!(s.review(2).ease, 2360);
    assert_eq!(Schedule { interval: 1000, ease: 1350, repetitions: 0 }.review(2).ease, 1300);
    assert_eq!(s.review(3).interval, 2500);
}

#[test]
fn next_review_rounds_to_seconds() {
    assert_eq!(next_review_at(1000, 1000), 1000 + 86400);
    assert_eq!(next_review_at(0, 1), 86);
    assert_eq!(next_review_at(0, 6), 518);
    assert_eq!(next_review_at(i64::MAX - 5, 1000), i64::MAX);
}

#[test]
fn day_numbers_round_down() {
    assert_eq!(day_of(0), 0);
    assert_eq!(day_of(86399), 0);
    assert_eq!(day_of(86400), 1);
    assert_eq!(day_of(-1), -1);
    assert_eq!(day_of(-86400), -1);
    assert_eq!(day_of(-86401), -2);
}

#[test]
fn flashcards_sync_review_and_due() {
    let mut db = Database::new();
    let n = create_note(&mut db, None, 0).unwrap();
    let cards = vec![("q1".to_string(), "a1".to_string()), ("q2".to_string(), "a2".to_string())];
    sync_flashcards(&mut db, n, cards, 100).unwrap();
    assert_eq!(db.flashcards.len(), 2);
    assert_eq!(get_due_flashcards(&db, 99).len(), 0);
    assert_eq!(get_due_flashcards(&db, 100).len(), 2);
    let id = db.flashcards[0].id;
    review_flashcard(&mut db, id, 5, 200).unwrap();
    let c = &db.flashcards[0];
    assert_eq!(c.next_review, 200 + 86400);
    assert_eq!(c.updated_at, 200);
    assert_eq!(c.schedule.repetitions, 1);
    let due = get_due_flashcards(&db, 300);
    assert_eq!(due.len(), 1);
    assert_eq!(due[0].question, "q2");
    let due = get_due_flashcards(&db, 200 + 86400);
    assert_eq!(due.iter().map(|c| c.question.clone()).collect::<Vec<_>>(), vec!["q2".to_string(), "q1".to_string()]);
    assert_eq!(review_flashcard(&mut db, 424242, 3, 1), Err(StoreError::NotFound));
    sync_flashcards(&mut db, n, vec![("q3".to_string(), "a3".to_string())], 500).unwrap();
    assert_eq!(db.flashcards.len(), 1);
    assert_eq!(sync_flashcards(&mut db, 77, vec![], 1), Err(StoreError::NotFound));
}

#[test]
fn flashcard_stats_counts() {
    let mut db = Database::new();
    let n = create_note(&mut db, None, 0).unwrap();
    let m = create_note(&mut db, None, 0).unwrap();
    sync_flashcards(&mut db, n, vec![("a".to_string(), "b".to_string()), ("c".to_string(), "d".to_string())], 86400 * 10)
        .unwrap();
    sync_flashcards(&mut db, m, vec![("e".to_string(), "f".to_string())], 86400 * 12 + 5).unwrap();
    let now = 86400 * 12 + 100;
    let s = get_flashcard_stats(&db, now);
    assert_eq!(s.total_cards, 3);
    assert_eq!(s.due_today, 3);
    assert_eq!(s.reviewed_today, 1);
    assert_eq!(s.streak, 2);
    delete_note(&mut db, m, now).unwrap();
    let s = get_flashcard_stats(&db, now);
    assert_eq!(s.total_cards, 2);
    permanently_delete_note(&mut db, m).unwrap();
    assert_eq!(db.flashcards.len(), 2);
}

#[test]
fn word_counts() {
    assert_eq!(word_count(""), 0);
    assert_eq!(word_count("   "), 0);
    assert_eq!(word_count("a"), 1);
    assert_eq!(word_count(" a  b\u{3000}c\u{a0}d "), 4);
}

#[test]
fn hex_encoding() {
    assert_eq!(base64_encode(&[]), "");
    assert_eq!(base64_encode(&[0, 15, 16, 255]), "000f10ff");
}

#[test]
fn query_sanitising() {
    assert_eq!(sanitize_query("  \"hello world\" "), "hello world");
    assert_eq!(sanitize_query("\"\""), "");
    assert_eq!(trim("\t x y \n"), "x y");
}
