use notestore::lists::{get_kanban_data, get_notes_by_date_range};
use notestore::model::StoreError;
use notestore::notes::{create_note, delete_note, rename_note, save_note_content};
use notestore::related::{find_related_notes, keyword_tally, related_from_lowered, top_keywords};
use notestore::store::Database;
use notestore::tags::{add_manual_tag, get_note_tags, move_note_to_tag};
use notestore::doc::{extract_plain_text_from_json, DocNode};
use notestore::text::join_trimmed;

fn with_text(db: &mut Database, title: &str, text: &str, now: i64) -> u128 {
    let id = create_note(db, None, now).unwrap();
    save_note_content(db, id, "[]".to_string(), title.to_string(), text.to_string(), now).unwrap();
    id
}

#[test]
fn tally_counts_keywords_in_first_use_order() {
    let t = keyword_tally("rust, rust! the borrow tracker; rust borrow abc");
    let got: Vec<(String, u64)> = t.into_iter().collect();
    assert_eq!(
        got,
        vec![("rust".to_string(), 3), ("borrow".to_string(), 2), ("tracker".to_string(), 1)]
    );
}

#[test]
fn stop_words_and_short_words_are_skipped() {
    let t = keyword_tally("about which their cat dog ёжик");
    let got: Vec<String> = t.into_iter().map(|e| e.0).collect();
    assert_eq!(got, vec!["ёжик".to_string()]);
}

#[test]
fn top_keywords_keep_eight_by_count() {
    let t: Vec<(String, u64)> = (0..10).map(|i| (format!("word{}", i), if i == 9 { 5 } else { 1 })).collect();
    let top = top_keywords(&t);
    assert_eq!(top.len(), 8);
    assert_eq!(top[0], "word9");
    assert_eq!(top[1], "word0");
    assert_eq!(top[7], "word6");
}

#[test]
fn related_notes_are_scored() {
    let mut db = Database::new();
    let a = with_text(&mut db, "A", "Gardening tomatoes gardening soil", 1);
    let b = with_text(&mut db, "B", "tomatoes and soil", 1);
    let c = with_text(&mut db, "C", "Gardening is fun", 1);
    let d = with_text(&mut db, "D", "tomatoesauce only", 1);
    let r = find_related_notes(&db, a).unwrap();
    let got: Vec<(u128, u64)> = r.iter().map(|x| (x.id, x.score)).collect();
    assert_eq!(got, vec![(b, 67), (c, 33)]);
    assert_eq!(r[0].title, "B");
    assert!(!got.iter().any(|x| x.0 == d));
    delete_note(&mut db, b, 2).unwrap();
    let r = find_related_notes(&db, a).unwrap();
    assert_eq!(r.iter().map(|x| x.id).collect::<Vec<_>>(), vec![c]);
}

#[test]
fn related_notes_of_blank_or_missing_note() {
    let mut db = Database::new();
    let a = with_text(&mut db, "A", "   ", 1);
    with_text(&mut db, "B", "anything here", 1);
    assert!(find_related_notes(&db, a).unwrap().is_empty());
    let s = with_text(&mut db, "S", "the and for", 1);
    assert!(find_related_notes(&db, s).unwrap().is_empty());
    assert_eq!(find_related_notes(&db, 999).err(), Some(StoreError::NotFound));
}

#[test]
fn related_from_lowered_text() {
    let mut db = Database::new();
    let a = with_text(&mut db, "A", "x", 1);
    let b = with_text(&mut db, "Planets", "", 1);
    let r = related_from_lowered(&db, a, "planets planets");
    assert_eq!(r.len(), 1);
    assert_eq!((r[0].id, r[0].score), (b, 100));
}

fn leaf(t: &str) -> DocNode {
    DocNode { text: Some(t.to_string()), children: vec![] }
}

#[test]
fn plain_text_from_node_texts() {
    assert_eq!(join_trimmed(&vec![]), "");
    let parts = vec!["Title".to_string(), "".to_string(), "body ".to_string()];
    assert_eq!(join_trimmed(&parts), "Title  body");
}

#[test]
fn plain_text_of_document_tree() {
    assert_eq!(extract_plain_text_from_json(&vec![]), "");
    let doc = vec![
        DocNode { text: None, children: vec![leaf("Heading")] },
        DocNode { text: Some(" intro".to_string()), children: vec![leaf("a"), DocNode { text: None, children: vec![leaf("b")] }] },
        DocNode { text: None, children: vec![] },
    ];
    assert_eq!(extract_plain_text_from_json(&doc), "Heading  intro a b");
}

#[test]
fn move_between_tags() {
    let mut db = Database::new();
    let a = with_text(&mut db, "A", "", 1);
    add_manual_tag(&mut db, a, "todo".to_string()).unwrap();
    move_note_to_tag(&mut db, a, "todo".to_string(), "done".to_string()).unwrap();
    let names: Vec<String> = get_note_tags(&db, a).into_iter().map(|t| t.tag_name).collect();
    assert_eq!(names, vec!["done".to_string()]);
    move_note_to_tag(&mut db, a, "missing".to_string(), "done".to_string()).unwrap();
    assert_eq!(get_note_tags(&db, a).len(), 1);
    assert_eq!(move_note_to_tag(&mut db, 5, "a".to_string(), "b".to_string()), Err(StoreError::NotFound));
}

#[test]
fn board_lists_tagged_notes() {
    let mut db = Database::new();
    let a = with_text(&mut db, "A", &"z".repeat(150), 5);
    let b = with_text(&mut db, "B", "short", 7);
    with_text(&mut db, "C", "untagged", 9);
    add_manual_tag(&mut db, a, "x".to_string()).unwrap();
    add_manual_tag(&mut db, a, "y".to_string()).unwrap();
    add_manual_tag(&mut db, b, "x".to_string()).unwrap();
    let cards = get_kanban_data(&db);
    assert_eq!(cards.iter().map(|c| c.id).collect::<Vec<_>>(), vec![b, a]);
    assert_eq!(cards[1].preview, "z".repeat(100));
    assert_eq!(cards[1].tags, vec!["x".to_string(), "y".to_string()]);
    assert_eq!(cards[0].preview, "short");
}

#[test]
fn notes_in_date_range() {
    let mut db = Database::new();
    let a = with_text(&mut db, "A", "", 10);
    let b = with_text(&mut db, "B", "", 20);
    let c = with_text(&mut db, "C", "", 30);
    rename_note(&mut db, a, "A2".to_string(), 25).unwrap();
    let ids: Vec<u128> = get_notes_by_date_range(&db, 15, 26).into_iter().map(|n| n.id).collect();
    assert_eq!(ids, vec![a, b]);
    assert!(get_notes_by_date_range(&db, 31, 40).is_empty());
    let _ = c;
}
