use notestore::graph::get_graph_data;
use notestore::links::{find_note_by_title, get_all_note_titles, get_backlinks, sync_wikilinks};
use notestore::lists::{get_favorite_notes, get_most_recent_note, get_notes_tree, get_recent_notes, get_trashed_notes};
use notestore::model::{EdgeType, TagSource};
use notestore::notes::{create_folder, create_note, delete_note, rename_note, save_note_content, toggle_favorite, toggle_pin};
use notestore::search::search_notes;
use notestore::store::Database;
use notestore::tags::{add_manual_tag, get_all_tags, get_note_tags, remove_tag, sync_inline_tags};

fn titled(db: &mut Database, title: &str, now: i64) -> u128 {
    let id = create_note(db, None, now).unwrap();
    rename_note(db, id, title.to_string(), now).unwrap();
    id
}

#[test]
fn inline_sync_keeps_manual_tags() {
    let mut db = Database::new();
    let a = titled(&mut db, "A", 1);
    add_manual_tag(&mut db, a, "work".to_string()).unwrap();
    sync_inline_tags(&mut db, a, vec!["idea".to_string(), "work".to_string()]).unwrap();
    let mut names: Vec<(String, TagSource)> =
        get_note_tags(&db, a).into_iter().map(|t| (t.tag_name, t.source)).collect();
    names.sort_by(|x, y| x.0.cmp(&y.0));
    assert_eq!(names, vec![("idea".to_string(), TagSource::Inline), ("work".to_string(), TagSource::Manual)]);
    sync_inline_tags(&mut db, a, vec!["other".to_string()]).unwrap();
    let mut names: Vec<String> = get_note_tags(&db, a).into_iter().map(|t| t.tag_name).collect();
    names.sort();
    assert_eq!(names, vec!["other".to_string(), "work".to_string()]);
    assert_eq!(db.tags.len(), 3);
}

#[test]
fn manual_tag_twice_is_one_row() {
    let mut db = Database::new();
    let a = titled(&mut db, "A", 1);
    add_manual_tag(&mut db, a, "x".to_string()).unwrap();
    add_manual_tag(&mut db, a, "x".to_string()).unwrap();
    assert_eq!(db.note_tags.len(), 1);
    assert_eq!(db.tags.len(), 1);
    assert_eq!(get_note_tags(&db, a).len(), 1);
}

#[test]
fn tag_errors_and_removal() {
    let mut db = Database::new();
    assert_eq!(add_manual_tag(&mut db, 99, "x".to_string()), Err(notestore::model::StoreError::NotFound));
    assert_eq!(sync_inline_tags(&mut db, 99, vec!["x".to_string()]), Err(notestore::model::StoreError::NotFound));
    let a = titled(&mut db, "A", 1);
    add_manual_tag(&mut db, a, "x".to_string()).unwrap();
    let t = db.tags[0].id;
    remove_tag(&mut db, a, t);
    assert!(get_note_tags(&db, a).is_empty());
    let all = get_all_tags(&db);
    assert_eq!(all.len(), 1);
    assert_eq!(all[0].note_count, 0);
}

#[test]
fn tag_counts_skip_trashed_notes() {
    let mut db = Database::new();
    let a = titled(&mut db, "A", 1);
    let b = titled(&mut db, "B", 1);
    add_manual_tag(&mut db, a, "x".to_string()).unwrap();
    add_manual_tag(&mut db, b, "x".to_string()).unwrap();
    assert_eq!(get_all_tags(&db)[0].note_count, 2);
    delete_note(&mut db, b, 2).unwrap();
    assert_eq!(get_all_tags(&db)[0].note_count, 1);
}

#[test]
fn wikilink_resolves_case_insensitively() {
    let mut db = Database::new();
    let a = titled(&mut db, "A", 1);
    let b = titled(&mut db, "B", 1);
    sync_wikilinks(&mut db, a, vec!["b".to_string()]).unwrap();
    assert_eq!(db.wikilinks.len(), 1);
    assert_eq!((db.wikilinks[0].source, db.wikilinks[0].target), (a, b));
    let back = get_backlinks(&db, b);
    assert_eq!(back.len(), 1);
    assert_eq!(back[0].id, a);
    assert_eq!(back[0].title, "A");
}

#[test]
fn wikilink_to_missing_title_adds_nothing() {
    let mut db = Database::new();
    let a = titled(&mut db, "A", 1);
    assert_eq!(sync_wikilinks(&mut db, a, vec!["Nowhere".to_string()]), Ok(()));
    assert!(db.wikilinks.is_empty());
}

#[test]
fn wikilink_skips_self_and_trashed_and_duplicates() {
    let mut db = Database::new();
    let a = titled(&mut db, "Same", 1);
    let b = titled(&mut db, "same", 1);
    let c = titled(&mut db, "Gone", 1);
    delete_note(&mut db, c, 2).unwrap();
    sync_wikilinks(&mut db, a, vec!["SAME".to_string(), "same".to_string(), "gone".to_string()]).unwrap();
    assert_eq!(db.wikilinks.len(), 1);
    assert_eq!(db.wikilinks[0].target, b);
    sync_wikilinks(&mut db, a, vec![]).unwrap();
    assert!(db.wikilinks.is_empty());
}

#[test]
fn find_by_title_ignores_case() {
    let mut db = Database::new();
    let a = titled(&mut db, "Hello World", 1);
    assert_eq!(find_note_by_title(&db, "hello world"), Some(a));
    assert_eq!(find_note_by_title(&db, "hello"), None);
}

#[test]
fn blank_search_is_empty() {
    let mut db = Database::new();
    titled(&mut db, "Anything", 1);
    assert!(search_notes(&db, "").is_empty());
    assert!(search_notes(&db, "   \t ").is_empty());
    assert!(search_notes(&db, " \"\" ").is_empty());
}

#[test]
fn search_matches_phrase_prefix_and_marks_it() {
    let mut db = Database::new();
    let a = titled(&mut db, "Rust notes", 1);
    save_note_content(&mut db, a, "[]".to_string(), "Rust notes".to_string(), "learning the borrow tracker".to_string(), 2)
        .unwrap();
    let b = titled(&mut db, "Other", 1);
    save_note_content(&mut db, b, "[]".to_string(), "Other".to_string(), "tracker borrow".to_string(), 2).unwrap();
    let r = search_notes(&db, "\"borrow tr\"");
    assert_eq!(r.len(), 1);
    assert_eq!(r[0].id, a);
    assert_eq!(r[0].note_id, a);
    assert_eq!(r[0].title, "Rust notes");
    assert_eq!(r[0].snippet, "learning the <mark>borrow tracker</mark>");
    let r = search_notes(&db, "rust");
    assert_eq!(r.len(), 1);
    assert_eq!(r[0].title, "<mark>Rust</mark> notes");
    assert!(search_notes(&db, "orrow").is_empty());
    delete_note(&mut db, a, 3).unwrap();
    assert!(search_notes(&db, "rust").is_empty());
}

#[test]
fn search_snippet_is_cut_with_ellipsis() {
    let mut db = Database::new();
    let a = titled(&mut db, "Long", 1);
    let text = format!("{}needle{}", "a ".repeat(30), " b".repeat(50));
    save_note_content(&mut db, a, "[]".to_string(), "Long".to_string(), text.clone(), 2).unwrap();
    let r = search_notes(&db, "needle");
    assert_eq!(r.len(), 1);
    let expected = format!("...{}<mark>needle</mark>{}...", &text[52..60], &text[66..120]);
    assert_eq!(r[0].snippet, expected);
}

#[test]
fn search_limit_is_twenty() {
    let mut db = Database::new();
    for i in 0..25 {
        titled(&mut db, &format!("topic {}", i), 1);
    }
    assert_eq!(search_notes(&db, "topic").len(), 20);
}

#[test]
fn graph_has_no_folders_or_trash_and_one_edge_per_tag_pair() {
    let mut db = Database::new();
    let a = titled(&mut db, "A", 1);
    let b = titled(&mut db, "B", 1);
    let c = titled(&mut db, "C", 1);
    let f = create_folder(&mut db, "F".to_string(), None, 1).unwrap();
    for n in [a, b, c, f] {
        add_manual_tag(&mut db, n, "t1".to_string()).unwrap();
        add_manual_tag(&mut db, n, "t2".to_string()).unwrap();
    }
    delete_note(&mut db, c, 2).unwrap();
    let g = get_graph_data(&db);
    let ids: Vec<u128> = g.nodes.iter().map(|n| n.id).collect();
    assert_eq!(ids, vec![a, b]);
    let tag_edges: Vec<(u128, u128)> =
        g.edges.iter().filter(|e| e.edge_type == EdgeType::Tag).map(|e| (e.source, e.target)).collect();
    assert_eq!(tag_edges, vec![(a.min(b), a.max(b))]);
}

#[test]
fn tree_orders_pinned_first() {
    let mut db = Database::new();
    let a = titled(&mut db, "A", 5);
    let b = titled(&mut db, "B", 3);
    let c = titled(&mut db, "C", 4);
    toggle_pin(&mut db, c).unwrap();
    let f = create_folder(&mut db, "F".to_string(), None, 1).unwrap();
    let t = titled(&mut db, "T", 0);
    delete_note(&mut db, t, 9).unwrap();
    let ids: Vec<u128> = get_notes_tree(&db).into_iter().map(|n| n.id).collect();
    assert_eq!(ids, vec![c, f, b, a]);
}

#[test]
fn recent_and_favorites_and_trash() {
    let mut db = Database::new();
    let a = titled(&mut db, "A", 5);
    let b = titled(&mut db, "B", 7);
    let c = titled(&mut db, "C", 6);
    create_folder(&mut db, "F".to_string(), None, 9).unwrap();
    let ids: Vec<u128> = get_recent_notes(&db, None).into_iter().map(|n| n.id).collect();
    assert_eq!(ids, vec![b, c, a]);
    let ids: Vec<u128> = get_recent_notes(&db, Some(2)).into_iter().map(|n| n.id).collect();
    assert_eq!(ids, vec![b, c]);
    assert_eq!(get_recent_notes(&db, Some(-1)).len(), 3);
    assert_eq!(get_most_recent_note(&db).unwrap().id, b);
    toggle_favorite(&mut db, a).unwrap();
    let favs: Vec<u128> = get_favorite_notes(&db).into_iter().map(|n| n.id).collect();
    assert_eq!(favs, vec![a]);
    delete_note(&mut db, a, 20).unwrap();
    delete_note(&mut db, c, 30).unwrap();
    assert!(get_favorite_notes(&db).is_empty());
    let trashed: Vec<(u128, Option<i64>)> = get_trashed_notes(&db).into_iter().map(|n| (n.id, n.trashed_at)).collect();
    assert_eq!(trashed, vec![(c, Some(30)), (a, Some(20))]);
    let titles: Vec<String> = get_all_note_titles(&db).into_iter().map(|n| n.title).collect();
    assert_eq!(titles, vec!["B".to_string()]);
}

#[test]
fn empty_store_has_no_recent_note() {
    let db = Database::new();
    assert!(get_most_recent_note(&db).is_none());
    assert!(get_notes_tree(&db).is_empty());
}

#[test]
fn tags_and_titles_come_in_name_order() {
    let mut db = Database::new();
    let a = titled(&mut db, "beta", 1);
    let b = titled(&mut db, "Alpha", 1);
    let c = titled(&mut db, "alpha", 1);
    add_manual_tag(&mut db, a, "zeta".to_string()).unwrap();
    add_manual_tag(&mut db, a, "Eta".to_string()).unwrap();
    add_manual_tag(&mut db, b, "eta".to_string()).unwrap();
    let names: Vec<String> = get_all_tags(&db).into_iter().map(|t| t.name).collect();
    assert_eq!(names, vec!["Eta".to_string(), "eta".to_string(), "zeta".to_string()]);
    let ids: Vec<u128> = get_all_note_titles(&db).into_iter().map(|n| n.id).collect();
    assert_eq!(ids, vec![b, c, a]);
}

#[test]
fn title_matches_rank_first() {
    let mut db = Database::new();
    let a = titled(&mut db, "Plain", 1);
    save_note_content(&mut db, a, "[]".to_string(), "Plain".to_string(), "about comets".to_string(), 2).unwrap();
    let b = titled(&mut db, "Comets", 1);
    let ids: Vec<u128> = search_notes(&db, "comet").into_iter().map(|r| r.id).collect();
    assert_eq!(ids, vec![b, a]);
}

#[test]
fn search_matches_word_sequence_across_separators() {
    let mut db = Database::new();
    let a = titled(&mut db, "Sep", 1);
    save_note_content(&mut db, a, "[]".to_string(), "Sep".to_string(), "Borrow,\t  TRACKER here".to_string(), 2).unwrap();
    let r = search_notes(&db, "borrow   tra");
    assert_eq!(r.len(), 1);
    assert_eq!(r[0].snippet, "<mark>Borrow,\t  TRACKER</mark> here");
    assert!(search_notes(&db, "tracker borrow").is_empty());
    assert!(search_notes(&db, "!!!").is_empty());
}
