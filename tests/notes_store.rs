use notestore::model::{EdgeType, StoreError, TagSource};
use notestore::notes::{
    create_folder, create_note, create_note_from_template, delete_note, export_note_markdown, get_note,
    get_or_create_daily_note, move_note, permanently_delete_note, rename_note, restore_note, save_note_content,
    toggle_favorite, toggle_pin,
};
use notestore::store::Database;
use notestore::graph::get_graph_data;
use notestore::links::{get_backlinks, sync_wikilinks};
use notestore::tags::{add_manual_tag, get_note_tags};

fn note(db: &mut Database, parent: Option<u128>, now: i64) -> u128 {
    create_note(db, parent, now).expect("fresh id")
}

#[test]
fn create_note_has_defaults() {
    let mut db = Database::new();
    let id = note(&mut db, None, 100);
    let n = get_note(&db, id).unwrap();
    assert_eq!(n.title, "Untitled");
    assert_eq!(n.content, "[]");
    assert_eq!(n.plain_text, "");
    assert_eq!(n.emoji.as_deref(), Some("\u{1f4dd}"));
    assert!(!n.is_trashed && n.trashed_at.is_none());
    assert_eq!(n.created_at, 100);
    assert_eq!(n.word_count, 0);
}

#[test]
fn get_missing_note_is_not_found() {
    let db = Database::new();
    assert_eq!(get_note(&db, 7).err(), Some(StoreError::NotFound));
}

#[test]
fn updates_of_missing_note_are_not_found() {
    let mut db = Database::new();
    assert_eq!(rename_note(&mut db, 1, "x".to_string(), 5), Err(StoreError::NotFound));
    assert_eq!(delete_note(&mut db, 1, 5), Err(StoreError::NotFound));
    assert_eq!(restore_note(&mut db, 1), Err(StoreError::NotFound));
    assert_eq!(permanently_delete_note(&mut db, 1), Err(StoreError::NotFound));
    assert_eq!(toggle_pin(&mut db, 1), Err(StoreError::NotFound));
}

#[test]
fn save_content_counts_words() {
    let mut db = Database::new();
    let id = note(&mut db, None, 1);
    save_note_content(&mut db, id, "[..]".to_string(), "T".to_string(), "  one two\tthree\n four  ".to_string(), 9)
        .unwrap();
    let n = get_note(&db, id).unwrap();
    assert_eq!(n.word_count, 4);
    assert_eq!(n.title, "T");
    assert_eq!(n.updated_at, 9);
    save_note_content(&mut db, id, "[]".to_string(), "T".to_string(), "   ".to_string(), 10).unwrap();
    assert_eq!(get_note(&db, id).unwrap().word_count, 0);
}

#[test]
fn trash_flag_matches_trash_time() {
    let mut db = Database::new();
    let id = note(&mut db, None, 1);
    delete_note(&mut db, id, 50).unwrap();
    let n = get_note(&db, id).unwrap();
    assert!(n.is_trashed);
    assert_eq!(n.trashed_at, Some(50));
    restore_note(&mut db, id).unwrap();
    let n = get_note(&db, id).unwrap();
    assert!(!n.is_trashed);
    assert_eq!(n.trashed_at, None);
}

#[test]
fn trash_cascades_one_level_and_restore_does_not() {
    let mut db = Database::new();
    let top = create_folder(&mut db, "F".to_string(), None, 1).unwrap();
    let child = note(&mut db, Some(top), 2);
    let grandchild = note(&mut db, Some(child), 3);
    delete_note(&mut db, top, 10).unwrap();
    assert!(get_note(&db, top).unwrap().is_trashed);
    assert!(get_note(&db, child).unwrap().is_trashed);
    assert!(!get_note(&db, grandchild).unwrap().is_trashed);
    restore_note(&mut db, top).unwrap();
    assert!(!get_note(&db, top).unwrap().is_trashed);
    assert!(get_note(&db, child).unwrap().is_trashed);
    assert_eq!(get_note(&db, child).unwrap().trashed_at, Some(10));
}

#[test]
fn rename_move_and_toggles() {
    let mut db = Database::new();
    let a = note(&mut db, None, 1);
    let b = note(&mut db, None, 1);
    rename_note(&mut db, a, "Alpha".to_string(), 4).unwrap();
    move_note(&mut db, a, Some(b)).unwrap();
    toggle_favorite(&mut db, a).unwrap();
    toggle_pin(&mut db, a).unwrap();
    toggle_pin(&mut db, a).unwrap();
    let n = get_note(&db, a).unwrap();
    assert_eq!(n.title, "Alpha");
    assert_eq!(n.updated_at, 4);
    assert_eq!(n.parent_id, Some(b));
    assert!(n.is_favorite);
    assert!(!n.is_pinned);
}

#[test]
fn folder_and_template_notes() {
    let mut db = Database::new();
    let f = create_folder(&mut db, "Work".to_string(), None, 1).unwrap();
    let n = get_note(&db, f).unwrap();
    assert!(n.is_folder);
    assert_eq!(n.emoji.as_deref(), Some("\u{1f4c1}"));
    let t = create_note_from_template(
        &mut db,
        "Meeting".to_string(),
        "M".to_string(),
        "[]".to_string(),
        "agenda items here".to_string(),
        2,
    )
    .unwrap();
    let n = get_note(&db, t).unwrap();
    assert_eq!(n.word_count, 3);
    assert_eq!(n.plain_text, "agenda items here");
}

#[test]
fn daily_note_is_created_once() {
    let mut db = Database::new();
    let a = get_or_create_daily_note(&mut db, "2024-01-02".to_string(), 1).unwrap();
    let b = get_or_create_daily_note(&mut db, "2024-01-02".to_string(), 2).unwrap();
    assert_eq!(a, b);
    let n = get_note(&db, a).unwrap();
    assert_eq!(
        n.content,
        "[{\"type\":\"h1\",\"children\":[{\"text\":\"2024-01-02\"}]},{\"type\":\"p\",\"children\":[{\"text\":\"\"}]}]"
    );
    assert_eq!(n.emoji.as_deref(), Some("\u{1f4c5}"));
    delete_note(&mut db, a, 3).unwrap();
    let c = get_or_create_daily_note(&mut db, "2024-01-02".to_string(), 4).unwrap();
    assert_ne!(a, c);
}

#[test]
fn markdown_export() {
    let mut db = Database::new();
    let id = note(&mut db, None, 1);
    save_note_content(&mut db, id, "[]".to_string(), "Title".to_string(), "body text".to_string(), 2).unwrap();
    assert_eq!(export_note_markdown(&db, id).unwrap(), "# Title\n\nbody text");
    assert_eq!(export_note_markdown(&db, 12345), Err(StoreError::NotFound));
}

#[test]
fn purge_removes_links_and_tags() {
    let mut db = Database::new();
    let a = note(&mut db, None, 1);
    let b = note(&mut db, None, 1);
    rename_note(&mut db, b, "Target".to_string(), 2).unwrap();
    rename_note(&mut db, a, "Source".to_string(), 2).unwrap();
    sync_wikilinks(&mut db, a, vec!["target".to_string()]).unwrap();
    sync_wikilinks(&mut db, b, vec!["Source".to_string()]).unwrap();
    add_manual_tag(&mut db, b, "x".to_string()).unwrap();
    assert_eq!(get_backlinks(&db, b).len(), 1);
    delete_note(&mut db, b, 5).unwrap();
    permanently_delete_note(&mut db, b).unwrap();
    assert!(get_backlinks(&db, b).is_empty());
    assert!(get_note_tags(&db, b).is_empty());
    assert!(get_backlinks(&db, a).is_empty());
    assert!(db.wikilinks.is_empty());
    assert_eq!(db.tags.len(), 1);
    assert_eq!(get_note(&db, b).err(), Some(StoreError::NotFound));
}

#[test]
fn tag_sources_are_kept_apart() {
    let mut db = Database::new();
    let a = note(&mut db, None, 1);
    add_manual_tag(&mut db, a, "m".to_string()).unwrap();
    let tags = get_note_tags(&db, a);
    assert_eq!(tags.len(), 1);
    assert_eq!(tags[0].tag_name, "m");
    assert_eq!(tags[0].source, TagSource::Manual);
    assert_eq!(tags[0].tag_color.as_deref(), Some("#6366f1"));
}

#[test]
fn graph_edge_kinds() {
    let mut db = Database::new();
    let a = note(&mut db, None, 1);
    let b = note(&mut db, None, 1);
    rename_note(&mut db, b, "B".to_string(), 1).unwrap();
    sync_wikilinks(&mut db, a, vec!["b".to_string()]).unwrap();
    let g = get_graph_data(&db);
    assert_eq!(g.nodes.len(), 2);
    assert_eq!(g.edges.len(), 1);
    assert_eq!(g.edges[0].edge_type, EdgeType::Wikilink);
    assert_eq!((g.edges[0].source, g.edges[0].target), (a, b));
}

#[test]
fn live_note_cannot_be_purged() {
    let mut db = Database::new();
    let a = note(&mut db, None, 1);
    assert_eq!(permanently_delete_note(&mut db, a), Err(StoreError::NotFound));
    assert!(get_note(&db, a).is_ok());
    delete_note(&mut db, a, 2).unwrap();
    assert_eq!(permanently_delete_note(&mut db, a), Ok(()));
    assert!(db.notes.is_empty());
}

#[test]
fn graph_leaves_out_links_to_folders() {
    let mut db = Database::new();
    let a = note(&mut db, None, 1);
    let f = create_folder(&mut db, "Projects".to_string(), None, 1).unwrap();
    sync_wikilinks(&mut db, a, vec!["projects".to_string()]).unwrap();
    assert_eq!(db.wikilinks.len(), 1);
    assert_eq!(db.wikilinks[0].target, f);
    let g = get_graph_data(&db);
    assert_eq!(g.nodes.len(), 1);
    assert!(g.edges.is_empty());
}
