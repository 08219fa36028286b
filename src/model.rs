//! Records of the note store and the read models handed to callers.
//! Identities are 128-bit values (the numeric form of a UUID); timestamps are
//! seconds since the Unix epoch.
use vstd::prelude::*;
use crate::review::Schedule;

verus! {

/// A note or a folder.
pub struct NoteData {
    pub id: u128,
    pub title: String,
    /// The serialised rich-text tree, opaque to the store.
    pub content: String,
    /// The plain-text projection of `content`, indexed for search.
    pub plain_text: String,
    pub emoji: Option<String>,
    pub parent_id: Option<u128>,
    pub is_folder: bool,
    pub is_favorite: bool,
    pub is_pinned: bool,
    pub is_trashed: bool,
    pub sort_order: i64,
    pub created_at: i64,
    pub updated_at: i64,
    pub trashed_at: Option<i64>,
    pub word_count: u64,
}

/// Why a note carries a tag.
#[derive(Clone, Copy, Debug, PartialEq, Eq, Structural)]
pub enum TagSource {
    /// Attached explicitly.
    Manual,
    /// Extracted from the note's content.
    Inline,
}

/// A named label; names are unique.
pub struct Tag {
    pub id: u128,
    pub name: String,
    pub color: Option<String>,
}

/// Membership of a note in a tag.
#[derive(Clone, Copy, Debug, PartialEq, Eq, Structural)]
pub struct NoteTag {
    pub note_id: u128,
    pub tag_id: u128,
    pub source: TagSource,
}

/// A directed reference from one note's content to another note.
#[derive(Clone, Copy, Debug, PartialEq, Eq, Structural)]
pub struct Wikilink {
    pub source: u128,
    pub target: u128,
}

/// A flashcard with its review schedule.
pub struct FlashcardData {
    pub id: u128,
    pub note_id: u128,
    pub question: String,
    pub answer: String,
    pub next_review: i64,
    pub schedule: Schedule,
    pub updated_at: i64,
}

/// Errors of the store's operations.
#[derive(Clone, Copy, Debug, PartialEq, Eq, Structural)]
pub enum StoreError {
    /// The id does not name a row.
    NotFound,
    /// A new row would repeat an existing id.
    Conflict,
}

/// An entry of the sidebar tree.
pub struct NoteTreeItem {
    pub id: u128,
    pub title: String,
    pub parent_id: Option<u128>,
    pub emoji: Option<String>,
    pub is_folder: bool,
    pub position: i64,
    pub is_favorite: bool,
    pub is_pinned: bool,
}

/// A search hit with marked-up title and snippet.
pub struct SearchResultItem {
    pub id: u128,
    pub title: String,
    pub snippet: String,
    pub note_id: u128,
}

/// A recently edited note.
pub struct RecentNote {
    pub id: u128,
    pub title: String,
    pub emoji: Option<String>,
    pub updated_at: i64,
}

/// A tag with the number of live notes that carry it.
pub struct TagInfo {
    pub id: u128,
    pub name: String,
    pub color: Option<String>,
    pub note_count: u64,
}

/// A tag of one note.
pub struct NoteTagInfo {
    pub tag_id: u128,
    pub tag_name: String,
    pub tag_color: Option<String>,
    pub source: TagSource,
}

/// A favourite note.
pub struct FavoriteNote {
    pub id: u128,
    pub title: String,
    pub emoji: Option<String>,
}

/// A note in the trash.
pub struct TrashedNote {
    pub id: u128,
    pub title: String,
    pub emoji: Option<String>,
    pub trashed_at: Option<i64>,
}

/// A note that links to another.
pub struct BacklinkItem {
    pub id: u128,
    pub title: String,
    pub emoji: Option<String>,
}

/// A node of the exported graph.
pub struct GraphNode {
    pub id: u128,
    pub title: String,
    pub emoji: Option<String>,
}

/// The kind of an exported edge.
#[derive(Clone, Copy, Debug, PartialEq, Eq, Structural)]
pub enum EdgeType {
    Wikilink,
    Tag,
}

/// An edge of the exported graph.
#[derive(Clone, Copy, Debug, PartialEq, Eq, Structural)]
pub struct GraphEdge {
    pub source: u128,
    pub target: u128,
    pub edge_type: EdgeType,
}

/// The exported graph.
pub struct GraphData {
    pub nodes: Vec<GraphNode>,
    pub edges: Vec<GraphEdge>,
}

/// The id and title of a note, for link completion.
pub struct NoteTitleItem {
    pub id: u128,
    pub title: String,
}

/// A note created or updated in a time range.
pub struct NotesByDateItem {
    pub id: u128,
    pub title: String,
    pub emoji: Option<String>,
    pub created_at: i64,
    pub updated_at: i64,
}

/// A tagged note on the board, with the start of its text and its tag
/// names.
pub struct KanbanCard {
    pub id: u128,
    pub title: String,
    pub emoji: Option<String>,
    pub preview: String,
    pub updated_at: i64,
    pub tags: Vec<String>,
}

/// Counters of the review scheduler.
#[derive(Clone, Copy, Debug, PartialEq, Eq, Structural)]
pub struct FlashcardStats {
    pub due_today: u64,
    pub total_cards: u64,
    pub reviewed_today: u64,
    pub streak: u64,
}

/// A copy of an optional text.
pub fn copy_opt(s: &Option<String>) -> (r: Option<String>)
    ensures
        r == *s,
{
    match s {
        Some(x) => Some(x.clone()),
        None => None,
    }
}

impl NoteData {
    /// A field-by-field copy.
    pub fn duplicate(&self) -> (r: NoteData)
        ensures
            r == *self,
    {
        NoteData {
            id: self.id,
            title: self.title.clone(),
            content: self.content.clone(),
            plain_text: self.plain_text.clone(),
            emoji: copy_opt(&self.emoji),
            parent_id: self.parent_id,
            is_folder: self.is_folder,
            is_favorite: self.is_favorite,
            is_pinned: self.is_pinned,
            is_trashed: self.is_trashed,
            sort_order: self.sort_order,
            created_at: self.created_at,
            updated_at: self.updated_at,
            trashed_at: self.trashed_at,
            word_count: self.word_count,
        }
    }
}

impl FlashcardData {
    /// A field-by-field copy.
    pub fn duplicate(&self) -> (r: FlashcardData)
        ensures
            r == *self,
    {
        FlashcardData {
            id: self.id,
            note_id: self.note_id,
            question: self.question.clone(),
            answer: self.answer.clone(),
            next_review: self.next_review,
            schedule: self.schedule,
            updated_at: self.updated_at,
        }
    }
}

} // verus!
