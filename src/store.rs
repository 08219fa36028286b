//! The note store: notes with their hierarchy and trash state, tags and
//! memberships, wikilinks and flashcards, with the invariants that tie them
//! together.
use vstd::prelude::*;
use crate::model::{FlashcardData, NoteData, NoteTag, Tag, Wikilink};
use crate::text::word_count_spec;

verus! {

/// The tables of the store.
pub struct Database {
    pub notes: Vec<NoteData>,
    pub tags: Vec<Tag>,
    pub note_tags: Vec<NoteTag>,
    pub wikilinks: Vec<Wikilink>,
    pub flashcards: Vec<FlashcardData>,
}

/// The row invariants of a note: it is trashed exactly when it has a trash
/// time, and its word count is that of its plain text.
pub open spec fn note_ok(n: NoteData) -> bool {
    &&& (n.is_trashed <==> n.trashed_at is Some)
    &&& n.word_count == word_count_spec(n.plain_text@)
}

pub open spec fn has_note_in(notes: Seq<NoteData>, id: u128) -> bool {
    exists|i: int| 0 <= i < notes.len() && #[trigger] notes[i].id == id
}

pub open spec fn has_tag_in(tags: Seq<Tag>, id: u128) -> bool {
    exists|i: int| 0 <= i < tags.len() && #[trigger] tags[i].id == id
}

pub open spec fn notes_wf(notes: Seq<NoteData>) -> bool {
    &&& forall|i: int, j: int| 0 <= i < j < notes.len() ==> notes[i].id != notes[j].id
    &&& forall|i: int| 0 <= i < notes.len() ==> note_ok(#[trigger] notes[i])
}

pub open spec fn tags_wf(tags: Seq<Tag>) -> bool {
    forall|i: int, j: int|
        0 <= i < j < tags.len() ==> tags[i].id != tags[j].id && tags[i].name@ != tags[j].name@
}

pub open spec fn note_tags_wf(nt: Seq<NoteTag>, notes: Seq<NoteData>, tags: Seq<Tag>) -> bool {
    &&& forall|i: int, j: int|
        0 <= i < j < nt.len() ==> !(nt[i].note_id == nt[j].note_id && nt[i].tag_id == nt[j].tag_id)
    &&& forall|i: int|
        0 <= i < nt.len() ==> has_note_in(notes, #[trigger] nt[i].note_id) && has_tag_in(tags, nt[i].tag_id)
}

pub open spec fn wikilinks_wf(wl: Seq<Wikilink>, notes: Seq<NoteData>) -> bool {
    &&& forall|i: int, j: int| 0 <= i < j < wl.len() ==> wl[i] != wl[j]
    &&& forall|i: int|
        0 <= i < wl.len() ==> (#[trigger] wl[i]).source != wl[i].target && has_note_in(notes, wl[i].source)
            && has_note_in(notes, wl[i].target)
}

pub open spec fn flashcards_wf(cards: Seq<FlashcardData>, notes: Seq<NoteData>) -> bool {
    &&& forall|i: int, j: int| 0 <= i < j < cards.len() ==> cards[i].id != cards[j].id
    &&& forall|i: int| 0 <= i < cards.len() ==> has_note_in(notes, #[trigger] cards[i].note_id)
}

/// The elements of `s` that satisfy `p`, in order.
pub open spec fn keep<A>(s: Seq<A>, p: spec_fn(A) -> bool) -> Seq<A>
    decreases s.len(),
{
    if s.len() == 0 {
        Seq::empty()
    } else if p(s.last()) {
        keep(s.drop_last(), p).push(s.last())
    } else {
        keep(s.drop_last(), p)
    }
}

pub proof fn lemma_keep_from<A>(s: Seq<A>, p: spec_fn(A) -> bool)
    ensures
        keep(s, p).len() <= s.len(),
        forall|k: int|
            0 <= k < keep(s, p).len() ==> p(#[trigger] keep(s, p)[k]) && s.contains(keep(s, p)[k]),
    decreases s.len(),
{
    if s.len() > 0 {
        lemma_keep_from(s.drop_last(), p);
        let r = keep(s, p);
        let q = keep(s.drop_last(), p);
        assert forall|k: int| 0 <= k < r.len() implies p(#[trigger] r[k]) && s.contains(r[k]) by {
            if k < q.len() {
                assert(r[k] == q[k]);
                let j = choose|j: int| 0 <= j < s.drop_last().len() && s.drop_last()[j] == q[k];
                assert(s[j] == q[k]);
            } else {
                assert(r[k] == s[s.len() - 1]);
            }
        }
    }
}

pub proof fn lemma_keep_all<A>(s: Seq<A>, p: spec_fn(A) -> bool)
    ensures
        forall|j: int| 0 <= j < s.len() && p(s[j]) ==> keep(s, p).contains(#[trigger] s[j]),
    decreases s.len(),
{
    if s.len() > 0 {
        lemma_keep_all(s.drop_last(), p);
        let r = keep(s, p);
        let q = keep(s.drop_last(), p);
        assert forall|j: int| 0 <= j < s.len() && p(s[j]) implies r.contains(#[trigger] s[j]) by {
            if j < s.len() - 1 {
                assert(s.drop_last()[j] == s[j]);
                let k = choose|k: int| 0 <= k < q.len() && q[k] == s[j];
                assert(r[k] == q[k]);
            } else {
                assert(r[r.len() - 1] == s[j]);
            }
        }
    }
}

pub proof fn lemma_keep_distinct<A, K>(s: Seq<A>, p: spec_fn(A) -> bool, key: spec_fn(A) -> K)
    requires
        forall|i: int, j: int| 0 <= i < j < s.len() ==> key(s[i]) != key(s[j]),
    ensures
        forall|i: int, j: int|
            0 <= i < j < keep(s, p).len() ==> key(keep(s, p)[i]) != key(keep(s, p)[j]),
    decreases s.len(),
{
    if s.len() > 0 {
        let d = s.drop_last();
        assert forall|i: int, j: int| 0 <= i < j < d.len() implies key(d[i]) != key(d[j]) by {
            assert(d[i] == s[i] && d[j] == s[j]);
        }
        lemma_keep_distinct(d, p, key);
        lemma_keep_from(d, p);
        let r = keep(s, p);
        let q = keep(d, p);
        if p(s.last()) {
            assert forall|i: int, j: int| 0 <= i < j < r.len() implies key(r[i]) != key(r[j]) by {
                if j == r.len() - 1 {
                    assert(r[i] == q[i]);
                    assert(d.contains(q[i]));
                    let m = choose|m: int| 0 <= m < d.len() && d[m] == q[i];
                    assert(s[m] == q[i]);
                    assert(r[j] == s[s.len() - 1]);
                } else {
                    assert(r[i] == q[i] && r[j] == q[j]);
                }
            }
        }
    }
}

/// Two note tables with the same ids at the same places.
pub open spec fn same_ids(a: Seq<NoteData>, b: Seq<NoteData>) -> bool {
    a.len() == b.len() && forall|i: int| 0 <= i < a.len() ==> a[i].id == b[i].id
}

pub proof fn lemma_same_ids(a: Seq<NoteData>, b: Seq<NoteData>)
    requires
        same_ids(a, b),
    ensures
        forall|id: u128| has_note_in(a, id) == has_note_in(b, id),
{
    assert forall|id: u128| has_note_in(a, id) implies has_note_in(b, id) by {
        let i = choose|i: int| 0 <= i < a.len() && #[trigger] a[i].id == id;
        assert(b[i].id == id);
    }
    assert forall|id: u128| has_note_in(b, id) implies has_note_in(a, id) by {
        let i = choose|i: int| 0 <= i < b.len() && #[trigger] b[i].id == id;
        assert(a[i].id == id);
    }
}

impl Database {
    pub open spec fn has_note(&self, id: u128) -> bool {
        has_note_in(self.notes@, id)
    }

    pub open spec fn has_tag(&self, id: u128) -> bool {
        has_tag_in(self.tags@, id)
    }

    /// The invariant of the store.
    pub open spec fn wf(&self) -> bool {
        &&& notes_wf(self.notes@)
        &&& tags_wf(self.tags@)
        &&& note_tags_wf(self.note_tags@, self.notes@, self.tags@)
        &&& wikilinks_wf(self.wikilinks@, self.notes@)
        &&& flashcards_wf(self.flashcards@, self.notes@)
    }

    /// An empty store.
    pub fn new() -> (r: Database)
        ensures
            r.wf(),
            r.notes@.len() == 0,
            r.tags@.len() == 0,
            r.note_tags@.len() == 0,
            r.wikilinks@.len() == 0,
            r.flashcards@.len() == 0,
    {
        Database {
            notes: Vec::new(),
            tags: Vec::new(),
            note_tags: Vec::new(),
            wikilinks: Vec::new(),
            flashcards: Vec::new(),
        }
    }

    /// The place of note `id` in the note table.
    pub fn find_note(&self, id: u128) -> (r: Option<usize>)
        ensures
            match r {
                Some(i) => i < self.notes@.len() && self.notes@[i as int].id == id,
                None => !self.has_note(id),
            },
    {
        let mut i: usize = 0;
        while i < self.notes.len()
            invariant
                i <= self.notes@.len(),
                forall|k: int| 0 <= k < i ==> self.notes@[k].id != id,
            decreases self.notes@.len() - i,
        {
            if self.notes[i].id == id {
                return Some(i);
            }
            i = i + 1;
        }
        None
    }

    /// Replaces the note at place `i` by a note with the same id.
    pub fn replace_note(&mut self, i: usize, n: NoteData)
        requires
            old(self).wf(),
            i < old(self).notes@.len(),
            n.id == old(self).notes@[i as int].id,
            note_ok(n),
        ensures
            final(self).wf(),
            final(self).notes@ == old(self).notes@.update(i as int, n),
            final(self).tags@ == old(self).tags@,
            final(self).note_tags@ == old(self).note_tags@,
            final(self).wikilinks@ == old(self).wikilinks@,
            final(self).flashcards@ == old(self).flashcards@,
    {
        let ghost before = self.notes@;
        self.notes.set(i, n);
        proof {
            assert(same_ids(before, self.notes@));
            lemma_same_ids(before, self.notes@);
        }
    }
}

} // verus!
