//! Read paths over the note table: the sidebar tree, recent notes,
//! favourites and the trash.
use vstd::prelude::*;
use crate::model::{FavoriteNote, KanbanCard, NoteData, NoteTag, Tag, NotesByDateItem, NoteTreeItem, RecentNote, TrashedNote};
use crate::tags::{get_note_tags, info_matches, listed, of_note};
use crate::model::copy_opt;
use crate::order::{is_perm, sort_indices, sorted_by};
use crate::store::{Database, keep};

verus! {

/// Which notes a listing shows.
#[derive(Clone, Copy, Debug, PartialEq, Eq, Structural)]
pub enum Pick {
    /// Notes not in the trash.
    Live,
    /// Notes not in the trash that are not folders.
    LiveLeaf,
    /// Favourite notes not in the trash.
    Favorite,
    /// Notes in the trash.
    Trashed,
}

pub open spec fn picked(w: Pick, n: NoteData) -> bool {
    match w {
        Pick::Live => !n.is_trashed,
        Pick::LiveLeaf => !n.is_trashed && !n.is_folder,
        Pick::Favorite => n.is_favorite && !n.is_trashed,
        Pick::Trashed => n.is_trashed,
    }
}

pub open spec fn picks(w: Pick) -> spec_fn(NoteData) -> bool {
    |n: NoteData| picked(w, n)
}

/// The positions of the picked notes, in table order.
fn positions(db: &Database, w: Pick) -> (r: Vec<usize>)
    ensures
        r@.len() == keep(db.notes@, picks(w)).len(),
        forall|k: int|
            0 <= k < r@.len() ==> (#[trigger] r@[k]) < db.notes@.len() && db.notes@[r@[k] as int] == keep(db.notes@, picks(w))[k],
{
    let mut r: Vec<usize> = Vec::new();
    let mut i: usize = 0;
    while i < db.notes.len()
        invariant
            i <= db.notes@.len(),
            r@.len() == keep(db.notes@.subrange(0, i as int), picks(w)).len(),
            forall|k: int|
                0 <= k < r@.len() ==> (#[trigger] r@[k]) < i && db.notes@[r@[k] as int] == keep(
                    db.notes@.subrange(0, i as int),
                    picks(w),
                )[k],
        decreases db.notes@.len() - i,
    {
        let ghost prev = keep(db.notes@.subrange(0, i as int), picks(w));
        let ghost prev_r = r@;
        proof {
            let s = db.notes@.subrange(0, i + 1);
            assert(s.drop_last() =~= db.notes@.subrange(0, i as int));
        }
        let n = &db.notes[i];
        let take = match w {
            Pick::Live => !n.is_trashed,
            Pick::LiveLeaf => !n.is_trashed && !n.is_folder,
            Pick::Favorite => n.is_favorite && !n.is_trashed,
            Pick::Trashed => n.is_trashed,
        };
        if take {
            r.push(i);
            proof {
                let cur = keep(db.notes@.subrange(0, i + 1), picks(w));
                assert(cur == prev.push(db.notes@[i as int]));
                assert forall|k: int| 0 <= k < r@.len() implies (#[trigger] r@[k]) < i + 1 && db.notes@[r@[k] as int] == cur[k] by {
                    if k < prev.len() {
                        assert(r@[k] == prev_r[k]);
                    }
                }
            }
        }
        i = i + 1;
    }
    assert(db.notes@.subrange(0, db.notes@.len() as int) =~= db.notes@);
    r
}

/// The key of the sidebar order: pinned first, then by sort order, then by
/// creation time.
pub open spec fn tree_key(n: NoteData) -> (i128, i128, i128) {
    (if n.is_pinned { 0 } else { 1 }, n.sort_order as i128, n.created_at as i128)
}

/// The key of the recency order: latest update first.
pub open spec fn recent_key(n: NoteData) -> (i128, i128, i128) {
    ((-(n.updated_at as int)) as i128, 0, 0)
}

/// The key of the trash order: latest trashed first.
pub open spec fn trash_key(n: NoteData) -> (i128, i128, i128) {
    ((-(match n.trashed_at { Some(t) => t as int, None => 0 })) as i128, 0, 0)
}

pub open spec fn tree_item_of(item: NoteTreeItem, n: NoteData) -> bool {
    &&& item.id == n.id && item.title == n.title && item.parent_id == n.parent_id && item.emoji == n.emoji
    &&& item.is_folder == n.is_folder && item.position == n.sort_order && item.is_favorite == n.is_favorite
    &&& item.is_pinned == n.is_pinned
}

/// `r` lists the live notes in sidebar order.
pub open spec fn tree_listed(db: Database, r: Seq<NoteTreeItem>) -> bool {
    let live = keep(db.notes@, picks(Pick::Live));
    exists|order: Seq<usize>|
        {
            &&& is_perm(order, live.len())
            &&& sorted_by(order, live.map_values(|n: NoteData| tree_key(n)))
            &&& r.len() == live.len()
            &&& forall|k: int| 0 <= k < r.len() ==> tree_item_of(#[trigger] r[k], live[order[k] as int])
        }
}

/// The live notes, pinned first, then by sort order and creation time.
pub fn get_notes_tree(db: &Database) -> (r: Vec<NoteTreeItem>)
    ensures
        tree_listed(*db, r@),
{
    let ghost live = keep(db.notes@, picks(Pick::Live));
    let pos = positions(db, Pick::Live);
    let mut keys: Vec<(i128, i128, i128)> = Vec::new();
    let mut i: usize = 0;
    while i < pos.len()
        invariant
            i <= pos@.len(),
            pos@.len() == live.len(),
            forall|k: int| 0 <= k < pos@.len() ==> (#[trigger] pos@[k]) < db.notes@.len() && db.notes@[pos@[k] as int] == live[k],
            keys@.len() == i,
            forall|k: int| 0 <= k < i ==> #[trigger] keys@[k] == tree_key(live[k]),
        decreases pos@.len() - i,
    {
        let n = &db.notes[pos[i]];
        keys.push((if n.is_pinned { 0 } else { 1 }, n.sort_order as i128, n.created_at as i128));
        i = i + 1;
    }
    assert(keys@ =~= live.map_values(|n: NoteData| tree_key(n)));
    let order = sort_indices(&keys);
    let mut r: Vec<NoteTreeItem> = Vec::new();
    let mut k: usize = 0;
    while k < order.len()
        invariant
            k <= order@.len(),
            is_perm(order@, live.len()),
            pos@.len() == live.len(),
            forall|x: int| 0 <= x < pos@.len() ==> (#[trigger] pos@[x]) < db.notes@.len() && db.notes@[pos@[x] as int] == live[x],
            r@.len() == k,
            forall|x: int| 0 <= x < k ==> tree_item_of(#[trigger] r@[x], live[order@[x] as int]),
        decreases order@.len() - k,
    {
        let n = &db.notes[pos[order[k]]];
        r.push(NoteTreeItem {
            id: n.id,
            title: n.title.clone(),
            parent_id: n.parent_id,
            emoji: copy_opt(&n.emoji),
            is_folder: n.is_folder,
            position: n.sort_order,
            is_favorite: n.is_favorite,
            is_pinned: n.is_pinned,
        });
        k = k + 1;
    }
    r
}

pub open spec fn recent_item_of(item: RecentNote, n: NoteData) -> bool {
    item.id == n.id && item.title == n.title && item.emoji == n.emoji && item.updated_at == n.updated_at
}

/// `r` lists the first `limit` live non-folder notes by latest update (all
/// of them when `limit` is negative).
pub open spec fn recent_listed(db: Database, limit: i64, r: Seq<RecentNote>) -> bool {
    let notes = keep(db.notes@, picks(Pick::LiveLeaf));
    exists|order: Seq<usize>|
        {
            &&& is_perm(order, notes.len())
            &&& sorted_by(order, notes.map_values(|n: NoteData| recent_key(n)))
            &&& r.len() == if limit < 0 || limit >= notes.len() { notes.len() as int } else { limit as int }
            &&& forall|k: int| 0 <= k < r.len() ==> recent_item_of(#[trigger] r[k], notes[order[k] as int])
        }
}

/// The positions of the live non-folder notes by latest update.
fn recent_order(db: &Database) -> (r: (Vec<usize>, Vec<usize>))
    ensures
        r.0@.len() == keep(db.notes@, picks(Pick::LiveLeaf)).len(),
        forall|x: int|
            0 <= x < r.0@.len() ==> (#[trigger] r.0@[x]) < db.notes@.len() && db.notes@[r.0@[x] as int] == keep(
                db.notes@,
                picks(Pick::LiveLeaf),
            )[x],
        is_perm(r.1@, keep(db.notes@, picks(Pick::LiveLeaf)).len()),
        sorted_by(r.1@, keep(db.notes@, picks(Pick::LiveLeaf)).map_values(|n: NoteData| recent_key(n))),
{
    let ghost notes = keep(db.notes@, picks(Pick::LiveLeaf));
    let pos = positions(db, Pick::LiveLeaf);
    let mut keys: Vec<(i128, i128, i128)> = Vec::new();
    let mut i: usize = 0;
    while i < pos.len()
        invariant
            i <= pos@.len(),
            pos@.len() == notes.len(),
            forall|k: int| 0 <= k < pos@.len() ==> (#[trigger] pos@[k]) < db.notes@.len() && db.notes@[pos@[k] as int] == notes[k],
            keys@.len() == i,
            forall|k: int| 0 <= k < i ==> #[trigger] keys@[k] == recent_key(notes[k]),
        decreases pos@.len() - i,
    {
        keys.push((-(db.notes[pos[i]].updated_at as i128), 0, 0));
        i = i + 1;
    }
    assert(keys@ =~= notes.map_values(|n: NoteData| recent_key(n)));
    let order = sort_indices(&keys);
    (pos, order)
}

/// The live notes that are not folders, latest update first, at most
/// `limit` of them (ten when no limit is given, all when it is negative).
pub fn get_recent_notes(db: &Database, limit: Option<i64>) -> (r: Vec<RecentNote>)
    ensures
        recent_listed(*db, match limit { Some(l) => l, None => 10 }, r@),
{
    let lim: i64 = match limit {
        Some(l) => l,
        None => 10,
    };
    let ghost notes = keep(db.notes@, picks(Pick::LiveLeaf));
    let (pos, order) = recent_order(db);
    let count: usize = if lim < 0 || lim as u128 >= order.len() as u128 { order.len() } else { lim as usize };
    let mut r: Vec<RecentNote> = Vec::new();
    let mut k: usize = 0;
    while k < count
        invariant
            count <= order@.len(),
            k <= count,
            is_perm(order@, notes.len()),
            pos@.len() == notes.len(),
            forall|x: int| 0 <= x < pos@.len() ==> (#[trigger] pos@[x]) < db.notes@.len() && db.notes@[pos@[x] as int] == notes[x],
            r@.len() == k,
            forall|x: int| 0 <= x < k ==> recent_item_of(#[trigger] r@[x], notes[order@[x] as int]),
        decreases count - k,
    {
        let n = &db.notes[pos[order[k]]];
        r.push(RecentNote { id: n.id, title: n.title.clone(), emoji: copy_opt(&n.emoji), updated_at: n.updated_at });
        k = k + 1;
    }
    r
}

/// The live non-folder note updated last, if any.
pub fn get_most_recent_note(db: &Database) -> (r: Option<NoteData>)
    ensures
        match r {
            None => keep(db.notes@, picks(Pick::LiveLeaf)).len() == 0,
            Some(n) => {
                &&& keep(db.notes@, picks(Pick::LiveLeaf)).contains(n)
                &&& forall|k: int|
                    0 <= k < keep(db.notes@, picks(Pick::LiveLeaf)).len() ==> keep(db.notes@, picks(Pick::LiveLeaf))[k].updated_at
                        <= n.updated_at
            },
        },
{
    let ghost notes = keep(db.notes@, picks(Pick::LiveLeaf));
    let (pos, order) = recent_order(db);
    if order.len() == 0 {
        return None;
    }
    let n = db.notes[pos[order[0]]].duplicate();
    assert(order@.len() == order.len());
    proof {
        let ks = notes.map_values(|n: NoteData| recent_key(n));
        assert forall|k: int| 0 <= k < notes.len() implies notes[k].updated_at <= n.updated_at by {
            // `order` is a permutation, so `k` stands somewhere in it.
            let j = perm_place(order@, notes.len(), k);
            if j > 0 {
                assert(crate::order::key_le(ks[order@[0] as int], ks[order@[j] as int]));
            }
        }
        assert(notes[order@[0] as int] == n);
    }
    Some(n)
}

/// The place of `k` in permutation `order`.
proof fn perm_place(order: Seq<usize>, n: nat, k: int) -> (j: int)
    requires
        is_perm(order, n),
        0 <= k < n,
        n <= usize::MAX,
    ensures
        0 <= j < order.len() && order[j] == k,
{
    lemma_perm_covers(order, n, k);
    choose|j: int| 0 <= j < order.len() && order[j] == k
}

proof fn lemma_perm_covers(order: Seq<usize>, n: nat, k: int)
    requires
        is_perm(order, n),
        0 <= k < n,
        n <= usize::MAX,
    ensures
        exists|j: int| 0 <= j < order.len() && order[j] == k,
{
    let s = order.to_set();
    let r = usize_range(n);
    lemma_usize_range_len(n);
    assert(order.no_duplicates()) by {
        assert forall|a: int, b: int| 0 <= a < order.len() && 0 <= b < order.len() && a != b implies order[a] != order[b] by {
            if a < b {
                assert(order[a] != order[b]);
            } else {
                assert(order[b] != order[a]);
            }
        }
    }
    order.unique_seq_to_set();
    if !(exists|j: int| 0 <= j < order.len() && order[j] == k) {
        let smaller = r.remove(k as usize);
        assert forall|x: usize| s.contains(x) implies smaller.contains(x) by {
            let j = choose|j: int| 0 <= j < order.len() && order[j] == x;
            assert(order[j] < n);
            assert(order[j] != k);
        }
        assert(r.contains(k as usize));
        vstd::set_lib::lemma_len_subset(s, smaller);
    }
}

spec fn usize_range(n: nat) -> Set<usize> {
    Set::new(|x: usize| (x as int) < n)
}

proof fn lemma_usize_range_len(n: nat)
    requires
        n <= usize::MAX + 1,
    ensures
        usize_range(n).finite(),
        usize_range(n).len() == n,
    decreases n,
{
    if n == 0 {
        assert(usize_range(0) =~= Set::empty());
    } else {
        lemma_usize_range_len((n - 1) as nat);
        assert(usize_range(n) =~= usize_range((n - 1) as nat).insert((n - 1) as usize));
    }
}

pub open spec fn favorite_of(item: FavoriteNote, n: NoteData) -> bool {
    item.id == n.id && item.title == n.title && item.emoji == n.emoji
}

/// The favourite notes not in the trash, in table order.
pub fn get_favorite_notes(db: &Database) -> (r: Vec<FavoriteNote>)
    ensures
        r@.len() == keep(db.notes@, picks(Pick::Favorite)).len(),
        forall|k: int| 0 <= k < r@.len() ==> favorite_of(#[trigger] r@[k], keep(db.notes@, picks(Pick::Favorite))[k]),
{
    let ghost notes = keep(db.notes@, picks(Pick::Favorite));
    let pos = positions(db, Pick::Favorite);
    let mut r: Vec<FavoriteNote> = Vec::new();
    let mut k: usize = 0;
    while k < pos.len()
        invariant
            k <= pos@.len(),
            pos@.len() == notes.len(),
            forall|x: int| 0 <= x < pos@.len() ==> (#[trigger] pos@[x]) < db.notes@.len() && db.notes@[pos@[x] as int] == notes[x],
            r@.len() == k,
            forall|x: int| 0 <= x < k ==> favorite_of(#[trigger] r@[x], notes[x]),
        decreases pos@.len() - k,
    {
        let n = &db.notes[pos[k]];
        r.push(FavoriteNote { id: n.id, title: n.title.clone(), emoji: copy_opt(&n.emoji) });
        k = k + 1;
    }
    r
}

pub open spec fn trashed_of(item: TrashedNote, n: NoteData) -> bool {
    item.id == n.id && item.title == n.title && item.emoji == n.emoji && item.trashed_at == n.trashed_at
}

/// `r` lists the notes in the trash, latest trashed first.
pub open spec fn trash_listed(db: Database, r: Seq<TrashedNote>) -> bool {
    let notes = keep(db.notes@, picks(Pick::Trashed));
    exists|order: Seq<usize>|
        {
            &&& is_perm(order, notes.len())
            &&& sorted_by(order, notes.map_values(|n: NoteData| trash_key(n)))
            &&& r.len() == notes.len()
            &&& forall|k: int| 0 <= k < r.len() ==> trashed_of(#[trigger] r[k], notes[order[k] as int])
        }
}

/// The notes in the trash, latest trashed first.
pub fn get_trashed_notes(db: &Database) -> (r: Vec<TrashedNote>)
    ensures
        trash_listed(*db, r@),
{
    let ghost notes = keep(db.notes@, picks(Pick::Trashed));
    let pos = positions(db, Pick::Trashed);
    let mut keys: Vec<(i128, i128, i128)> = Vec::new();
    let mut i: usize = 0;
    while i < pos.len()
        invariant
            i <= pos@.len(),
            pos@.len() == notes.len(),
            forall|k: int| 0 <= k < pos@.len() ==> (#[trigger] pos@[k]) < db.notes@.len() && db.notes@[pos@[k] as int] == notes[k],
            keys@.len() == i,
            forall|k: int| 0 <= k < i ==> #[trigger] keys@[k] == trash_key(notes[k]),
        decreases pos@.len() - i,
    {
        let t: i128 = match db.notes[pos[i]].trashed_at {
            Some(t) => t as i128,
            None => 0,
        };
        keys.push((-t, 0, 0));
        i = i + 1;
    }
    assert(keys@ =~= notes.map_values(|n: NoteData| trash_key(n)));
    let order = sort_indices(&keys);
    let mut r: Vec<TrashedNote> = Vec::new();
    let mut k: usize = 0;
    while k < order.len()
        invariant
            k <= order@.len(),
            is_perm(order@, notes.len()),
            pos@.len() == notes.len(),
            forall|x: int| 0 <= x < pos@.len() ==> (#[trigger] pos@[x]) < db.notes@.len() && db.notes@[pos@[x] as int] == notes[x],
            r@.len() == k,
            forall|x: int| 0 <= x < k ==> trashed_of(#[trigger] r@[x], notes[order@[x] as int]),
        decreases order@.len() - k,
    {
        let n = &db.notes[pos[order[k]]];
        r.push(TrashedNote { id: n.id, title: n.title.clone(), emoji: copy_opt(&n.emoji), trashed_at: n.trashed_at });
        k = k + 1;
    }
    r
}

/// Live non-folder note `n` was created or updated between `start` and
/// `end`, both included.
pub open spec fn in_range(n: NoteData, start: i64, end: i64) -> bool {
    !n.is_trashed && !n.is_folder && ((start <= n.created_at <= end) || (start <= n.updated_at <= end))
}

pub open spec fn range_pick(start: i64, end: i64) -> spec_fn(NoteData) -> bool {
    |n: NoteData| in_range(n, start, end)
}

pub open spec fn dated_of(item: NotesByDateItem, n: NoteData) -> bool {
    &&& item.id == n.id && item.title == n.title && item.emoji == n.emoji
    &&& item.created_at == n.created_at && item.updated_at == n.updated_at
}

/// `r` lists the live non-folder notes created or updated in the range,
/// latest update first.
pub open spec fn range_listed(db: Database, start: i64, end: i64, r: Seq<NotesByDateItem>) -> bool {
    let notes = keep(db.notes@, range_pick(start, end));
    exists|order: Seq<usize>|
        {
            &&& is_perm(order, notes.len())
            &&& sorted_by(order, notes.map_values(|n: NoteData| recent_key(n)))
            &&& r.len() == notes.len()
            &&& forall|k: int| 0 <= k < r.len() ==> dated_of(#[trigger] r[k], notes[order[k] as int])
        }
}

/// The live notes that are not folders, created or updated between
/// `start_ts` and `end_ts`, latest update first.
pub fn get_notes_by_date_range(db: &Database, start_ts: i64, end_ts: i64) -> (r: Vec<NotesByDateItem>)
    ensures
        range_listed(*db, start_ts, end_ts, r@),
{
    let ghost p = range_pick(start_ts, end_ts);
    let ghost notes = keep(db.notes@, p);
    let mut pos: Vec<usize> = Vec::new();
    let mut keys: Vec<(i128, i128, i128)> = Vec::new();
    let mut i: usize = 0;
    while i < db.notes.len()
        invariant
            p == range_pick(start_ts, end_ts),
            i <= db.notes@.len(),
            pos@.len() == keep(db.notes@.subrange(0, i as int), p).len(),
            keys@.len() == pos@.len(),
            forall|k: int|
                0 <= k < pos@.len() ==> (#[trigger] pos@[k]) < db.notes@.len() && db.notes@[pos@[k] as int] == keep(
                    db.notes@.subrange(0, i as int),
                    p,
                )[k] && keys@[k] == recent_key(db.notes@[pos@[k] as int]),
        decreases db.notes@.len() - i,
    {
        let ghost prev = keep(db.notes@.subrange(0, i as int), p);
        let ghost prev_p = pos@;
        let ghost prev_k = keys@;
        proof {
            let s = db.notes@.subrange(0, i + 1);
            assert(s.drop_last() =~= db.notes@.subrange(0, i as int));
        }
        let n = &db.notes[i];
        if !n.is_trashed && !n.is_folder && ((start_ts <= n.created_at && n.created_at <= end_ts) || (start_ts
            <= n.updated_at && n.updated_at <= end_ts)) {
            pos.push(i);
            keys.push((-(n.updated_at as i128), 0, 0));
            proof {
                let cur = keep(db.notes@.subrange(0, i + 1), p);
                assert(cur == prev.push(db.notes@[i as int]));
                assert forall|k: int| 0 <= k < pos@.len() implies (#[trigger] pos@[k]) < db.notes@.len()
                    && db.notes@[pos@[k] as int] == cur[k] && keys@[k] == recent_key(db.notes@[pos@[k] as int]) by {
                    if k < prev.len() {
                        assert(pos@[k] == prev_p[k] && keys@[k] == prev_k[k]);
                    }
                }
            }
        }
        i = i + 1;
    }
    assert(db.notes@.subrange(0, db.notes@.len() as int) =~= db.notes@);
    assert forall|k: int| 0 <= k < keys@.len() implies keys@[k] == notes.map_values(|n: NoteData| recent_key(n))[k] by {
        assert(db.notes@[pos@[k] as int] == notes[k]);
    }
    assert(keys@ =~= notes.map_values(|n: NoteData| recent_key(n)));
    let order = sort_indices(&keys);
    let mut r: Vec<NotesByDateItem> = Vec::new();
    let mut k: usize = 0;
    while k < order.len()
        invariant
            k <= order@.len(),
            is_perm(order@, notes.len()),
            pos@.len() == notes.len(),
            forall|x: int| 0 <= x < pos@.len() ==> (#[trigger] pos@[x]) < db.notes@.len() && db.notes@[pos@[x] as int] == notes[x],
            r@.len() == k,
            forall|x: int| 0 <= x < k ==> dated_of(#[trigger] r@[x], notes[order@[x] as int]),
        decreases order@.len() - k,
    {
        let n = &db.notes[pos[order[k]]];
        r.push(NotesByDateItem {
            id: n.id,
            title: n.title.clone(),
            emoji: copy_opt(&n.emoji),
            created_at: n.created_at,
            updated_at: n.updated_at,
        });
        k = k + 1;
    }
    r
}

/// Characters of the plain text shown on a board card.
pub const PREVIEW_CHARS: usize = 100;

/// Note `id` carries at least one tag.
pub open spec fn has_tags(rows: Seq<NoteTag>, id: u128) -> bool {
    exists|k: int| 0 <= k < rows.len() && #[trigger] rows[k].note_id == id
}

pub open spec fn board_pick(rows: Seq<NoteTag>) -> spec_fn(NoteData) -> bool {
    |n: NoteData| !n.is_trashed && !n.is_folder && has_tags(rows, n.id)
}

/// The start of a plain text shown on a board card.
pub open spec fn preview_spec(plain: Seq<char>) -> Seq<char> {
    if plain.len() <= PREVIEW_CHARS { plain } else { plain.subrange(0, PREVIEW_CHARS as int) }
}

/// `card` shows note `n` with the names of its tags, one per membership.
pub open spec fn card_of(db: Database, card: KanbanCard, n: NoteData) -> bool {
    let rows = keep(db.note_tags@, of_note(n.id));
    &&& card.id == n.id && card.title == n.title && card.emoji == n.emoji && card.updated_at == n.updated_at
    &&& card.preview@ == preview_spec(n.plain_text@)
    &&& card.tags@.len() == rows.len()
    &&& forall|k: int| 0 <= k < rows.len() ==> tag_named(db.tags@, rows[k].tag_id, #[trigger] card.tags@[k])
}

/// Tag `id` of `tags` is named `name`.
pub open spec fn tag_named(tags: Seq<Tag>, id: u128, name: String) -> bool {
    exists|i: int| 0 <= i < tags.len() && #[trigger] tags[i].id == id && tags[i].name == name
}

/// `r` holds a card for each live non-folder note with a tag, latest update
/// first.
pub open spec fn board_listed(db: Database, r: Seq<KanbanCard>) -> bool {
    let notes = keep(db.notes@, board_pick(db.note_tags@));
    exists|order: Seq<usize>|
        {
            &&& is_perm(order, notes.len())
            &&& sorted_by(order, notes.map_values(|n: NoteData| recent_key(n)))
            &&& r.len() == notes.len()
            &&& forall|k: int| 0 <= k < r.len() ==> card_of(db, #[trigger] r[k], notes[order[k] as int])
        }
}

fn note_has_tags(db: &Database, id: u128) -> (r: bool)
    ensures
        r == has_tags(db.note_tags@, id),
{
    let mut i: usize = 0;
    while i < db.note_tags.len()
        invariant
            i <= db.note_tags@.len(),
            forall|k: int| 0 <= k < i ==> db.note_tags@[k].note_id != id,
        decreases db.note_tags@.len() - i,
    {
        if db.note_tags[i].note_id == id {
            return true;
        }
        i = i + 1;
    }
    false
}

fn card_for(db: &Database, n: &NoteData) -> (r: KanbanCard)
    requires
        db.wf(),
    ensures
        card_of(*db, r, *n),
{
    let infos = get_note_tags(db, n.id);
    let ghost rows = keep(db.note_tags@, of_note(n.id));
    let mut names: Vec<String> = Vec::new();
    let mut k: usize = 0;
    while k < infos.len()
        invariant
            listed(*db, n.id, infos@),
            rows == keep(db.note_tags@, of_note(n.id)),
            k <= infos@.len(),
            names@.len() == k,
            forall|x: int| 0 <= x < k ==> #[trigger] names@[x] == infos@[x].tag_name,
        decreases infos@.len() - k,
    {
        names.push(infos[k].tag_name.clone());
        k = k + 1;
    }
    let len = n.plain_text.unicode_len();
    let preview = if len <= PREVIEW_CHARS {
        n.plain_text.clone()
    } else {
        String::from_str(n.plain_text.as_str().substring_char(0, PREVIEW_CHARS))
    };
    let card = KanbanCard {
        id: n.id,
        title: n.title.clone(),
        emoji: copy_opt(&n.emoji),
        preview,
        updated_at: n.updated_at,
        tags: names,
    };
    proof {
        assert forall|x: int| 0 <= x < rows.len() implies tag_named(db.tags@, rows[x].tag_id, #[trigger] card.tags@[x]) by {
            assert(info_matches(infos@[x], rows[x], db.tags@));
        }
    }
    card
}

/// A card for each live non-folder note with a tag, latest update first.
pub fn get_kanban_data(db: &Database) -> (r: Vec<KanbanCard>)
    requires
        db.wf(),
    ensures
        board_listed(*db, r@),
{
    let ghost p = board_pick(db.note_tags@);
    let ghost notes = keep(db.notes@, p);
    let mut pos: Vec<usize> = Vec::new();
    let mut keys: Vec<(i128, i128, i128)> = Vec::new();
    let mut i: usize = 0;
    while i < db.notes.len()
        invariant
            p == board_pick(db.note_tags@),
            i <= db.notes@.len(),
            pos@.len() == keep(db.notes@.subrange(0, i as int), p).len(),
            keys@.len() == pos@.len(),
            forall|k: int|
                0 <= k < pos@.len() ==> (#[trigger] pos@[k]) < db.notes@.len() && db.notes@[pos@[k] as int] == keep(
                    db.notes@.subrange(0, i as int),
                    p,
                )[k] && keys@[k] == recent_key(db.notes@[pos@[k] as int]),
        decreases db.notes@.len() - i,
    {
        let ghost prev = keep(db.notes@.subrange(0, i as int), p);
        let ghost prev_p = pos@;
        let ghost prev_k = keys@;
        proof {
            let s = db.notes@.subrange(0, i + 1);
            assert(s.drop_last() =~= db.notes@.subrange(0, i as int));
        }
        let n = &db.notes[i];
        if !n.is_trashed && !n.is_folder && note_has_tags(db, n.id) {
            pos.push(i);
            keys.push((-(n.updated_at as i128), 0, 0));
            proof {
                let cur = keep(db.notes@.subrange(0, i + 1), p);
                assert(cur == prev.push(db.notes@[i as int]));
                assert forall|k: int| 0 <= k < pos@.len() implies (#[trigger] pos@[k]) < db.notes@.len()
                    && db.notes@[pos@[k] as int] == cur[k] && keys@[k] == recent_key(db.notes@[pos@[k] as int]) by {
                    if k < prev.len() {
                        assert(pos@[k] == prev_p[k] && keys@[k] == prev_k[k]);
                    }
                }
            }
        }
        i = i + 1;
    }
    assert(db.notes@.subrange(0, db.notes@.len() as int) =~= db.notes@);
    assert forall|k: int| 0 <= k < keys@.len() implies keys@[k] == notes.map_values(|n: NoteData| recent_key(n))[k] by {
        assert(db.notes@[pos@[k] as int] == notes[k]);
    }
    assert(keys@ =~= notes.map_values(|n: NoteData| recent_key(n)));
    let order = sort_indices(&keys);
    let mut r: Vec<KanbanCard> = Vec::new();
    let mut k: usize = 0;
    while k < order.len()
        invariant
            db.wf(),
            k <= order@.len(),
            is_perm(order@, notes.len()),
            pos@.len() == notes.len(),
            forall|x: int| 0 <= x < pos@.len() ==> (#[trigger] pos@[x]) < db.notes@.len() && db.notes@[pos@[x] as int] == notes[x],
            r@.len() == k,
            forall|x: int| 0 <= x < k ==> card_of(*db, #[trigger] r@[x], notes[order@[x] as int]),
        decreases order@.len() - k,
    {
        r.push(card_for(db, &db.notes[pos[order[k]]]));
        k = k + 1;
    }
    r
}

/// Every note listed in the trash of a well-formed store has a trash time.
pub proof fn lemma_trash_times(db: Database, r: Seq<TrashedNote>)
    requires
        db.wf(),
        trash_listed(db, r),
    ensures
        forall|k: int| 0 <= k < r.len() ==> (#[trigger] r[k]).trashed_at is Some,
{
    let notes = keep(db.notes@, picks(Pick::Trashed));
    crate::store::lemma_keep_from(db.notes@, picks(Pick::Trashed));
    let order = choose|order: Seq<usize>|
        {
            &&& is_perm(order, notes.len())
            &&& sorted_by(order, notes.map_values(|n: NoteData| trash_key(n)))
            &&& r.len() == notes.len()
            &&& forall|k: int| 0 <= k < r.len() ==> trashed_of(#[trigger] r[k], notes[order[k] as int])
        };
    assert forall|k: int| 0 <= k < r.len() implies (#[trigger] r[k]).trashed_at is Some by {
        let n = notes[order[k] as int];
        assert(trashed_of(r[k], n));
        assert(picks(Pick::Trashed)(n));
        let j = choose|j: int| 0 <= j < db.notes@.len() && db.notes@[j] == n;
        assert(crate::store::note_ok(db.notes@[j]));
    }
}

} // verus!
