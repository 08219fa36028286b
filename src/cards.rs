//! Flashcards of notes and their review scheduling.
use vstd::prelude::*;
use crate::ids::new_uuid;
use crate::model::{FlashcardData, FlashcardStats, NoteData, StoreError};
use crate::notes::card_avoids;
use crate::order::{is_perm, sort_indices, sorted_by};
use crate::review::{next_review_spec, next_review_at, review_spec, new_schedule_spec, DAY_SECONDS, Schedule};
use crate::store::{Database, flashcards_wf, has_note_in, keep, lemma_keep_distinct, lemma_keep_from};

verus! {

/// The most due cards listed at once.
pub const DUE_LIMIT: usize = 50;

/// The span of the activity count, in days.
pub const ACTIVE_DAYS: i64 = 30;

/// `c` is a new card of note `note` asking `q` with answer `a`, due `now`.
pub open spec fn fresh_card(c: FlashcardData, note: u128, q: Seq<char>, a: Seq<char>, now: i64) -> bool {
    &&& c.note_id == note && c.question@ == q && c.answer@ == a
    &&& c.next_review == now && c.updated_at == now
    &&& c.schedule == new_schedule_spec()
}

fn card_id_taken(cards: &Vec<FlashcardData>, id: u128) -> (r: bool)
    ensures
        r == exists|k: int| 0 <= k < cards@.len() && #[trigger] cards@[k].id == id,
{
    let mut i: usize = 0;
    while i < cards.len()
        invariant
            i <= cards@.len(),
            forall|k: int| 0 <= k < i ==> cards@[k].id != id,
        decreases cards@.len() - i,
    {
        if cards[i].id == id {
            return true;
        }
        i = i + 1;
    }
    false
}

/// Card `c` was made from id, question and answer `t` for note `note` at
/// `now`.
pub open spec fn card_from(c: FlashcardData, t: (u128, String, String), note: u128, now: i64) -> bool {
    c.id == t.0 && fresh_card(c, note, t.1@, t.2@, now)
}

/// The new card ids are not used by the cards that stay and are distinct.
pub open spec fn ids_fresh(kept: Seq<FlashcardData>, cards: Seq<(u128, String, String)>) -> bool {
    &&& forall|j: int, k: int| 0 <= j < kept.len() && 0 <= k < cards.len() ==> kept[j].id != cards[k].0
    &&& forall|a: int, b: int| 0 <= a < b < cards.len() ==> cards[a].0 != cards[b].0
}

/// Replaces the flashcards of note `note_id` by the cards `cards`, each
/// given as id, question and answer, all due at `now`. Fails with
/// `NotFound` when there is no such note and with `Conflict` when an id is
/// used by a card that stays or repeated; on failure nothing changes.
pub fn replace_flashcards(db: &mut Database, note_id: u128, cards: Vec<(u128, String, String)>, now: i64) -> (r: Result<
    (),
    StoreError,
>)
    requires
        old(db).wf(),
    ensures
        final(db).wf(),
        final(db).notes@ == old(db).notes@,
        final(db).tags@ == old(db).tags@,
        final(db).note_tags@ == old(db).note_tags@,
        final(db).wikilinks@ == old(db).wikilinks@,
        r is Err ==> *final(db) == *old(db),
        !old(db).has_note(note_id) ==> r == Err::<(), StoreError>(StoreError::NotFound),
        old(db).has_note(note_id) ==> {
            let kept = keep(old(db).flashcards@, card_avoids(note_id));
            &&& r is Ok <==> ids_fresh(kept, cards@)
            &&& r is Err ==> r == Err::<(), StoreError>(StoreError::Conflict)
            &&& r is Ok ==> {
                &&& final(db).flashcards@.len() == kept.len() + cards@.len()
                &&& final(db).flashcards@.subrange(0, kept.len() as int) == kept
                &&& forall|k: int|
                    0 <= k < cards@.len() ==> card_from(final(db).flashcards@[kept.len() + k], #[trigger] cards@[k], note_id, now)
            }
        },
{
    let ni = match db.find_note(note_id) {
        None => return Err(StoreError::NotFound),
        Some(i) => i,
    };
    let ghost o = *db;
    let mut kept: Vec<FlashcardData> = Vec::new();
    let mut i: usize = 0;
    while i < db.flashcards.len()
        invariant
            *db == o,
            i <= o.flashcards@.len(),
            kept@ == keep(o.flashcards@.subrange(0, i as int), card_avoids(note_id)),
        decreases o.flashcards@.len() - i,
    {
        proof {
            let s = o.flashcards@.subrange(0, i + 1);
            assert(s.drop_last() =~= o.flashcards@.subrange(0, i as int));
        }
        if db.flashcards[i].note_id != note_id {
            kept.push(db.flashcards[i].duplicate());
        }
        i = i + 1;
    }
    assert(o.flashcards@.subrange(0, o.flashcards@.len() as int) =~= o.flashcards@);
    let ghost base = kept@;
    assert(base == keep(o.flashcards@, card_avoids(note_id)));
    assert(o == *old(db));
    proof {
        lemma_keep_from(o.flashcards@, card_avoids(note_id));
        lemma_keep_distinct(o.flashcards@, card_avoids(note_id), |c: FlashcardData| c.id);
        assert(has_note_in(o.notes@, note_id)) by { assert(o.notes@[ni as int].id == note_id); }
        assert forall|q: int| 0 <= q < base.len() implies has_note_in(o.notes@, #[trigger] base[q].note_id) by {
            let j = choose|j: int| 0 <= j < o.flashcards@.len() && o.flashcards@[j] == base[q];
            assert(o.flashcards@[j] == base[q]);
        }
    }
    let mut k: usize = 0;
    while k < cards.len()
        invariant
            *db == o,
            o == *old(db),
            base == keep(o.flashcards@, card_avoids(note_id)),
            o.wf(),
            has_note_in(o.notes@, note_id),
            k <= cards@.len(),
            kept@.len() == base.len() + k,
            kept@.subrange(0, base.len() as int) == base,
            forall|x: int|
                0 <= x < k ==> #[trigger] kept@[base.len() + x].id == cards@[x].0 && fresh_card(
                    kept@[base.len() + x],
                    note_id,
                    cards@[x].1@,
                    cards@[x].2@,
                    now,
                ),
            forall|j: int, x: int| 0 <= j < base.len() && 0 <= x < k ==> base[j].id != cards@[x].0,
            forall|a: int, b: int| 0 <= a < b < k ==> cards@[a].0 != cards@[b].0,
            forall|a: int, b: int| 0 <= a < b < kept@.len() ==> kept@[a].id != kept@[b].id,
            forall|q: int| 0 <= q < kept@.len() ==> has_note_in(o.notes@, #[trigger] kept@[q].note_id),
        decreases cards@.len() - k,
    {
        let id = cards[k].0;
        if card_id_taken(&kept, id) {
            proof {
                let q = choose|q: int| 0 <= q < kept@.len() && #[trigger] kept@[q].id == id;
                assert(base == keep(old(db).flashcards@, card_avoids(note_id)));
                if q < base.len() {
                    assert(kept@.subrange(0, base.len() as int)[q] == kept@[q]);
                    assert(base[q].id == cards@[k as int].0);
                    assert(!ids_fresh(base, cards@));
                } else {
                    let x = q - base.len();
                    assert(kept@[base.len() + x].id == cards@[x].0);
                    assert(cards@[x].0 == cards@[k as int].0 && x < k);
                    assert(!ids_fresh(base, cards@));
                }
            }
            return Err(StoreError::Conflict);
        }
        let ghost before = kept@;
        let c = FlashcardData {
            id,
            note_id,
            question: cards[k].1.clone(),
            answer: cards[k].2.clone(),
            next_review: now,
            schedule: Schedule::new(),
            updated_at: now,
        };
        kept.push(c);
        proof {
            assert(kept@.subrange(0, base.len() as int) =~= before.subrange(0, base.len() as int));
            assert forall|x: int| 0 <= x < k + 1 implies #[trigger] kept@[base.len() + x].id == cards@[x].0 && fresh_card(
                kept@[base.len() + x],
                note_id,
                cards@[x].1@,
                cards@[x].2@,
                now,
            ) by {
                if x < k {
                    assert(kept@[base.len() + x] == before[base.len() + x]);
                }
            }
            assert forall|j: int, x: int| 0 <= j < base.len() && 0 <= x < k + 1 implies base[j].id != cards@[x].0 by {
                if x == k {
                    assert(before[j] == base[j]);
                }
            }
            assert forall|a: int, b: int| 0 <= a < b < k + 1 implies cards@[a].0 != cards@[b].0 by {
                if b == k {
                    assert(before[base.len() + a].id == cards@[a].0);
                }
            }
            assert forall|a: int, b: int| 0 <= a < b < kept@.len() implies kept@[a].id != kept@[b].id by {
                if b == before.len() {
                    assert(kept@[a] == before[a]);
                }
            }
            assert forall|q: int| 0 <= q < kept@.len() implies has_note_in(o.notes@, #[trigger] kept@[q].note_id) by {
                if q < before.len() {
                    assert(kept@[q] == before[q]);
                }
            }
        }
        k = k + 1;
    }
    db.flashcards = kept;
    proof {
        assert(flashcards_wf(db.flashcards@, db.notes@));
        assert(base == keep(old(db).flashcards@, card_avoids(note_id)));
        assert(ids_fresh(base, cards@));
        assert(db.flashcards@.len() == base.len() + cards@.len());
        assert(db.flashcards@.subrange(0, base.len() as int) == base);
        assert forall|k: int| 0 <= k < cards@.len() implies card_from(db.flashcards@[base.len() + k], #[trigger] cards@[k], note_id, now) by {
            assert(db.flashcards@[base.len() + k].id == cards@[k].0);
        }
    }
    Ok(())
}

/// Replaces the flashcards of note `note_id` by new cards, with fresh ids,
/// for the question and answer pairs `cards`, all due at `now`. On
/// `Conflict` (a fresh id was taken) nothing changes.
pub fn sync_flashcards(db: &mut Database, note_id: u128, cards: Vec<(String, String)>, now: i64) -> (r: Result<(), StoreError>)
    requires
        old(db).wf(),
    ensures
        final(db).wf(),
        final(db).notes@ == old(db).notes@,
        final(db).tags@ == old(db).tags@,
        final(db).note_tags@ == old(db).note_tags@,
        final(db).wikilinks@ == old(db).wikilinks@,
        !old(db).has_note(note_id) ==> r == Err::<(), StoreError>(StoreError::NotFound),
        r is Err ==> *final(db) == *old(db),
        old(db).has_note(note_id) && cards@.len() == 0 ==> r is Ok,
        r is Ok ==> {
            let kept = keep(old(db).flashcards@, card_avoids(note_id));
            &&& old(db).has_note(note_id)
            &&& final(db).flashcards@.len() == kept.len() + cards@.len()
            &&& final(db).flashcards@.subrange(0, kept.len() as int) == kept
            &&& forall|k: int|
                0 <= k < cards@.len() ==> fresh_card(
                    #[trigger] final(db).flashcards@[kept.len() + k],
                    note_id,
                    cards@[k].0@,
                    cards@[k].1@,
                    now,
                )
        },
{
    let mut with_ids: Vec<(u128, String, String)> = Vec::new();
    let mut k: usize = 0;
    while k < cards.len()
        invariant
            k <= cards@.len(),
            with_ids@.len() == k,
            forall|x: int| 0 <= x < k ==> (#[trigger] with_ids@[x]).1@ == cards@[x].0@ && with_ids@[x].2@ == cards@[x].1@,
        decreases cards@.len() - k,
    {
        let id = new_uuid();
        with_ids.push((id, cards[k].0.clone(), cards[k].1.clone()));
        k = k + 1;
    }
    let ghost w = with_ids@;
    let r = replace_flashcards(db, note_id, with_ids, now);
    proof {
        if cards@.len() == 0 {
            assert(ids_fresh(keep(old(db).flashcards@, card_avoids(note_id)), w));
        }
        if r is Ok {
            let kept = keep(old(db).flashcards@, card_avoids(note_id));
            assert forall|k: int| 0 <= k < cards@.len() implies fresh_card(
                #[trigger] db.flashcards@[kept.len() + k],
                note_id,
                cards@[k].0@,
                cards@[k].1@,
                now,
            ) by {
                assert(card_from(db.flashcards@[kept.len() + k], w[k], note_id, now));
            }
        }
    }
    r
}

/// The card after a review rated `rating` at `now`.
pub open spec fn reviewed(c: FlashcardData, rating: int, now: i64) -> FlashcardData {
    let s = review_spec(c.schedule, rating);
    FlashcardData { schedule: s, next_review: next_review_spec(now, s.interval) as i64, updated_at: now, ..c }
}

/// Applies the review transition to card `card_id` rated `rating` at
/// `now`: the new schedule, the next review after the new interval.
pub fn review_flashcard(db: &mut Database, card_id: u128, rating: u8, now: i64) -> (r: Result<(), StoreError>)
    requires
        old(db).wf(),
        rating <= 5,
    ensures
        final(db).wf(),
        final(db).notes@ == old(db).notes@,
        final(db).tags@ == old(db).tags@,
        final(db).note_tags@ == old(db).note_tags@,
        final(db).wikilinks@ == old(db).wikilinks@,
        r is Ok <==> exists|k: int| 0 <= k < old(db).flashcards@.len() && #[trigger] old(db).flashcards@[k].id == card_id,
        r is Err ==> r == Err::<(), StoreError>(StoreError::NotFound) && *final(db) == *old(db),
        forall|k: int|
            0 <= k < old(db).flashcards@.len() && #[trigger] old(db).flashcards@[k].id == card_id ==> final(db).flashcards@
                == old(db).flashcards@.update(k, reviewed(old(db).flashcards@[k], rating as int, now)),
{
    let mut i: usize = 0;
    while i < db.flashcards.len()
        invariant
            *db == *old(db),
            db.wf(),
            rating <= 5,
            i <= db.flashcards@.len(),
            forall|k: int| 0 <= k < i ==> db.flashcards@[k].id != card_id,
        decreases db.flashcards@.len() - i,
    {
        if db.flashcards[i].id == card_id {
            let mut c = db.flashcards[i].duplicate();
            let s = c.schedule.review(rating);
            c.schedule = s;
            c.next_review = next_review_at(now, s.interval);
            c.updated_at = now;
            let ghost before = db.flashcards@;
            db.flashcards.set(i, c);
            proof {
                assert forall|k: int|
                    0 <= k < before.len() && #[trigger] before[k].id == card_id implies k == i by {
                    if k < i {
                    } else if k > i {
                        assert(before[i as int].id != before[k].id);
                    }
                }
                assert forall|q: int| 0 <= q < db.flashcards@.len() implies has_note_in(db.notes@, #[trigger] db.flashcards@[q].note_id) by {
                    assert(has_note_in(db.notes@, before[q].note_id));
                }
                assert forall|a: int, b: int| 0 <= a < b < db.flashcards@.len() implies db.flashcards@[a].id != db.flashcards@[b].id by {
                    assert(before[a].id != before[b].id);
                }
            }
            return Ok(());
        }
        i = i + 1;
    }
    Err(StoreError::NotFound)
}

/// The card of a live note is due at `now`.
pub open spec fn is_due(notes: Seq<NoteData>, c: FlashcardData, now: i64) -> bool {
    c.next_review <= now && crate::links::is_live(notes, c.note_id)
}

pub open spec fn due_at(notes: Seq<NoteData>, now: i64) -> spec_fn(FlashcardData) -> bool {
    |c: FlashcardData| is_due(notes, c, now)
}

pub open spec fn of_live_note(notes: Seq<NoteData>) -> spec_fn(FlashcardData) -> bool {
    |c: FlashcardData| crate::links::is_live(notes, c.note_id)
}

pub open spec fn updated_since(t: int) -> spec_fn(FlashcardData) -> bool {
    |c: FlashcardData| c.updated_at >= t
}

pub open spec fn due_key(c: FlashcardData) -> (i128, i128, i128) {
    (c.next_review as i128, 0, 0)
}

/// `r` lists the due cards of live notes, earliest due first, at most
/// `DUE_LIMIT` of them.
pub open spec fn due_listed(db: Database, now: i64, r: Seq<FlashcardData>) -> bool {
    let due = keep(db.flashcards@, due_at(db.notes@, now));
    exists|order: Seq<usize>|
        {
            &&& is_perm(order, due.len())
            &&& sorted_by(order, due.map_values(|c: FlashcardData| due_key(c)))
            &&& r.len() == if due.len() < DUE_LIMIT { due.len() as int } else { DUE_LIMIT as int }
            &&& forall|k: int| 0 <= k < r.len() ==> #[trigger] r[k] == due[order[k] as int]
        }
}

fn note_is_live(db: &Database, id: u128) -> (r: bool)
    requires
        db.wf(),
    ensures
        r == crate::links::is_live(db.notes@, id),
{
    match db.find_note(id) {
        None => false,
        Some(i) => {
            proof {
                if crate::links::is_live(db.notes@, id) {
                    let x = choose|x: int| 0 <= x < db.notes@.len() && #[trigger] db.notes@[x].id == id && !db.notes@[x].is_trashed;
                    assert(x == i);
                }
            }
            !db.notes[i].is_trashed
        },
    }
}

/// The cards of live notes due at `now`, earliest first, at most
/// `DUE_LIMIT` of them.
pub fn get_due_flashcards(db: &Database, now: i64) -> (r: Vec<FlashcardData>)
    requires
        db.wf(),
    ensures
        due_listed(*db, now, r@),
{
    let ghost due = keep(db.flashcards@, due_at(db.notes@, now));
    let mut pos: Vec<usize> = Vec::new();
    let mut keys: Vec<(i128, i128, i128)> = Vec::new();
    let mut i: usize = 0;
    while i < db.flashcards.len()
        invariant
            db.wf(),
            i <= db.flashcards@.len(),
            pos@.len() == keep(db.flashcards@.subrange(0, i as int), due_at(db.notes@, now)).len(),
            keys@.len() == pos@.len(),
            forall|k: int|
                0 <= k < pos@.len() ==> (#[trigger] pos@[k]) < db.flashcards@.len() && db.flashcards@[pos@[k] as int] == keep(
                    db.flashcards@.subrange(0, i as int),
                    due_at(db.notes@, now),
                )[k] && keys@[k] == due_key(db.flashcards@[pos@[k] as int]),
        decreases db.flashcards@.len() - i,
    {
        let ghost prev = keep(db.flashcards@.subrange(0, i as int), due_at(db.notes@, now));
        let ghost prev_p = pos@;
        let ghost prev_k = keys@;
        proof {
            let s = db.flashcards@.subrange(0, i + 1);
            assert(s.drop_last() =~= db.flashcards@.subrange(0, i as int));
        }
        let c = &db.flashcards[i];
        if c.next_review <= now && note_is_live(db, c.note_id) {
            pos.push(i);
            keys.push((c.next_review as i128, 0, 0));
            proof {
                let cur = keep(db.flashcards@.subrange(0, i + 1), due_at(db.notes@, now));
                assert(cur == prev.push(db.flashcards@[i as int]));
                assert forall|k: int| 0 <= k < pos@.len() implies (#[trigger] pos@[k]) < db.flashcards@.len()
                    && db.flashcards@[pos@[k] as int] == cur[k] && keys@[k] == due_key(db.flashcards@[pos@[k] as int]) by {
                    if k < prev.len() {
                        assert(pos@[k] == prev_p[k] && keys@[k] == prev_k[k]);
                    }
                }
            }
        }
        i = i + 1;
    }
    assert(db.flashcards@.subrange(0, db.flashcards@.len() as int) =~= db.flashcards@);
    assert forall|k: int| 0 <= k < keys@.len() implies keys@[k] == due.map_values(|c: FlashcardData| due_key(c))[k] by {
        assert(db.flashcards@[pos@[k] as int] == due[k]);
    }
    assert(keys@ =~= due.map_values(|c: FlashcardData| due_key(c)));
    let order = sort_indices(&keys);
    let count: usize = if order.len() < DUE_LIMIT { order.len() } else { DUE_LIMIT };
    let mut r: Vec<FlashcardData> = Vec::new();
    let mut k: usize = 0;
    while k < count
        invariant
            count <= order@.len(),
            k <= count,
            is_perm(order@, due.len()),
            pos@.len() == due.len(),
            forall|x: int| 0 <= x < pos@.len() ==> (#[trigger] pos@[x]) < db.flashcards@.len() && db.flashcards@[pos@[x] as int] == due[x],
            r@.len() == k,
            forall|x: int| 0 <= x < k ==> #[trigger] r@[x] == due[order@[x] as int],
        decreases count - k,
    {
        r.push(db.flashcards[pos[order[k]]].duplicate());
        k = k + 1;
    }
    r
}

/// Seconds between the epoch and a shifted origin, a whole number of days
/// large enough to make every `i64` time positive.
const EPOCH_SHIFT: i128 = 12159718993900339200;

/// Whole days from the epoch to time `t`, rounded down.
pub open spec fn day_spec(t: int) -> int {
    t / (DAY_SECONDS as int)
}

/// The day number of time `t`: whole days since the epoch, rounded down.
pub fn day_of(t: i64) -> (r: i64)
    ensures
        r == day_spec(t as int),
{
    let x: u128 = (t as i128 + EPOCH_SHIFT) as u128;
    let q: u128 = x / 86400;
    let rem: u128 = x % 86400;
    proof {
        assert(EPOCH_SHIFT == 140737488355328 * 86400);
        vstd::arithmetic::div_mod::lemma_fundamental_div_mod(x as int, 86400);
        vstd::arithmetic::div_mod::lemma_fundamental_div_mod_converse(
            t as int,
            86400,
            q as int - 140737488355328,
            rem as int,
        );
    }
    (q as i128 - 140737488355328) as i64
}

/// The day number of every card of `cards` changed at or after `since`.
pub open spec fn active_day(cards: Seq<FlashcardData>, since: int, d: int) -> bool {
    exists|k: int| 0 <= k < cards.len() && #[trigger] cards[k].updated_at >= since && day_spec(cards[k].updated_at as int) == d
}

/// The counters of the scheduler at `now`.
pub open spec fn stats_spec(db: Database, now: i64, s: FlashcardStats) -> bool {
    let day = DAY_SECONDS as int;
    &&& s.due_today == keep(db.flashcards@, due_at(db.notes@, now)).len()
    &&& s.total_cards == keep(db.flashcards@, of_live_note(db.notes@)).len()
    &&& s.reviewed_today == keep(db.flashcards@, updated_since(day_spec(now as int) * day)).len()
    &&& exists|days: Seq<i64>|
        {
            &&& days.no_duplicates()
            &&& s.streak == days.len()
            &&& forall|d: i64| #[trigger] days.contains(d) <==> active_day(db.flashcards@, now - ACTIVE_DAYS * day, d as int)
        }
}

/// Counters of the scheduler at `now`: cards of live notes due and in
/// all, cards changed since the start of the day, and the number of days
/// with a change among the last `ACTIVE_DAYS` days.
pub fn get_flashcard_stats(db: &Database, now: i64) -> (r: FlashcardStats)
    requires
        db.wf(),
    ensures
        stats_spec(*db, now, r),
{
    let ghost cards = db.flashcards@;
    let today = day_of(now);
    let day_start: i128 = today as i128 * 86400;
    let since: i128 = now as i128 - 30 * 86400;
    let ghost p_due = due_at(db.notes@, now);
    let ghost p_all = of_live_note(db.notes@);
    let ghost p_rev = updated_since(day_start as int);
    let mut due: u64 = 0;
    let mut total: u64 = 0;
    let mut reviewed: u64 = 0;
    let mut days: Vec<i64> = Vec::new();
    let mut i: usize = 0;
    while i < db.flashcards.len()
        invariant
            db.wf(),
            cards == db.flashcards@,
            i <= cards.len(),
            day_start == day_spec(now as int) * 86400,
            since == now - ACTIVE_DAYS * 86400,
            p_due == due_at(db.notes@, now),
            p_all == of_live_note(db.notes@),
            p_rev == updated_since(day_start as int),
            due == keep(cards.subrange(0, i as int), p_due).len(),
            total == keep(cards.subrange(0, i as int), p_all).len(),
            reviewed == keep(cards.subrange(0, i as int), p_rev).len(),
            days@.no_duplicates(),
            days@.len() <= i,
            forall|d: i64| #[trigger] days@.contains(d) <==> active_day(cards.subrange(0, i as int), since as int, d as int),
        decreases cards.len() - i,
    {
        let c = &db.flashcards[i];
        let ghost s = cards.subrange(0, i + 1);
        proof {
            assert(s.drop_last() =~= cards.subrange(0, i as int));
            crate::store::lemma_keep_from(cards.subrange(0, i as int), p_due);
            crate::store::lemma_keep_from(cards.subrange(0, i as int), p_all);
            crate::store::lemma_keep_from(cards.subrange(0, i as int), p_rev);
        }
        let live = note_is_live(db, c.note_id);
        if live {
            total = total + 1;
            if c.next_review <= now {
                due = due + 1;
            }
        }
        if c.updated_at as i128 >= day_start {
            reviewed = reviewed + 1;
        }
        let ghost before = days@;
        if c.updated_at as i128 >= since {
            let d = day_of(c.updated_at);
            let mut present = false;
            let mut q: usize = 0;
            while q < days.len()
                invariant
                    q <= days@.len(),
                    present == days@.subrange(0, q as int).contains(d),
                decreases days@.len() - q,
            {
                proof {
                    assert(days@.subrange(0, q + 1) == days@.subrange(0, q as int).push(days@[q as int]));
                    crate::tags::lemma_push_contains(days@.subrange(0, q as int), days@[q as int]);
                }
                if days[q] == d {
                    present = true;
                }
                q = q + 1;
            }
            assert(days@.subrange(0, days@.len() as int) =~= days@);
            assert(present == before.contains(d));
            if !present {
                days.push(d);
                proof {
                    crate::tags::lemma_push_contains(before, d);
                    assert forall|a: int, b: int| 0 <= a < days@.len() && 0 <= b < days@.len() && a != b implies days@[a] != days@[b] by {
                        if a == before.len() {
                            assert(before.contains(days@[b]));
                        } else if b == before.len() {
                            assert(before.contains(days@[a]));
                        } else {
                            assert(before[a] != before[b]);
                        }
                    }
                }
            }
        }
        proof {
            assert forall|x: i64| days@.contains(x) <==> (before.contains(x) || (c.updated_at as i128 >= since
                && x as int == day_spec(c.updated_at as int))) by {
                if c.updated_at as i128 >= since {
                    crate::tags::lemma_push_contains(before, day_spec(c.updated_at as int) as i64);
                }
            }
            assert forall|d: i64| #[trigger] days@.contains(d) <==> active_day(s, since as int, d as int) by {
                let sub = cards.subrange(0, i as int);
                assert(before.contains(d) <==> active_day(sub, since as int, d as int));
                assert(s[i as int] == *c);
                if active_day(s, since as int, d as int) {
                    let k = choose|k: int| 0 <= k < s.len() && #[trigger] s[k].updated_at >= since && day_spec(s[k].updated_at as int) == d;
                    if k < i {
                        assert(sub[k] == s[k]);
                        assert(sub[k].updated_at >= since && day_spec(sub[k].updated_at as int) == d);
                        assert(active_day(sub, since as int, d as int));
                    } else {
                        assert(k == i);
                    }
                }
                if active_day(sub, since as int, d as int) {
                    let k = choose|k: int| 0 <= k < sub.len() && #[trigger] sub[k].updated_at >= since && day_spec(sub[k].updated_at as int) == d;
                    assert(s[k] == sub[k]);
                    assert(s[k].updated_at >= since && day_spec(s[k].updated_at as int) == d);
                }
                if c.updated_at as i128 >= since && d as int == day_spec(c.updated_at as int) {
                    assert(s[i as int].updated_at >= since && day_spec(s[i as int].updated_at as int) == d);
                }
            }
        }
        i = i + 1;
    }
    assert(cards.subrange(0, cards.len() as int) =~= cards);
    FlashcardStats { due_today: due, total_cards: total, reviewed_today: reviewed, streak: days.len() as u64 }
}

/// A review rated 0 resets the card: no repetitions, a one-day interval,
/// the ease factor lowered by 0.2 but not below 1.3, and the next review one
/// day after `now` (when that time fits in an `i64`).
pub proof fn lemma_review_zero(c: FlashcardData, now: i64)
    requires
        now <= i64::MAX - DAY_SECONDS,
    ensures
        reviewed(c, 0, now).schedule.repetitions == 0,
        reviewed(c, 0, now).schedule.interval == crate::review::MILLI,
        reviewed(c, 0, now).schedule.ease == crate::review::max_ease(c.schedule.ease - 200),
        reviewed(c, 0, now).next_review == now + DAY_SECONDS,
        reviewed(c, 0, now).updated_at == now,
        reviewed(c, 0, now).id == c.id && reviewed(c, 0, now).note_id == c.note_id,
{
    assert(crate::review::delay_seconds_spec(1000) == 86400);
}

} // verus!
