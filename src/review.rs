//! The SM-2 review transition. Intervals and ease factors are fixed-point
//! numbers in thousandths (an interval of 1500 is a day and a half, an ease
//! factor of 2500 is 2.5).
use vstd::prelude::*;

verus! {

/// One unit in thousandths.
pub const MILLI: u64 = 1000;

/// The lowest ease factor, 1.3.
pub const MIN_EASE: u64 = 1300;

/// The ease factor of a new card, 2.5.
pub const START_EASE: u64 = 2500;

/// Seconds in a day.
pub const DAY_SECONDS: u64 = 86400;

/// The scheduling state of one flashcard.
#[derive(Clone, Copy, Debug, PartialEq, Eq, Structural)]
pub struct Schedule {
    /// Days until the next review, in thousandths.
    pub interval: u64,
    /// Ease factor, in thousandths.
    pub ease: u64,
    /// Successful reviews in a row.
    pub repetitions: u64,
}

pub open spec fn min_u64(x: int) -> int {
    if x > u64::MAX as int { u64::MAX as int } else { x }
}

pub open spec fn max_ease(x: int) -> int {
    if x < MIN_EASE as int { MIN_EASE as int } else { x }
}

/// The ease change of a passing review: `0.1 - d * (0.08 + d * 0.02)` with
/// `d = 4 - rating`, in thousandths.
pub open spec fn ease_delta(rating: int) -> int {
    let d = 4 - rating;
    100 - d * (80 + d * 20)
}

/// The state after a review with `rating` (0 to 5). Counters stop at the
/// largest `u64`.
pub open spec fn review_spec(s: Schedule, rating: int) -> Schedule {
    if rating < 2 {
        Schedule {
            interval: MILLI,
            ease: max_ease(s.ease - 200) as u64,
            repetitions: 0,
        }
    } else {
        let ease = min_u64(max_ease(s.ease + ease_delta(rating)));
        let reps = min_u64(s.repetitions + 1);
        let interval = if reps == 1 {
            MILLI as int
        } else if reps == 2 {
            6 * MILLI as int
        } else {
            min_u64(s.interval * ease / MILLI as int)
        };
        Schedule { interval: interval as u64, ease: ease as u64, repetitions: reps as u64 }
    }
}

/// The schedule of a card that was never reviewed.
pub open spec fn new_schedule_spec() -> Schedule {
    Schedule { interval: MILLI, ease: START_EASE, repetitions: 0 }
}

impl Schedule {
    /// The schedule of a card that was never reviewed: one day, ease 2.5.
    pub fn new() -> (r: Schedule)
        ensures
            r == new_schedule_spec(),
    {
        Schedule { interval: MILLI, ease: START_EASE, repetitions: 0 }
    }

    /// The SM-2 transition for a review rated `rating` (0 worst, 5 best).
    pub fn review(&self, rating: u8) -> (r: Schedule)
        requires
            rating <= 5,
        ensures
            r == review_spec(*self, rating as int),
    {
        if rating < 2 {
            let ease = if self.ease >= MIN_EASE + 200 { self.ease - 200 } else { MIN_EASE };
            Schedule { interval: MILLI, ease, repetitions: 0 }
        } else {
            let raised: u128 = match rating {
                2 => { if self.ease >= 140 { (self.ease - 140) as u128 } else { 0 } },
                3 => self.ease as u128,
                4 => self.ease as u128 + 100,
                _ => self.ease as u128 + 160,
            };
            assert(ease_delta(2) == -140 && ease_delta(3) == 0 && ease_delta(4) == 100 && ease_delta(5) == 160);
            assert(raised == if self.ease + ease_delta(rating as int) < 0 { 0 } else { self.ease + ease_delta(rating as int) });
            let floored: u128 = if raised < MIN_EASE as u128 { MIN_EASE as u128 } else { raised };
            let ease: u64 = if floored > u64::MAX as u128 { u64::MAX } else { floored as u64 };
            let reps = if self.repetitions < u64::MAX { self.repetitions + 1 } else { u64::MAX };
            let interval: u64 = if reps == 1 {
                MILLI
            } else if reps == 2 {
                6 * MILLI
            } else {
                assert(self.interval as int * ease as int <= u64::MAX as int * u64::MAX as int) by (nonlinear_arith)
                    requires self.interval <= u64::MAX, ease <= u64::MAX;
                let p: u128 = (self.interval as u128) * (ease as u128);
                let q: u128 = p / (MILLI as u128);
                if q > u64::MAX as u128 { u64::MAX } else { q as u64 }
            };
            Schedule { interval, ease, repetitions: reps }
        }
    }
}

/// Seconds until the next review: `interval` days rounded to the second.
pub open spec fn delay_seconds_spec(interval: u64) -> int {
    (interval * 864 + 5) / 10
}

/// The time of the next review after one at `now`, clamped to the range of
/// `i64`.
pub open spec fn next_review_spec(now: i64, interval: u64) -> int {
    let t = now + delay_seconds_spec(interval);
    if t > i64::MAX as int { i64::MAX as int } else { t }
}

/// The time of the next review: `now` plus `interval` days, rounded to the
/// second.
pub fn next_review_at(now: i64, interval: u64) -> (r: i64)
    ensures
        r == next_review_spec(now, interval),
{
    let delay: u128 = ((interval as u128) * 864 + 5) / 10;
    let t: i128 = now as i128 + delay as i128;
    if t > i64::MAX as i128 { i64::MAX } else { t as i64 }
}

/// Reviewing a new card (interval one day, ease 2.5, no repetitions) with
/// the top rating three times gives one repetition and a one-day interval,
/// then two repetitions and six days, then an interval of six days times the
/// new ease factor, which is longer than six days.
pub proof fn lemma_top_ratings_from_new()
    ensures
        ({
            let s1 = review_spec(new_schedule_spec(), 5);
            let s2 = review_spec(s1, 5);
            let s3 = review_spec(s2, 5);
            &&& s1.repetitions == 1 && s1.interval == MILLI
            &&& s2.repetitions == 2 && s2.interval == 6 * MILLI
            &&& s3.repetitions == 3 && s3.interval == 6 * s3.ease
            &&& s3.interval > 6 * MILLI
        }),
{
    assert(ease_delta(5) == 160);
    let s1 = review_spec(new_schedule_spec(), 5);
    assert(s1.ease == 2660);
    let s2 = review_spec(s1, 5);
    assert(s2.ease == 2820);
    let s3 = review_spec(s2, 5);
    assert(s3.ease == 2980);
    assert(6000 * 2980 / 1000 == 17880) by (nonlinear_arith);
}

/// A failed review (rating below 2, in particular 0) from any state resets
/// the repetitions to zero and the interval to one day.
pub proof fn lemma_failure_resets(s: Schedule, rating: int)
    requires
        0 <= rating < 2,
    ensures
        review_spec(s, rating).repetitions == 0,
        review_spec(s, rating).interval == MILLI,
{
}

} // verus!
