//! The per-card interval model: a SuperMemo-2-style update of a card's
//! difficulty ("effort factor"), success streak and next review time from
//! one attempt record.
//!
//! The effort factor is kept in hundredths, so the floor of 1.3 is 130 and
//! the starting value of 2.5 is 250. All times are in seconds.

use vstd::prelude::*;

use crate::card::AttemptQuality;
use crate::card::AttemptRecord;

verus! {

/// One day, in seconds.
pub const DAY_SECONDS: u64 = 86400;

/// Six days, in seconds: the interval after the second consecutive success.
pub const SIX_DAYS_SECONDS: u64 = 6 * 86400;

/// The least value the effort factor can take, in hundredths.
pub const EFFORT_FACTOR_FLOOR: u64 = 130;

/// The effort factor of a card that has never been attempted, in hundredths.
pub const EFFORT_FACTOR_START: u64 = 250;

/// `x` clamped from above into the range of `u64`.
pub open spec fn sat_u64(x: int) -> int {
    if x > u64::MAX { u64::MAX as int } else { x }
}

/// The effort factor after one attempt of quality `q` (an integer score,
/// 0 to 5) on a card whose effort factor was `ef` hundredths:
/// `ef + 0.1 - (5 - q) * (0.08 + (5 - q) * 0.02)`, in hundredths, clamped
/// below by the 1.3 floor (and into the range of `u64`). The update runs on
/// every attempt, pass or fail, so difficulty tracking continues through
/// failures.
pub open spec fn spec_effort_update(ef: int, q: int) -> int {
    let k = 5 - q;
    let bumped = sat_u64(ef + 10);
    let penalty = 8 * k + 2 * (k * k);
    if bumped - penalty < EFFORT_FACTOR_FLOOR {
        EFFORT_FACTOR_FLOOR as int
    } else {
        bumped - penalty
    }
}

/// The consecutive-success counter after one attempt: successful recall
/// (score at least 3) lengthens the streak, anything lower resets it to
/// zero. The counter stops at `u32::MAX` rather than wrap.
pub open spec fn spec_recall_update(rc: int, q: int) -> int {
    if q >= 3 {
        if rc < u32::MAX {
            rc + 1
        } else {
            rc
        }
    } else {
        0
    }
}

/// The next review time after an attempt at `time` of score `q` on a card
/// in state `s`: one day out for the first success of a streak and for any
/// failure, six days out for the second consecutive success, and the prior
/// interval stretched by the updated effort factor afterwards. Additions
/// clamp at `u64::MAX`.
pub open spec fn spec_next_attempt(s: CardState, time: int, q: int) -> int {
    if q >= 3 {
        let new_rc = spec_recall_update(s.recall_count as int, q);
        if new_rc == 1 {
            sat_u64(time + DAY_SECONDS)
        } else if new_rc == 2 {
            sat_u64(time + SIX_DAYS_SECONDS)
        } else {
            let prior = match s.last_attempt {
                Some(t) => s.next_attempt - t,
                None => 0,
            };
            let new_ef = spec_effort_update(s.effort_factor as int, q);
            sat_u64(time + prior * new_ef / 100)
        }
    } else {
        sat_u64(time + DAY_SECONDS)
    }
}

/// The whole interval-model step: the state after one attempt at `time`
/// with quality `q` on a card in state `s`.
pub open spec fn spec_card_update(s: CardState, time: u64, q: AttemptQuality) -> CardState {
    CardState {
        recall_count: spec_recall_update(s.recall_count as int, q.spec_score()) as u32,
        effort_factor: spec_effort_update(s.effort_factor as int, q.spec_score()) as u64,
        last_attempt: Some(time),
        next_attempt: spec_next_attempt(s, time as int, q.spec_score()) as u64,
    }
}

/// The state of a card created at `created` that has never been attempted.
pub open spec fn spec_initial_state(created: u64) -> CardState {
    CardState {
        recall_count: 0,
        effort_factor: EFFORT_FACTOR_START,
        last_attempt: None,
        next_attempt: created,
    }
}

/// Per-card scheduling state, updated on every attempt recorded from the
/// primary queue.
#[derive(Clone, Copy, Debug, PartialEq)]
pub struct CardState {
    /// Count of consecutive attempts scoring at least
    /// `CorrectSeriousDifficulty`; reset to zero by anything lower.
    pub recall_count: u32,
    /// Effort factor up through the last attempt, in hundredths.
    pub effort_factor: u64,
    /// Time of the last attempt, in seconds; `None` until the first attempt.
    pub last_attempt: Option<u64>,
    /// Time of the next attempt, in seconds. Holds the card's creation time
    /// before the first attempt.
    pub next_attempt: u64,
}

impl CardState {
    /// The state's internal invariant: the effort factor respects its floor,
    /// a card that was never attempted has no streak, and the next review of
    /// an attempted card is never scheduled before the attempt itself.
    pub open spec fn wf(self) -> bool {
        &&& self.effort_factor >= EFFORT_FACTOR_FLOOR
        &&& (self.last_attempt is None ==> self.recall_count == 0)
        &&& (match self.last_attempt {
            Some(t) => self.next_attempt >= t,
            None => true,
        })
    }

    /// A fresh state for a card created at `created`: no attempts yet, the
    /// starting effort factor, and the first review due at creation.
    pub fn new(created: u64) -> (s: CardState)
        ensures
            s == spec_initial_state(created),
            s.wf(),
    {
        CardState {
            recall_count: 0,
            effort_factor: EFFORT_FACTOR_START,
            last_attempt: None,
            next_attempt: created,
        }
    }

    /// Applies one attempt record to the state: the pure interval-model
    /// transformation. No error conditions.
    pub fn update(&mut self, attempt_record: &AttemptRecord)
        requires
            old(self).wf(),
        ensures
            *final(self) == spec_card_update(
                *old(self),
                attempt_record.time,
                attempt_record.quality,
            ),
            final(self).wf(),
    {
        let quality = attempt_record.quality;
        let passes = quality.score() >= 3;
        let new_ef = update_effort_factor(self.effort_factor, quality);
        let new_rc: u32 = if passes {
            if self.recall_count < u32::MAX {
                self.recall_count + 1
            } else {
                self.recall_count
            }
        } else {
            0
        };
        let next: u64 = if passes {
            if new_rc == 1 {
                sat_add(attempt_record.time, DAY_SECONDS)
            } else if new_rc == 2 {
                sat_add(attempt_record.time, SIX_DAYS_SECONDS)
            } else {
                let last = self.last_attempt.unwrap();
                let prior: u64 = self.next_attempt - last;
                assert((prior as int) * (new_ef as int) < u128::MAX) by (nonlinear_arith)
                    requires
                        prior <= u64::MAX,
                        new_ef <= u64::MAX,
                ;
                let scaled: u128 = (prior as u128) * (new_ef as u128) / 100;
                let wide: u128 = (attempt_record.time as u128) + scaled;
                if wide > u64::MAX as u128 {
                    u64::MAX
                } else {
                    wide as u64
                }
            }
        } else {
            sat_add(attempt_record.time, DAY_SECONDS)
        };
        self.effort_factor = new_ef;
        self.recall_count = new_rc;
        self.next_attempt = next;
        self.last_attempt = Some(attempt_record.time);
    }
}

/// The SuperMemo-2 effort-factor step, on hundredths.
fn update_effort_factor(effort_factor: u64, quality: AttemptQuality) -> (r: u64)
    ensures
        r as int == spec_effort_update(effort_factor as int, quality.spec_score()),
{
    let score = quality.score();
    assert(0 <= quality.spec_score() <= 5);
    let k: u64 = 5 - (score as u64);
    assert((k as int) * (k as int) <= 25) by (nonlinear_arith)
        requires
            k <= 5,
    ;
    let kk: u64 = k * k;
    assert((kk as int) == (5 - quality.spec_score()) * (5 - quality.spec_score()))
        by (nonlinear_arith)
        requires
            k as int == 5 - quality.spec_score(),
            kk == k * k,
    ;
    let penalty: u64 = 8 * k + 2 * kk;
    let bumped: u64 = if effort_factor > u64::MAX - 10 {
        u64::MAX
    } else {
        effort_factor + 10
    };
    if bumped < penalty + EFFORT_FACTOR_FLOOR {
        EFFORT_FACTOR_FLOOR
    } else {
        bumped - penalty
    }
}

/// Addition on times, clamped at `u64::MAX`.
fn sat_add(a: u64, b: u64) -> (r: u64)
    ensures
        r as int == sat_u64(a + b),
{
    if a > u64::MAX - b {
        u64::MAX
    } else {
        a + b
    }
}

/// The interval-model step takes well-formed states to well-formed states.
pub proof fn lemma_card_update_wf(s: CardState, time: u64, q: AttemptQuality)
    requires
        s.wf(),
    ensures
        spec_card_update(s, time, q).wf(),
{
    let sc = q.spec_score();
    assert(EFFORT_FACTOR_FLOOR <= spec_effort_update(s.effort_factor as int, sc) <= u64::MAX);
    assert(0 <= spec_recall_update(s.recall_count as int, sc) <= u32::MAX);
    let prior = match s.last_attempt {
        Some(t) => s.next_attempt - t,
        None => 0int,
    };
    let new_ef = spec_effort_update(s.effort_factor as int, sc);
    assert(prior * new_ef >= 0) by (nonlinear_arith)
        requires
            prior >= 0,
            new_ef >= 0,
    ;
    assert(time <= spec_next_attempt(s, time as int, sc) <= u64::MAX);
}

/// Effort-factor floor: however low the quality, the updated effort factor
/// of any attempt never goes below 1.3 (130 hundredths), so every sequence
/// of attempts keeps it at or above the floor.
pub proof fn lemma_effort_factor_floor(ef: int, q: AttemptQuality)
    ensures
        spec_effort_update(ef, q.spec_score()) >= EFFORT_FACTOR_FLOOR,
{
}

/// Monotonic streak: the consecutive-success counter grows by exactly one
/// on a successful recall and resets to zero on anything lower.
pub proof fn lemma_monotonic_streak(rc: u32, q: AttemptQuality)
    ensures
        q.passes() && rc < u32::MAX ==> spec_recall_update(rc as int, q.spec_score()) == rc
            + 1,
        !q.passes() ==> spec_recall_update(rc as int, q.spec_score()) == 0,
{
}

/// First-interval law: a card with no running streak that passes an attempt
/// is scheduled exactly one day after that attempt.
pub proof fn lemma_first_interval(s: CardState, time: u64, q: AttemptQuality)
    requires
        s.recall_count == 0,
        q.passes(),
        time + DAY_SECONDS <= u64::MAX,
    ensures
        spec_next_attempt(s, time as int, q.spec_score()) == time + DAY_SECONDS,
{
}

/// Second-interval law: the second consecutive pass is scheduled exactly
/// six days after that attempt.
pub proof fn lemma_second_interval(s: CardState, time: u64, q: AttemptQuality)
    requires
        s.recall_count == 1,
        q.passes(),
        time + SIX_DAYS_SECONDS <= u64::MAX,
    ensures
        spec_next_attempt(s, time as int, q.spec_score()) == time + SIX_DAYS_SECONDS,
{
}

} // verus!
