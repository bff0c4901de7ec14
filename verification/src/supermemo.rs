//! The scheduling engine: a deck of cards under SuperMemo-2-style review.
//!
//! The engine owns one `CardState` per tracked card and two queues. The
//! primary queue (`sorted_deck`) orders cards by their next-attempt time;
//! the repeat queue (`repeat_deck`) is a FIFO of cards that just failed and
//! are re-drilled within the session. A card is tracked exactly when it is
//! in exactly one of the two queues.
//!
//! All engine operations take time explicitly, never read a clock, and
//! either complete their whole transition or fail without touching
//! anything.

use vstd::prelude::*;

use std::collections::VecDeque;

use crate::card::AttemptQuality;
use crate::card::AttemptRecord;
use crate::card::UuidString;
use crate::interval::spec_card_update;
use crate::interval::spec_initial_state;
use crate::interval::CardState;
use crate::queue::pq_change_priority;
use crate::queue::pq_front;
use crate::queue::pq_new;
use crate::queue::pq_peek;
use crate::queue::pq_pop;
use crate::queue::pq_push;
use crate::queue::pq_remove;
use crate::queue::pq_times;
use crate::queue::TimeQueue;

verus! {

/// Six hours, in seconds: how long a repeat-queue entry stays available for
/// short-term re-drilling before `draw_card` hands it back to the primary
/// queue.
pub const REPEAT_WINDOW_SECONDS: u64 = 6 * 60 * 60;

/// The recoverable errors the engine surfaces to its caller. Invariant
/// violations, by contrast, are ruled out by verification rather than
/// reported.
#[derive(Clone, Copy, Debug, PartialEq, Eq, Structural)]
pub enum DeckError {
    /// `new_card` was called for an identity that is already tracked; the
    /// caller must delete the card before re-adding it.
    DuplicateCard,
    /// `insert_attempt` was called for an identity that is not at the front
    /// of either queue — the caller and the engine are out of step — or not
    /// tracked at all.
    UnexpectedAttempt,
}

/// One tracked card: its identity and its interval-model state.
struct CardEntry {
    uuid: UuidString,
    state: CardState,
}

/// One repeat-queue entry: a card identity and the time it was moved into
/// the repeat queue.
struct RepeatEntry {
    uuid: UuidString,
    moved: u64,
}

/// The card states as a map from identity to state; on duplicate
/// identities, the later entry wins (the engine never keeps duplicates).
spec fn entries_map(s: Seq<CardEntry>) -> Map<Seq<char>, CardState>
    decreases s.len(),
{
    if s.len() == 0 {
        Map::empty()
    } else {
        entries_map(s.drop_last()).insert(s.last().uuid@, s.last().state)
    }
}

/// No identity occurs twice in the entry list.
spec fn entries_unique(s: Seq<CardEntry>) -> bool {
    forall|i: int, j: int|
        0 <= i < j < s.len() ==> (#[trigger] s[i]).uuid@ != (#[trigger] s[j]).uuid@
}

/// The repeat queue as a sequence of (identity, time-moved) pairs.
spec fn repeat_view(s: Seq<RepeatEntry>) -> Seq<(Seq<char>, u64)> {
    s.map_values(|e: RepeatEntry| (e.uuid@, e.moved))
}

/// An identity occurs somewhere in a repeat-queue view.
pub open spec fn repeat_contains(rep: Seq<(Seq<char>, u64)>, id: Seq<char>) -> bool {
    exists|i: int| 0 <= i < rep.len() && (#[trigger] rep[i]).0 == id
}

/// What the engine looks like from outside: the tracked card states, the
/// primary queue's contents, and the repeat queue in order.
pub ghost struct DeckView {
    pub states: Map<Seq<char>, CardState>,
    pub primary: Map<Seq<char>, u64>,
    pub repeat: Seq<(Seq<char>, u64)>,
}

impl DeckView {
    /// The engine invariant over a view:
    /// - every primary-queue entry belongs to a tracked card and is held at
    ///   that card's next-attempt time;
    /// - every repeat-queue entry belongs to a tracked card that is not in
    ///   the primary queue, and no identity is in the repeat queue twice;
    /// - every tracked card state is well formed and sits in one of the two
    ///   queues.
    pub open spec fn wf(self) -> bool {
        &&& forall|id: Seq<char>| #[trigger]
            self.primary.dom().contains(id) ==> self.states.dom().contains(id)
                && self.primary[id] == self.states[id].next_attempt
        &&& forall|i: int|
            0 <= i < self.repeat.len() ==> self.states.dom().contains(
                (#[trigger] self.repeat[i]).0,
            ) && !self.primary.dom().contains(self.repeat[i].0)
        &&& forall|i: int, j: int|
            0 <= i < j < self.repeat.len() ==> (#[trigger] self.repeat[i]).0 != (
            #[trigger] self.repeat[j]).0
        &&& forall|id: Seq<char>| #[trigger]
            self.states.dom().contains(id) ==> self.states[id].wf() && (self.primary.dom().contains(
                id,
            ) || repeat_contains(self.repeat, id))
    }
}

/// Whether `id` is at the front of a repeat-queue view.
pub open spec fn at_repeat_front(v: DeckView, id: Seq<char>) -> bool {
    v.repeat.len() > 0 && v.repeat[0].0 == id
}

/// The deck after a primary-queue attempt on card `id` at `time` with
/// quality `q`: the interval model reruns on the card's state; a quality of
/// at least `CorrectAfterHesitation` keeps the card in the primary queue at
/// its new time, anything lower demotes it to the back of the repeat queue.
pub open spec fn spec_apply_primary(
    v: DeckView,
    id: Seq<char>,
    time: u64,
    q: AttemptQuality,
) -> DeckView {
    let s1 = spec_card_update(v.states[id], time, q);
    if q.clears_repeat() {
        DeckView {
            states: v.states.insert(id, s1),
            primary: v.primary.insert(id, s1.next_attempt),
            repeat: v.repeat,
        }
    } else {
        DeckView {
            states: v.states.insert(id, s1),
            primary: v.primary.remove(id),
            repeat: v.repeat.push((id, time)),
        }
    }
}

/// The deck after the front repeat-queue card leaves the repeat queue: it
/// rejoins the primary queue at its unchanged next-attempt time. Card
/// states are untouched.
pub open spec fn spec_promote(v: DeckView) -> DeckView {
    let id = v.repeat[0].0;
    DeckView {
        states: v.states,
        primary: v.primary.insert(id, v.states[id].next_attempt),
        repeat: v.repeat.drop_first(),
    }
}

/// The deck after a repeat-queue attempt on the front card: a quality of at
/// least `CorrectAfterHesitation` promotes the card back to the primary
/// queue; anything lower leaves the deck exactly as it was, the card still
/// at the front for re-presentation.
pub open spec fn spec_apply_repeat(v: DeckView, q: AttemptQuality) -> DeckView {
    if q.clears_repeat() && v.repeat.len() > 0 {
        spec_promote(v)
    } else {
        v
    }
}

/// The number of leading repeat-queue entries that, at time `now`, have sat
/// in the repeat queue for the full repeat window or longer.
pub open spec fn stale_prefix(rep: Seq<(Seq<char>, u64)>, now: u64) -> int
    decreases rep.len(),
{
    if rep.len() == 0 {
        0
    } else if rep[0].1 + REPEAT_WINDOW_SECONDS <= now {
        1 + stale_prefix(rep.drop_first(), now)
    } else {
        0
    }
}

/// The primary queue after the first `k` entries of the repeat queue rejoin
/// it, each at its own card's next-attempt time.
pub open spec fn primary_with_requeued(
    states: Map<Seq<char>, CardState>,
    primary: Map<Seq<char>, u64>,
    rep: Seq<(Seq<char>, u64)>,
    k: int,
) -> Map<Seq<char>, u64>
    decreases k,
{
    if k <= 0 {
        primary
    } else {
        primary_with_requeued(states, primary, rep, k - 1).insert(
            rep[k - 1].0,
            states[rep[k - 1].0].next_attempt,
        )
    }
}

/// The deck after `draw_card`'s staleness pass at `now`: every leading
/// repeat-queue entry older than the repeat window has moved back to the
/// primary queue at its card's next-attempt time; card states are
/// untouched.
pub open spec fn spec_drain(v: DeckView, now: u64) -> DeckView {
    let k = stale_prefix(v.repeat, now);
    DeckView {
        states: v.states,
        primary: primary_with_requeued(v.states, v.primary, v.repeat, k),
        repeat: v.repeat.skip(k),
    }
}

/// What requeueing the first `k` repeat entries puts into the primary
/// queue: exactly the old entries and those `k` identities, each held at
/// its card's next-attempt time.
proof fn lemma_requeued_dom(
    states: Map<Seq<char>, CardState>,
    primary: Map<Seq<char>, u64>,
    rep: Seq<(Seq<char>, u64)>,
    k: int,
)
    requires
        forall|id: Seq<char>| #[trigger]
            primary.dom().contains(id) ==> states.dom().contains(id) && primary[id]
                == states[id].next_attempt,
        0 <= k <= rep.len(),
    ensures
        forall|id: Seq<char>| #[trigger]
            primary_with_requeued(states, primary, rep, k).dom().contains(id) <==> (
            primary.dom().contains(id) || exists|j: int|
                0 <= j < k && (#[trigger] rep[j]).0 == id),
        forall|id: Seq<char>| #[trigger]
            primary_with_requeued(states, primary, rep, k).dom().contains(id)
                ==> states.dom().contains(id) ==> primary_with_requeued(states, primary, rep, k)[id]
                == states[id].next_attempt,
    decreases k,
{
    if k > 0 {
        lemma_requeued_dom(states, primary, rep, k - 1);
        let m1 = primary_with_requeued(states, primary, rep, k - 1);
        let m2 = primary_with_requeued(states, primary, rep, k);
        assert forall|id: Seq<char>| #[trigger] m2.dom().contains(id) implies (
        primary.dom().contains(id) || exists|j: int| 0 <= j < k && (#[trigger] rep[j]).0 == id) by {
            if id == rep[k - 1].0 {
                assert(rep[k - 1].0 == id);
            } else {
                assert(m1.dom().contains(id));
            }
        }
        assert forall|id: Seq<char>|
            primary.dom().contains(id) || exists|j: int|
                0 <= j < k && (#[trigger] rep[j]).0 == id implies #[trigger] m2.dom().contains(
            id,
        ) by {
            if id != rep[k - 1].0 {
                if !primary.dom().contains(id) {
                    let j = choose|j: int| 0 <= j < k && (#[trigger] rep[j]).0 == id;
                    assert(0 <= j < k - 1);
                }
                assert(m1.dom().contains(id));
            }
        }
    }
}

/// Staleness promotion: after `draw_card`'s pass at `now`, every entry of
/// the repeat queue's stale prefix — each one untouched for the full repeat
/// window or longer — is back in the primary queue, out of the repeat
/// queue, and the deck invariant still holds.
pub proof fn lemma_staleness_promotion(v: DeckView, now: u64)
    requires
        v.wf(),
    ensures
        spec_drain(v, now).wf(),
        forall|i: int|
            0 <= i < stale_prefix(v.repeat, now) ==> spec_drain(v, now).primary.dom().contains(
                (#[trigger] v.repeat[i]).0,
            ),
        forall|i: int|
            0 <= i < stale_prefix(v.repeat, now) ==> !repeat_contains(
                spec_drain(v, now).repeat,
                (#[trigger] v.repeat[i]).0,
            ),
{
    let k = stale_prefix(v.repeat, now);
    lemma_stale_prefix_bound(v.repeat, now);
    lemma_requeued_dom(v.states, v.primary, v.repeat, k);
    let v2 = spec_drain(v, now);
    assert forall|i: int| 0 <= i < k implies v2.primary.dom().contains(
        (#[trigger] v.repeat[i]).0,
    ) by {
        assert(exists|j: int| 0 <= j < k && (#[trigger] v.repeat[j]).0 == v.repeat[i].0);
    }
    assert forall|i: int| 0 <= i < k implies !repeat_contains(
        v2.repeat,
        (#[trigger] v.repeat[i]).0,
    ) by {
        if repeat_contains(v2.repeat, v.repeat[i].0) {
            let j = choose|j: int| 0 <= j < v2.repeat.len() && (#[trigger] v2.repeat[j]).0
                == v.repeat[i].0;
            assert(v2.repeat[j] == v.repeat[j + k]);
        }
    }
    assert forall|i: int| 0 <= i < v2.repeat.len() implies v2.states.dom().contains(
        (#[trigger] v2.repeat[i]).0,
    ) && !v2.primary.dom().contains(v2.repeat[i].0) by {
        assert(v2.repeat[i] == v.repeat[i + k]);
        if v2.primary.dom().contains(v2.repeat[i].0) {
            if !v.primary.dom().contains(v2.repeat[i].0) {
                let j = choose|j: int| 0 <= j < k && (#[trigger] v.repeat[j]).0 == v2.repeat[i].0;
                assert(v.repeat[j].0 == v.repeat[i + k].0);
            }
        }
    }
    assert forall|i: int, j: int| 0 <= i < j < v2.repeat.len() implies (
    #[trigger] v2.repeat[i]).0 != (#[trigger] v2.repeat[j]).0 by {
        assert(v2.repeat[i] == v.repeat[i + k]);
        assert(v2.repeat[j] == v.repeat[j + k]);
    }
    assert forall|id: Seq<char>| #[trigger] v2.states.dom().contains(id) implies
        v2.states[id].wf() && (v2.primary.dom().contains(id) || repeat_contains(
        v2.repeat,
        id,
    )) by {
        if !v.primary.dom().contains(id) {
            if repeat_contains(v.repeat, id) {
                let j = choose|j: int| 0 <= j < v.repeat.len() && (#[trigger] v.repeat[j]).0 == id;
                if j < k {
                    assert(exists|jj: int| 0 <= jj < k && (#[trigger] v.repeat[jj]).0 == id);
                    assert(v2.primary.dom().contains(id));
                } else {
                    assert(v2.repeat[j - k] == v.repeat[j]);
                    assert(repeat_contains(v2.repeat, id));
                }
            }
        }
    }
}

/// The stale prefix never reaches past the end of the repeat queue.
proof fn lemma_stale_prefix_bound(rep: Seq<(Seq<char>, u64)>, now: u64)
    ensures
        0 <= stale_prefix(rep, now) <= rep.len(),
    decreases rep.len(),
{
    if rep.len() > 0 && rep[0].1 + REPEAT_WINDOW_SECONDS <= now {
        lemma_stale_prefix_bound(rep.drop_first(), now);
    }
}

/// Queue exclusivity: in a well-formed deck, an identity is never in the
/// primary queue and the repeat queue at once.
pub proof fn lemma_queue_exclusivity(v: DeckView, id: Seq<char>)
    requires
        v.wf(),
    ensures
        !(v.primary.dom().contains(id) && repeat_contains(v.repeat, id)),
{
    if v.primary.dom().contains(id) && repeat_contains(v.repeat, id) {
        let i = choose|i: int| 0 <= i < v.repeat.len() && (#[trigger] v.repeat[i]).0 == id;
        assert(!v.primary.dom().contains(v.repeat[i].0));
    }
}

/// Demotion law, first half: a primary-queue attempt below
/// `CorrectAfterHesitation` moves the card out of the primary queue and
/// into the repeat queue, and keeps the deck invariant.
pub proof fn lemma_demotion_law(v: DeckView, id: Seq<char>, time: u64, q: AttemptQuality)
    requires
        v.wf(),
        v.primary.dom().contains(id),
        !q.clears_repeat(),
    ensures
        spec_apply_primary(v, id, time, q).wf(),
        repeat_contains(spec_apply_primary(v, id, time, q).repeat, id),
        !spec_apply_primary(v, id, time, q).primary.dom().contains(id),
{
    let v2 = spec_apply_primary(v, id, time, q);
    crate::interval::lemma_card_update_wf(v.states[id], time, q);
    assert(v2.repeat[v.repeat.len() as int].0 == id);
    assert forall|i: int| 0 <= i < v2.repeat.len() implies v2.states.dom().contains(
        (#[trigger] v2.repeat[i]).0,
    ) && !v2.primary.dom().contains(v2.repeat[i].0) by {
        if i < v.repeat.len() {
            assert(v2.repeat[i] == v.repeat[i]);
        }
    }
    assert forall|i: int, j: int| 0 <= i < j < v2.repeat.len() implies (
    #[trigger] v2.repeat[i]).0 != (#[trigger] v2.repeat[j]).0 by {
        if j == v.repeat.len() {
            assert(v2.repeat[i] == v.repeat[i]);
            assert(!v.primary.dom().contains(v.repeat[i].0));
        }
    }
    assert forall|id2: Seq<char>| #[trigger] v2.states.dom().contains(id2) implies
        v2.states[id2].wf() && (v2.primary.dom().contains(id2) || repeat_contains(
        v2.repeat,
        id2,
    )) by {
        if id2 == id {
            assert(v2.repeat[v.repeat.len() as int].0 == id);
        } else {
            assert(v.states.dom().contains(id2));
            if repeat_contains(v.repeat, id2) {
                let k = choose|k: int| 0 <= k < v.repeat.len() && (#[trigger] v.repeat[k]).0
                    == id2;
                assert(v2.repeat[k].0 == id2);
            }
        }
    }
}

/// A primary-queue attempt of at least `CorrectAfterHesitation` keeps the
/// card in the primary queue, rescheduled, and keeps the deck invariant.
pub proof fn lemma_primary_pass_wf(v: DeckView, id: Seq<char>, time: u64, q: AttemptQuality)
    requires
        v.wf(),
        v.primary.dom().contains(id),
        q.clears_repeat(),
    ensures
        spec_apply_primary(v, id, time, q).wf(),
        spec_apply_primary(v, id, time, q).primary.dom().contains(id),
        !repeat_contains(spec_apply_primary(v, id, time, q).repeat, id),
{
    let v2 = spec_apply_primary(v, id, time, q);
    crate::interval::lemma_card_update_wf(v.states[id], time, q);
    assert forall|i: int| 0 <= i < v2.repeat.len() implies v2.states.dom().contains(
        (#[trigger] v2.repeat[i]).0,
    ) && !v2.primary.dom().contains(v2.repeat[i].0) by {
        assert(!v.primary.dom().contains(v.repeat[i].0));
    }
    assert forall|id2: Seq<char>| #[trigger] v2.states.dom().contains(id2) implies
        v2.states[id2].wf() && (v2.primary.dom().contains(id2) || repeat_contains(
        v2.repeat,
        id2,
    )) by {
        if id2 != id {
            assert(v.states.dom().contains(id2));
        }
    }
    if repeat_contains(v2.repeat, id) {
        let i = choose|i: int| 0 <= i < v2.repeat.len() && (#[trigger] v2.repeat[i]).0 == id;
        assert(!v.primary.dom().contains(v.repeat[i].0));
    }
}

/// Demotion law, second half (promotion): a repeat-queue attempt of at
/// least `CorrectAfterHesitation` on the front card moves it back to the
/// primary queue without altering any card state, and keeps the deck
/// invariant.
pub proof fn lemma_promotion_law(v: DeckView, q: AttemptQuality)
    requires
        v.wf(),
        v.repeat.len() > 0,
        q.clears_repeat(),
    ensures
        spec_apply_repeat(v, q).wf(),
        spec_apply_repeat(v, q).states == v.states,
        spec_apply_repeat(v, q).primary.dom().contains(v.repeat[0].0),
        !repeat_contains(spec_apply_repeat(v, q).repeat, v.repeat[0].0),
{
    lemma_promote_wf(v);
}

/// Promoting the front repeat-queue card preserves the deck invariant, and
/// afterwards the card is in the primary queue only.
proof fn lemma_promote_wf(v: DeckView)
    requires
        v.wf(),
        v.repeat.len() > 0,
    ensures
        spec_promote(v).wf(),
        spec_promote(v).primary.dom().contains(v.repeat[0].0),
        !repeat_contains(spec_promote(v).repeat, v.repeat[0].0),
{
    let front = v.repeat[0].0;
    let v2 = spec_promote(v);
    assert forall|i: int| 0 <= i < v2.repeat.len() implies v2.states.dom().contains(
        (#[trigger] v2.repeat[i]).0,
    ) && !v2.primary.dom().contains(v2.repeat[i].0) by {
        assert(v2.repeat[i] == v.repeat[i + 1]);
        assert(v.repeat[i + 1].0 != front);
    }
    assert forall|i: int, j: int| 0 <= i < j < v2.repeat.len() implies (
    #[trigger] v2.repeat[i]).0 != (#[trigger] v2.repeat[j]).0 by {
        assert(v2.repeat[i] == v.repeat[i + 1]);
        assert(v2.repeat[j] == v.repeat[j + 1]);
    }
    assert forall|id2: Seq<char>| #[trigger] v2.states.dom().contains(id2) implies
        v2.states[id2].wf() && (v2.primary.dom().contains(id2) || repeat_contains(
        v2.repeat,
        id2,
    )) by {
        if id2 != front && !v.primary.dom().contains(id2) {
            let k = choose|k: int| 0 <= k < v.repeat.len() && (#[trigger] v.repeat[k]).0 == id2;
            assert(v2.repeat[k - 1].0 == id2);
        }
    }
    if repeat_contains(v2.repeat, front) {
        let i = choose|i: int| 0 <= i < v2.repeat.len() && (#[trigger] v2.repeat[i]).0 == front;
        assert(v.repeat[i + 1].0 == front);
    }
}

/// Every identity an entry list holds is in its map's domain, and nothing
/// else is.
proof fn lemma_entries_dom(s: Seq<CardEntry>)
    ensures
        forall|i: int|
            0 <= i < s.len() ==> entries_map(s).dom().contains((#[trigger] s[i]).uuid@),
        forall|id: Seq<char>| #[trigger]
            entries_map(s).dom().contains(id) ==> exists|i: int|
                0 <= i < s.len() && (#[trigger] s[i]).uuid@ == id,
    decreases s.len(),
{
    if s.len() > 0 {
        lemma_entries_dom(s.drop_last());
        assert forall|i: int|
            0 <= i < s.len() implies entries_map(s).dom().contains((#[trigger] s[i]).uuid@) by {
            if i < s.len() - 1 {
                assert(s.drop_last()[i] == s[i]);
            }
        }
        assert forall|id: Seq<char>| #[trigger]
            entries_map(s).dom().contains(id) implies exists|i: int|
            0 <= i < s.len() && (#[trigger] s[i]).uuid@ == id by {
            if id == s.last().uuid@ {
                assert(s[s.len() - 1].uuid@ == id);
            } else {
                assert(entries_map(s.drop_last()).dom().contains(id));
                let i = choose|i: int|
                    0 <= i < s.drop_last().len() && (#[trigger] s.drop_last()[i]).uuid@ == id;
                assert(s[i].uuid@ == id);
            }
        }
    }
}

/// In a duplicate-free entry list, the map sends each entry's identity to
/// that entry's state.
proof fn lemma_entries_get(s: Seq<CardEntry>, i: int)
    requires
        entries_unique(s),
        0 <= i < s.len(),
    ensures
        entries_map(s).dom().contains(s[i].uuid@),
        entries_map(s)[s[i].uuid@] == s[i].state,
    decreases s.len(),
{
    if i == s.len() - 1 {
    } else {
        assert(s.drop_last()[i] == s[i]);
        lemma_entries_get(s.drop_last(), i);
        assert(s[i].uuid@ != s.last().uuid@);
    }
}

/// Appending a fresh entry inserts it into the map and keeps the list
/// duplicate-free.
proof fn lemma_entries_push(s: Seq<CardEntry>, e: CardEntry)
    requires
        entries_unique(s),
        forall|j: int| 0 <= j < s.len() ==> (#[trigger] s[j]).uuid@ != e.uuid@,
    ensures
        (entries_map(s.push(e)) == entries_map(s).insert(e.uuid@, e.state)),
        entries_unique(s.push(e)),
{
    assert(s.push(e).drop_last() =~= s);
    assert(s.push(e).last() == e);
}

/// Replacing an entry by one with the same identity updates exactly that
/// identity in the map and keeps the list duplicate-free.
proof fn lemma_entries_update(s: Seq<CardEntry>, i: int, e: CardEntry)
    requires
        entries_unique(s),
        0 <= i < s.len(),
        e.uuid@ == s[i].uuid@,
    ensures
        (entries_map(s.update(i, e)) == entries_map(s).insert(e.uuid@, e.state)),
        entries_unique(s.update(i, e)),
    decreases s.len(),
{
    if i == s.len() - 1 {
        assert(s.update(i, e).drop_last() =~= s.drop_last());
        assert(s.update(i, e).last() == e);
        assert(entries_map(s.drop_last()).insert(s.last().uuid@, s.last().state).insert(
            e.uuid@,
            e.state,
        ) =~= entries_map(s.drop_last()).insert(e.uuid@, e.state));
    } else {
        lemma_entries_update(s.drop_last(), i, e);
        assert(s.update(i, e).drop_last() =~= s.drop_last().update(i, e));
        assert(s.update(i, e).last() == s.last());
        assert(s.drop_last()[i] == s[i]);
        assert(s[i].uuid@ != s.last().uuid@);
        assert(entries_map(s.drop_last()).insert(e.uuid@, e.state).insert(
            s.last().uuid@,
            s.last().state,
        ) =~= entries_map(s.drop_last()).insert(s.last().uuid@, s.last().state).insert(
            e.uuid@,
            e.state,
        ));
    }
}

/// Removing an entry removes exactly its identity from the map and keeps
/// the list duplicate-free.
proof fn lemma_entries_remove(s: Seq<CardEntry>, i: int)
    requires
        entries_unique(s),
        0 <= i < s.len(),
    ensures
        (entries_map(s.remove(i)) == entries_map(s).remove(s[i].uuid@)),
        entries_unique(s.remove(i)),
    decreases s.len(),
{
    lemma_entries_dom(s.drop_last());
    if i == s.len() - 1 {
        assert(s.remove(i) =~= s.drop_last());
        assert forall|j: int| 0 <= j < s.drop_last().len() implies (#[trigger] s.drop_last()[j]).uuid@
            != s[i].uuid@ by {
            assert(s.drop_last()[j] == s[j]);
        }
        assert(!entries_map(s.drop_last()).dom().contains(s[i].uuid@));
        assert(entries_map(s.drop_last()).insert(s.last().uuid@, s.last().state).remove(
            s[i].uuid@,
        ) =~= entries_map(s.drop_last()));
    } else {
        lemma_entries_remove(s.drop_last(), i);
        assert(s.remove(i).drop_last() =~= s.drop_last().remove(i));
        assert(s.remove(i).last() == s.last());
        assert(s.drop_last()[i] == s[i]);
        assert(s[i].uuid@ != s.last().uuid@);
        assert(entries_map(s.drop_last()).remove(s[i].uuid@).insert(
            s.last().uuid@,
            s.last().state,
        ) =~= entries_map(s.drop_last()).insert(s.last().uuid@, s.last().state).remove(
            s[i].uuid@,
        ));
    }
}

/// Finds the position of an identity in the repeat queue.
fn find_repeat_index(v: &VecDeque<RepeatEntry>, uuid: &UuidString) -> (r: Option<usize>)
    ensures
        match r {
            Some(i) => i < v@.len() && v@[i as int].uuid@ == uuid@,
            None => forall|j: int| 0 <= j < v@.len() ==> (#[trigger] v@[j]).uuid@ != uuid@,
        },
{
    let mut i: usize = 0;
    while i < v.len()
        invariant
            i <= v@.len(),
            forall|j: int| 0 <= j < i ==> (#[trigger] v@[j]).uuid@ != uuid@,
        decreases v@.len() - i,
    {
        if v[i].uuid == *uuid {
            return Some(i);
        }
        i += 1;
    }
    None
}

/// The deck of cards under review: the engine object a session owns.
pub struct SuperMemoDeck {
    /// State information for tracking each card's difficulty and next
    /// attempt time.
    card_states: Vec<CardEntry>,
    /// The primary queue, ordered by next-attempt time from `card_states`.
    /// An attempt scoring `CorrectAfterHesitation` or better keeps the card
    /// here at its new time; anything worse moves the card to `repeat_deck`.
    sorted_deck: TimeQueue,
    /// Cards to repeat this session until they score at least
    /// `CorrectAfterHesitation`. An entry older than six hours is handed
    /// back to `sorted_deck` by `draw_card`. Attempts on repeat cards do not
    /// touch their `card_states` entry.
    repeat_deck: VecDeque<RepeatEntry>,
}

impl View for SuperMemoDeck {
    type V = DeckView;

    closed spec fn view(&self) -> DeckView {
        DeckView {
            states: entries_map(self.card_states@),
            primary: pq_times(self.sorted_deck),
            repeat: repeat_view(self.repeat_deck@),
        }
    }
}

/// Finds the position of an identity in the entry list.
fn find_entry_index(v: &Vec<CardEntry>, uuid: &UuidString) -> (r: Option<usize>)
    ensures
        match r {
            Some(i) => i < v@.len() && v@[i as int].uuid@ == uuid@,
            None => forall|j: int| 0 <= j < v@.len() ==> (#[trigger] v@[j]).uuid@ != uuid@,
        },
{
    let mut i: usize = 0;
    while i < v.len()
        invariant
            i <= v@.len(),
            forall|j: int| 0 <= j < i ==> (#[trigger] v@[j]).uuid@ != uuid@,
        decreases v@.len() - i,
    {
        if v[i].uuid == *uuid {
            return Some(i);
        }
        i += 1;
    }
    None
}

impl SuperMemoDeck {
    /// The engine's invariant: its view satisfies the deck invariant and
    /// its card list holds each identity at most once. Established by
    /// `new` and preserved by every operation.
    pub closed spec fn wf(&self) -> bool {
        &&& entries_unique(self.card_states@)
        &&& self@.wf()
    }

    /// The entry the primary queue currently shows first: the earliest-due
    /// card, with ties broken by the queue.
    pub closed spec fn primary_front(&self) -> Option<(Seq<char>, u64)> {
        pq_front(self.sorted_deck)
    }

    /// Whether `id` is the card the primary queue currently shows first.
    pub open spec fn at_primary_front(&self, id: Seq<char>) -> bool {
        match self.primary_front() {
            Some(f) => f.0 == id,
            None => false,
        }
    }

    /// A well-formed deck has a well-formed view.
    pub proof fn lemma_view_wf(&self)
        requires
            self.wf(),
        ensures
            self@.wf(),
    {
    }

    /// An empty deck: nothing tracked, both queues empty.
    pub fn new() -> (deck: SuperMemoDeck)
        ensures
            deck.wf(),
            (deck@.states == Map::<Seq<char>, CardState>::empty()),
            (deck@.primary == Map::<Seq<char>, u64>::empty()),
            (deck@.repeat == Seq::<(Seq<char>, u64)>::empty()),
    {
        let deck = SuperMemoDeck {
            card_states: Vec::new(),
            sorted_deck: pq_new(),
            repeat_deck: VecDeque::new(),
        };
        proof {
            assert(deck@.repeat =~= Seq::<(Seq<char>, u64)>::empty());
        }
        deck
    }

    /// Starts tracking a card created at `created`: seeds its state and
    /// schedules its first review at the creation time. Fails, changing
    /// nothing, exactly when the identity is already tracked.
    pub fn new_card(&mut self, uuid: UuidString, created: u64) -> (r: Result<(), DeckError>)
        requires
            old(self).wf(),
        ensures
            final(self).wf(),
            old(self)@.states.dom().contains(uuid@) ==> r == Err::<(), DeckError>(
                DeckError::DuplicateCard,
            ) && final(self)@ == old(self)@,
            !old(self)@.states.dom().contains(uuid@) ==> r == Ok::<(), DeckError>(())
                && (final(self)@.states == old(self)@.states.insert(
                uuid@,
                spec_initial_state(created),
            )) && (final(self)@.primary == old(self)@.primary.insert(uuid@, created))
                && final(self)@.repeat == old(self)@.repeat,
    {
        proof {
            lemma_entries_dom(self.card_states@);
        }
        match find_entry_index(&self.card_states, &uuid) {
            Some(_) => Err(DeckError::DuplicateCard),
            None => {
                let ghost v0 = self@;
                let state = CardState::new(created);
                proof {
                    lemma_entries_push(
                        self.card_states@,
                        CardEntry { uuid: uuid, state: state },
                    );
                }
                let entry_uuid = uuid.clone();
                self.card_states.push(CardEntry { uuid: entry_uuid, state });
                let prev = pq_push(&mut self.sorted_deck, uuid, created);
                proof {
                    assert(!v0.states.dom().contains(uuid@));
                    assert(prev is None);
                    assert(self@.states == v0.states.insert(uuid@, spec_initial_state(created)));
                    assert(self@.primary == v0.primary.insert(uuid@, created));
                    assert(self@.repeat == v0.repeat);
                    assert forall|id: Seq<char>| #[trigger]
                        self@.primary.dom().contains(id) implies self@.states.dom().contains(id)
                        && self@.primary[id] == self@.states[id].next_attempt by {
                        if id != uuid@ {
                            assert(v0.primary.dom().contains(id));
                        }
                    }
                    assert forall|i: int| 0 <= i < self@.repeat.len() implies self@.states.dom()
                        .contains((#[trigger] self@.repeat[i]).0) && !self@.primary.dom().contains(
                        self@.repeat[i].0,
                    ) by {
                        assert(v0.states.dom().contains(v0.repeat[i].0));
                    }
                    assert forall|id: Seq<char>| #[trigger]
                        self@.states.dom().contains(id) implies self@.states[id].wf() && (
                    self@.primary.dom().contains(id) || repeat_contains(self@.repeat, id)) by {
                        if id != uuid@ {
                            assert(v0.states.dom().contains(id));
                        }
                    }
                }
                Ok(())
            },
        }
    }

    /// Stops tracking a card: drops its state and removes it from whichever
    /// queue holds it. Deleting an untracked identity is not an error; the
    /// result says whether a card was actually removed.
    pub fn delete_card(&mut self, uuid: &UuidString) -> (removed: bool)
        requires
            old(self).wf(),
        ensures
            final(self).wf(),
            removed == old(self)@.states.dom().contains(uuid@),
            (final(self)@.states == old(self)@.states.remove(uuid@)),
            (final(self)@.primary == old(self)@.primary.remove(uuid@)),
            !repeat_contains(final(self)@.repeat, uuid@),
            repeat_contains(old(self)@.repeat, uuid@) ==> exists|i: int|
                0 <= i < old(self)@.repeat.len() && (#[trigger] old(self)@.repeat[i]).0 == uuid@
                    && final(self)@.repeat == old(self)@.repeat.remove(i),
            !repeat_contains(old(self)@.repeat, uuid@) ==> final(self)@.repeat == old(self)@.repeat,
    {
        let ghost v0 = self@;
        proof {
            lemma_entries_dom(self.card_states@);
        }
        let prev = pq_remove(&mut self.sorted_deck, uuid);
        proof {
            if !v0.primary.dom().contains(uuid@) {
                assert(self@.primary =~= v0.primary.remove(uuid@));
            }
        }
        match find_repeat_index(&self.repeat_deck, uuid) {
            Some(i) => {
                self.repeat_deck.remove(i);
                proof {
                    assert(self@.repeat =~= v0.repeat.remove(i as int));
                    assert(v0.repeat[i as int].0 == uuid@);
                }
            },
            None => {
                proof {
                    assert(forall|j: int|
                        0 <= j < v0.repeat.len() ==> (#[trigger] v0.repeat[j]).0 != uuid@);
                }
            },
        }
        let removed = match find_entry_index(&self.card_states, uuid) {
            Some(i) => {
                proof {
                    lemma_entries_remove(self.card_states@, i as int);
                }
                self.card_states.remove(i);
                true
            },
            None => {
                proof {
                    assert(!v0.states.dom().contains(uuid@));
                    assert(self@.states =~= v0.states.remove(uuid@));
                }
                false
            },
        };
        proof {
            lemma_entries_dom(self.card_states@);
            let vf = self@;
            assert forall|j: int| 0 <= j < vf.repeat.len() implies (#[trigger] vf.repeat[j]).0
                != uuid@ by {
                if repeat_contains(v0.repeat, uuid@) {
                    let i = choose|i: int| 0 <= i < v0.repeat.len() && (#[trigger] v0.repeat[i]).0
                        == uuid@;
                    if j < i {
                        assert(vf.repeat[j] == v0.repeat[j]);
                    } else {
                        assert(vf.repeat[j] == v0.repeat[j + 1]);
                    }
                }
            }
            assert forall|id: Seq<char>| #[trigger] vf.states.dom().contains(id) implies
                vf.states[id].wf() && (vf.primary.dom().contains(id) || repeat_contains(
                vf.repeat,
                id,
            )) by {
                assert(v0.states.dom().contains(id));
                assert(id != uuid@);
                if repeat_contains(v0.repeat, id) {
                    let k = choose|k: int| 0 <= k < v0.repeat.len() && (#[trigger] v0.repeat[k]).0
                        == id;
                    if vf.repeat == v0.repeat {
                        assert(repeat_contains(vf.repeat, id));
                    } else {
                        let i = choose|i: int|
                            0 <= i < v0.repeat.len() && (#[trigger] v0.repeat[i]).0 == uuid@
                                && vf.repeat == v0.repeat.remove(i);
                        if k < i {
                            assert(vf.repeat[k] == v0.repeat[k]);
                            assert(repeat_contains(vf.repeat, id));
                        } else if k > i {
                            assert(vf.repeat[k - 1] == v0.repeat[k]);
                            assert(repeat_contains(vf.repeat, id));
                        }
                    }
                }
            }
        }
        removed
    }

    /// Applies one attempt record. The identity must currently be at the
    /// front of either queue — attempts are only accepted for the card most
    /// recently returned by `draw_card` — and anything else fails without
    /// mutating the deck.
    ///
    /// From the primary queue, the interval model reruns on the card's
    /// state, and a quality below `CorrectAfterHesitation` demotes the card
    /// to the repeat queue. From the repeat queue, the card state is not
    /// touched: a quality of at least `CorrectAfterHesitation` promotes the
    /// card back to the primary queue, anything lower leaves it at the front
    /// for re-presentation.
    pub fn insert_attempt(&mut self, attempt: &AttemptRecord) -> (r: Result<(), DeckError>)
        requires
            old(self).wf(),
        ensures
            final(self).wf(),
            old(self).at_primary_front(attempt.uuid@) ==> r == Ok::<(), DeckError>(()) && final(self)@ == spec_apply_primary(old(self)@, attempt.uuid@, attempt.time, attempt.quality),
            at_repeat_front(old(self)@, attempt.uuid@) ==> r == Ok::<(), DeckError>(()) && final(self)@ == spec_apply_repeat(old(self)@, attempt.quality),
            !old(self).at_primary_front(attempt.uuid@) && !at_repeat_front(
                old(self)@,
                attempt.uuid@,
            ) ==> r == Err::<(), DeckError>(DeckError::UnexpectedAttempt) && final(self)@ == old(self)@,
    {
        let ghost v0 = self@;
        let from_sorted_deck = match pq_peek(&self.sorted_deck) {
            Some((front_uuid, _time)) => front_uuid == attempt.uuid,
            None => false,
        };
        proof {
            assert(from_sorted_deck == self.at_primary_front(attempt.uuid@));
        }
        if from_sorted_deck {
            proof {
                lemma_entries_dom(self.card_states@);
            }
            let found = find_entry_index(&self.card_states, &attempt.uuid);
            match found {
                Some(idx) => {
                    proof {
                        lemma_entries_get(self.card_states@, idx as int);
                    }
                    let mut st = self.card_states[idx].state;
                    st.update(attempt);
                    if attempt.quality.score() >= 4 {
                        proof {
                            lemma_entries_update(
                                self.card_states@,
                                idx as int,
                                CardEntry { uuid: attempt.uuid, state: st },
                            );
                        }
                        let entry_uuid = attempt.uuid.clone();
                        self.card_states[idx] = CardEntry { uuid: entry_uuid, state: st };
                        let _prev = pq_change_priority(
                            &mut self.sorted_deck,
                            &attempt.uuid,
                            st.next_attempt,
                        );
                        proof {
                            assert(self@ == spec_apply_primary(
                                v0,
                                attempt.uuid@,
                                attempt.time,
                                attempt.quality,
                            ));
                            lemma_primary_pass_wf(v0, attempt.uuid@, attempt.time, attempt.quality);
                        }
                    } else {
                        self.sorted_pop_to_repeat(&attempt.uuid, attempt.time);
                        proof {
                            lemma_entries_update(
                                self.card_states@,
                                idx as int,
                                CardEntry { uuid: attempt.uuid, state: st },
                            );
                        }
                        let entry_uuid = attempt.uuid.clone();
                        self.card_states[idx] = CardEntry { uuid: entry_uuid, state: st };
                        proof {
                            assert(self@ == spec_apply_primary(
                                v0,
                                attempt.uuid@,
                                attempt.time,
                                attempt.quality,
                            ));
                            lemma_demotion_law(v0, attempt.uuid@, attempt.time, attempt.quality);
                        }
                    }
                    return Ok(());
                },
                None => {
                    proof {
                        assert(false);
                    }
                    return Err(DeckError::UnexpectedAttempt);
                },
            }
        }
        // Repeat-queue attempts do not update the card state, but can move
        // the card out of the repeat queue.
        let from_repeat_deck = if self.repeat_deck.len() > 0 {
            self.repeat_deck[0].uuid == attempt.uuid
        } else {
            false
        };
        if from_repeat_deck {
            if attempt.quality.score() >= 4 {
                proof {
                    lemma_entries_dom(self.card_states@);
                    assert(v0.repeat[0] == (
                        self.repeat_deck@[0].uuid@,
                        self.repeat_deck@[0].moved,
                    ));
                    assert(v0.states.dom().contains(v0.repeat[0].0));
                    assert(v0.states.dom().contains(attempt.uuid@));
                }
                self.repeat_front_to_sorted(&attempt.uuid);
                proof {
                    assert(self@ == spec_apply_repeat(v0, attempt.quality));
                    lemma_promotion_law(v0, attempt.quality);
                }
            }
            return Ok(());
        }
        Err(DeckError::UnexpectedAttempt)
    }

    /// The card, if any, eligible for presentation at time `now`. A due
    /// primary-queue card always wins (and nothing is touched); otherwise
    /// stale repeat-queue entries are drained back into the primary queue
    /// and the front of what remains, still within the repeat window, is
    /// returned. The card is not removed: removal or rescheduling happens
    /// only through `insert_attempt`.
    #[verifier::loop_isolation(false)]
    pub fn draw_card(&mut self, now: u64) -> (r: Option<UuidString>)
        requires
            old(self).wf(),
        ensures
            final(self).wf(),
            final(self)@.states == old(self)@.states,
            r == None::<UuidString> ==> forall|id: Seq<char>| #[trigger]
                old(self)@.primary.dom().contains(id) ==> old(self)@.primary[id] > now,
            (match old(self).primary_front() {
                Some(f) => f.1 <= now,
                None => false,
            }) ==> *final(self) == *old(self) && (match r {
                Some(u) => old(self).at_primary_front(u@) && old(self)@.primary.dom().contains(u@)
                    && old(self)@.primary[u@] <= now,
                None => false,
            }),
            !(match old(self).primary_front() {
                Some(f) => f.1 <= now,
                None => false,
            }) ==> final(self)@ == spec_drain(old(self)@, now) && (match r {
                Some(u) => at_repeat_front(final(self)@, u@) && final(self)@.repeat[0].1
                    + REPEAT_WINDOW_SECONDS > now,
                None => final(self)@.repeat.len() == 0,
            }),
    {
        // If a primary-queue card is due, return it (without popping): its
        // priority is updated, or it is popped, only by `insert_attempt`.
        match pq_peek(&self.sorted_deck) {
            Some((uuid, next_challenge_time)) => {
                if next_challenge_time <= now {
                    return Some(uuid);
                }
            },
            None => {},
        }
        // No primary-queue card is due: check the repeat queue, handing
        // entries that aged out of the repeat window back to normal
        // scheduling.
        let ghost v0 = self@;
        let ghost total = stale_prefix(v0.repeat, now);
        let ghost mut j: int = 0;
        proof {
            lemma_stale_prefix_bound(v0.repeat, now);
            assert(v0.repeat.skip(0) =~= v0.repeat);
        }
        while self.repeat_deck.len() > 0
            invariant
                self.wf(),
                self@.states == v0.states,
                self@.repeat == v0.repeat.skip(j),
                (self@.primary == primary_with_requeued(v0.states, v0.primary, v0.repeat, j)),
                total == j + stale_prefix(self@.repeat, now),
                0 <= j <= v0.repeat.len(),
            decreases self.repeat_deck@.len(),
        {
            let front_uuid = self.repeat_deck[0].uuid.clone();
            let front_moved = self.repeat_deck[0].moved;
            let fresh = if now >= REPEAT_WINDOW_SECONDS {
                front_moved > now - REPEAT_WINDOW_SECONDS
            } else {
                true
            };
            if fresh {
                proof {
                    assert(stale_prefix(self@.repeat, now) == 0);
                    assert(self@ == spec_drain(v0, now));
                    assert(self@.repeat[0].0 == front_uuid@);
                }
                return Some(front_uuid);
            }
            let ghost vc = self@;
            proof {
                lemma_entries_dom(self.card_states@);
                assert(vc.repeat[0] == (self.repeat_deck@[0].uuid@, self.repeat_deck@[0].moved));
                assert(vc.states.dom().contains(vc.repeat[0].0));
            }
            self.repeat_front_to_sorted(&front_uuid);
            proof {
                assert(self@ == spec_promote(vc));
                lemma_promote_wf(vc);
                assert(self@.repeat =~= v0.repeat.skip(j + 1));
                assert(v0.repeat.skip(j)[0] == v0.repeat[j]);
                assert(self@.primary == primary_with_requeued(
                    v0.states,
                    v0.primary,
                    v0.repeat,
                    j + 1,
                ));
                assert(stale_prefix(vc.repeat, now) == 1 + stale_prefix(
                    vc.repeat.drop_first(),
                    now,
                ));
                assert(vc.repeat.drop_first() =~= self@.repeat);
                j = j + 1;
            }
        }
        proof {
            assert(self@.repeat.len() == 0);
            assert(stale_prefix(self@.repeat, now) == 0);
            assert(self@ == spec_drain(v0, now));
        }
        None
    }

    /// Moves the front card of the repeat queue back into the primary queue
    /// at its current next-attempt time.
    fn repeat_front_to_sorted(&mut self, uuid: &UuidString)
        requires
            old(self).repeat_deck@.len() > 0,
            old(self).repeat_deck@[0].uuid@ == uuid@,
            entries_unique(old(self).card_states@),
            entries_map(old(self).card_states@).dom().contains(uuid@),
        ensures
            final(self).card_states == old(self).card_states,
            (pq_times(final(self).sorted_deck) == pq_times(old(self).sorted_deck).insert(
                uuid@,
                entries_map(old(self).card_states@)[uuid@].next_attempt,
            )),
            repeat_view(final(self).repeat_deck@) == repeat_view(
                old(self).repeat_deck@,
            ).drop_first(),
    {
        match self.repeat_deck.pop_front() {
            Some(front) => {
                proof {
                    lemma_entries_dom(self.card_states@);
                    assert(repeat_view(self.repeat_deck@) =~= repeat_view(
                        old(self).repeat_deck@,
                    ).drop_first());
                }
                match find_entry_index(&self.card_states, &front.uuid) {
                    Some(i) => {
                        proof {
                            lemma_entries_get(self.card_states@, i as int);
                        }
                        let next = self.card_states[i].state.next_attempt;
                        let _prev = pq_push(&mut self.sorted_deck, front.uuid, next);
                    },
                    None => {
                        proof {
                            assert(false);
                        }
                    },
                }
            },
            None => {
                proof {
                    assert(false);
                }
            },
        }
    }

    /// Pops the front card of the primary queue and pushes it onto the back
    /// of the repeat queue, stamped with the time it moved.
    fn sorted_pop_to_repeat(&mut self, uuid: &UuidString, now: u64)
        requires
            match pq_front(old(self).sorted_deck) {
                Some(f) => f.0 == uuid@,
                None => false,
            },
        ensures
            final(self).card_states == old(self).card_states,
            (pq_times(final(self).sorted_deck) == pq_times(old(self).sorted_deck).remove(uuid@)),
            repeat_view(final(self).repeat_deck@) == repeat_view(old(self).repeat_deck@).push(
                (uuid@, now),
            ),
    {
        match pq_pop(&mut self.sorted_deck) {
            Some((popped_uuid, _time)) => {
                self.repeat_deck.push_back(RepeatEntry { uuid: popped_uuid, moved: now });
                proof {
                    assert(repeat_view(self.repeat_deck@) =~= repeat_view(
                        old(self).repeat_deck@,
                    ).push((uuid@, now)));
                }
            },
            None => {
                proof {
                    assert(false);
                }
            },
        }
    }

    /// A read-only look at a tracked card's state.
    pub fn card_state(&self, uuid: &UuidString) -> (r: Option<&CardState>)
        requires
            self.wf(),
        ensures
            match r {
                Some(s) => self@.states.dom().contains(uuid@) && *s == self@.states[uuid@],
                None => !self@.states.dom().contains(uuid@),
            },
    {
        proof {
            lemma_entries_dom(self.card_states@);
        }
        match find_entry_index(&self.card_states, uuid) {
            Some(i) => {
                proof {
                    lemma_entries_get(self.card_states@, i as int);
                }
                Some(&self.card_states[i].state)
            },
            None => None,
        }
    }
}

} // verus!
