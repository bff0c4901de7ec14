//! Scenario tests: exact interval-model values, queue transitions, errors
//! and edge cases, and the ledger replay path.

use brayne::card::AttemptQuality;
use brayne::card::AttemptRecord;
use brayne::card::BasicCard;
use brayne::card::Card;
use brayne::card::CardContents;
use brayne::ledger::CardCatalog;
use brayne::ledger::LedgerEntry;
use brayne::supermemo::DeckError;
use brayne::supermemo::SuperMemoDeck;

const DAY: u64 = 24 * 60 * 60;
const HOUR: u64 = 60 * 60;
const T0: u64 = 1_700_000_000;

fn attempt(uuid: &str, time: u64, quality: AttemptQuality) -> AttemptRecord {
    AttemptRecord { uuid: uuid.to_string(), time, quality }
}

// Two perfect recalls in a row: one day out, then six days out, with the
// effort factor climbing 2.5 -> 2.6 -> 2.7 (held in hundredths).
#[test]
fn two_perfect_recalls_schedule_and_effort() {
    let mut deck = SuperMemoDeck::new();
    deck.new_card("c".to_string(), T0).unwrap();

    deck.insert_attempt(&attempt("c", T0, AttemptQuality::Perfect)).unwrap();
    {
        let state = deck.card_state(&"c".to_string()).expect("tracked");
        assert_eq!(state.next_attempt, T0 + DAY);
        assert_eq!(state.recall_count, 1);
        assert_eq!(state.effort_factor, 260);
    }

    deck.insert_attempt(&attempt("c", T0 + DAY, AttemptQuality::Perfect)).unwrap();
    {
        let state = deck.card_state(&"c".to_string()).expect("tracked");
        assert_eq!(state.next_attempt, T0 + DAY + 6 * DAY);
        assert_eq!(state.recall_count, 2);
        assert_eq!(state.effort_factor, 270);
    }
}

// A failing attempt demotes the card to the repeat queue; a passing repeat
// attempt promotes it back; then nothing is due until its next time.
#[test]
fn demotion_and_promotion_round_trip() {
    let mut deck = SuperMemoDeck::new();
    deck.new_card("c".to_string(), T0).unwrap();

    assert_eq!(deck.draw_card(T0 + DAY), Some("c".to_string()));
    deck.insert_attempt(&attempt("c", T0 + DAY, AttemptQuality::IncorrectButEasyRecall))
        .unwrap();
    // Still presented, now from the repeat queue.
    assert_eq!(deck.draw_card(T0 + DAY), Some("c".to_string()));
    deck.insert_attempt(&attempt("c", T0 + DAY, AttemptQuality::Perfect)).unwrap();
    // Promoted back to the primary queue; nothing is due right now.
    assert_eq!(deck.draw_card(T0 + DAY), None);
}

// A repeat attempt never touches the card's state.
#[test]
fn repeat_attempt_leaves_state_unchanged() {
    let mut deck = SuperMemoDeck::new();
    deck.new_card("c".to_string(), T0).unwrap();
    deck.insert_attempt(&attempt("c", T0, AttemptQuality::Blackout)).unwrap();
    let before = *deck.card_state(&"c".to_string()).unwrap();

    // Failing and passing repeat attempts both leave the state alone.
    deck.insert_attempt(&attempt("c", T0 + HOUR, AttemptQuality::IncorrectButRemembered))
        .unwrap();
    assert_eq!(*deck.card_state(&"c".to_string()).unwrap(), before);
    deck.insert_attempt(&attempt("c", T0 + HOUR, AttemptQuality::CorrectAfterHesitation))
        .unwrap();
    assert_eq!(*deck.card_state(&"c".to_string()).unwrap(), before);
}

// A still-failing repeat attempt leaves the card at the repeat-queue front.
#[test]
fn failing_repeat_attempt_keeps_card_at_front() {
    let mut deck = SuperMemoDeck::new();
    deck.new_card("c".to_string(), T0).unwrap();
    deck.insert_attempt(&attempt("c", T0, AttemptQuality::Blackout)).unwrap();

    assert_eq!(deck.draw_card(T0), Some("c".to_string()));
    deck.insert_attempt(&attempt("c", T0, AttemptQuality::IncorrectButRemembered)).unwrap();
    assert_eq!(deck.draw_card(T0), Some("c".to_string()));
}

// A repeat-queue entry older than six hours is handed back to the primary
// queue by draw_card, without any attempt.
#[test]
fn stale_repeat_entry_returns_to_primary_queue() {
    let mut deck = SuperMemoDeck::new();
    deck.new_card("c".to_string(), T0).unwrap();
    deck.insert_attempt(&attempt("c", T0, AttemptQuality::Blackout)).unwrap();

    // Within the window the card is still offered for re-drilling.
    assert_eq!(deck.draw_card(T0 + 5 * HOUR), Some("c".to_string()));
    // Past the window it is back on normal scheduling: due at T0 + 1 day.
    assert_eq!(deck.draw_card(T0 + 7 * HOUR), None);
    assert_eq!(deck.draw_card(T0 + DAY), Some("c".to_string()));
}

// Exactly at the six-hour boundary the entry counts as stale.
#[test]
fn repeat_window_boundary_is_stale() {
    let mut deck = SuperMemoDeck::new();
    deck.new_card("c".to_string(), T0).unwrap();
    deck.insert_attempt(&attempt("c", T0, AttemptQuality::Blackout)).unwrap();
    assert_eq!(deck.draw_card(T0 + 6 * HOUR), None);
}

// The effort factor never goes below 1.3 (130 hundredths), however badly
// the card keeps going.
#[test]
fn effort_factor_floor_holds() {
    let mut deck = SuperMemoDeck::new();
    deck.new_card("c".to_string(), T0).unwrap();

    let mut now = T0;
    let expected = [170u64, 130, 130, 130];
    for ef in expected {
        deck.insert_attempt(&attempt("c", now, AttemptQuality::Blackout)).unwrap();
        assert_eq!(deck.card_state(&"c".to_string()).unwrap().effort_factor, ef);
        // Clear the repeat queue and move to the next due time.
        deck.insert_attempt(&attempt("c", now, AttemptQuality::Perfect)).unwrap();
        now += DAY;
        assert_eq!(deck.draw_card(now), Some("c".to_string()));
    }
}

// The streak counter grows by one per pass and resets to zero on a failure.
#[test]
fn recall_count_streak_and_reset() {
    let mut deck = SuperMemoDeck::new();
    deck.new_card("c".to_string(), T0).unwrap();

    deck.insert_attempt(&attempt("c", T0, AttemptQuality::CorrectSeriousDifficulty)).unwrap();
    assert_eq!(deck.card_state(&"c".to_string()).unwrap().recall_count, 1);
    // Quality 3 demotes even though it passes; clear the repeat queue.
    deck.insert_attempt(&attempt("c", T0, AttemptQuality::Perfect)).unwrap();

    deck.insert_attempt(&attempt("c", T0 + DAY, AttemptQuality::Perfect)).unwrap();
    assert_eq!(deck.card_state(&"c".to_string()).unwrap().recall_count, 2);

    deck.insert_attempt(&attempt("c", T0 + 7 * DAY, AttemptQuality::Blackout)).unwrap();
    assert_eq!(deck.card_state(&"c".to_string()).unwrap().recall_count, 0);
}

// After the second pass, intervals stretch by the effort factor: with three
// perfect recalls the third interval is 6 days times 2.8.
#[test]
fn third_interval_stretches_by_effort_factor() {
    let mut deck = SuperMemoDeck::new();
    deck.new_card("c".to_string(), T0).unwrap();
    deck.insert_attempt(&attempt("c", T0, AttemptQuality::Perfect)).unwrap();
    deck.insert_attempt(&attempt("c", T0 + DAY, AttemptQuality::Perfect)).unwrap();
    deck.insert_attempt(&attempt("c", T0 + 7 * DAY, AttemptQuality::Perfect)).unwrap();

    let state = deck.card_state(&"c".to_string()).unwrap();
    assert_eq!(state.effort_factor, 280);
    // Prior interval 6 days, stretched by 2.80: 1451520 seconds.
    assert_eq!(state.next_attempt, T0 + 7 * DAY + 6 * DAY * 280 / 100);
}

#[test]
fn duplicate_card_is_rejected() {
    let mut deck = SuperMemoDeck::new();
    deck.new_card("c".to_string(), T0).unwrap();
    let before = *deck.card_state(&"c".to_string()).unwrap();
    assert_eq!(deck.new_card("c".to_string(), T0 + DAY), Err(DeckError::DuplicateCard));
    // Nothing changed.
    assert_eq!(*deck.card_state(&"c".to_string()).unwrap(), before);
}

#[test]
fn attempt_for_wrong_card_is_rejected() {
    let mut deck = SuperMemoDeck::new();
    deck.new_card("a".to_string(), T0).unwrap();
    deck.new_card("b".to_string(), T0 + 1).unwrap();

    // "b" is tracked but not at the front of either queue.
    assert_eq!(
        deck.insert_attempt(&attempt("b", T0 + DAY, AttemptQuality::Perfect)),
        Err(DeckError::UnexpectedAttempt)
    );
    // An untracked identity is rejected the same way.
    assert_eq!(
        deck.insert_attempt(&attempt("nope", T0 + DAY, AttemptQuality::Perfect)),
        Err(DeckError::UnexpectedAttempt)
    );
    // An attempt on an empty deck is rejected too.
    let mut empty = SuperMemoDeck::new();
    assert_eq!(
        empty.insert_attempt(&attempt("a", T0, AttemptQuality::Perfect)),
        Err(DeckError::UnexpectedAttempt)
    );
}

#[test]
fn delete_card_is_idempotent_and_empties_queues() {
    let mut deck = SuperMemoDeck::new();
    assert_eq!(deck.delete_card(&"c".to_string()), false);

    deck.new_card("c".to_string(), T0).unwrap();
    assert_eq!(deck.delete_card(&"c".to_string()), true);
    assert_eq!(deck.delete_card(&"c".to_string()), false);
    assert_eq!(deck.draw_card(T0 + DAY), None);
    assert!(deck.card_state(&"c".to_string()).is_none());

    // Deleting a card that sits in the repeat queue clears it from there.
    deck.new_card("c".to_string(), T0).unwrap();
    deck.insert_attempt(&attempt("c", T0, AttemptQuality::Blackout)).unwrap();
    assert_eq!(deck.delete_card(&"c".to_string()), true);
    assert_eq!(deck.draw_card(T0), None);
}

#[test]
fn draw_respects_creation_time() {
    let mut deck = SuperMemoDeck::new();
    assert_eq!(deck.draw_card(T0), None);
    deck.new_card("c".to_string(), T0).unwrap();
    assert_eq!(deck.draw_card(T0 - 1), None);
    assert_eq!(deck.draw_card(T0), Some("c".to_string()));
}

// The repeat queue is first-in, first-out.
#[test]
fn repeat_queue_is_fifo() {
    let mut deck = SuperMemoDeck::new();
    deck.new_card("a".to_string(), T0).unwrap();
    deck.new_card("b".to_string(), T0 + 1).unwrap();

    deck.insert_attempt(&attempt("a", T0 + 2, AttemptQuality::Blackout)).unwrap();
    deck.insert_attempt(&attempt("b", T0 + 3, AttemptQuality::Blackout)).unwrap();

    assert_eq!(deck.draw_card(T0 + 4), Some("a".to_string()));
    deck.insert_attempt(&attempt("a", T0 + 4, AttemptQuality::Perfect)).unwrap();
    assert_eq!(deck.draw_card(T0 + 5), Some("b".to_string()));
}

// Two cards due at the same instant: one of them is drawn, and once it is
// rescheduled the other follows.
#[test]
fn equal_due_times_serve_both_cards() {
    let mut deck = SuperMemoDeck::new();
    deck.new_card("a".to_string(), T0).unwrap();
    deck.new_card("b".to_string(), T0).unwrap();

    let first = deck.draw_card(T0).expect("one of the due cards");
    assert!(first == "a" || first == "b");
    deck.insert_attempt(&attempt(&first, T0, AttemptQuality::Perfect)).unwrap();
    let second = deck.draw_card(T0).expect("the other due card");
    assert_ne!(first, second);
    assert!(second == "a" || second == "b");
}

// Near the top of the time range, scheduling clamps at the largest time
// instead of wrapping around.
#[test]
fn next_attempt_saturates_at_max_time() {
    let late = u64::MAX - 100;
    let mut deck = SuperMemoDeck::new();
    deck.new_card("c".to_string(), late).unwrap();
    deck.insert_attempt(&attempt("c", late, AttemptQuality::Perfect)).unwrap();
    assert_eq!(deck.card_state(&"c".to_string()).unwrap().next_attempt, u64::MAX);
    assert_eq!(deck.draw_card(u64::MAX), Some("c".to_string()));
}

#[test]
fn quality_codes_parse_exactly() {
    assert_eq!(AttemptQuality::from_code("5"), Some(AttemptQuality::Perfect));
    assert_eq!(AttemptQuality::from_code("4"), Some(AttemptQuality::CorrectAfterHesitation));
    assert_eq!(AttemptQuality::from_code("3"), Some(AttemptQuality::CorrectSeriousDifficulty));
    assert_eq!(AttemptQuality::from_code("2"), Some(AttemptQuality::IncorrectButEasyRecall));
    assert_eq!(AttemptQuality::from_code("1"), Some(AttemptQuality::IncorrectButRemembered));
    assert_eq!(AttemptQuality::from_code("0"), Some(AttemptQuality::Blackout));
    assert_eq!(AttemptQuality::from_code("6"), None);
    assert_eq!(AttemptQuality::from_code(""), None);
    assert_eq!(AttemptQuality::from_code("55"), None);
    assert_eq!(AttemptQuality::from_code("x"), None);
}

#[test]
fn quality_scores_are_the_documented_projection() {
    assert_eq!(AttemptQuality::Perfect.score(), 5);
    assert_eq!(AttemptQuality::CorrectAfterHesitation.score(), 4);
    assert_eq!(AttemptQuality::CorrectSeriousDifficulty.score(), 3);
    assert_eq!(AttemptQuality::IncorrectButEasyRecall.score(), 2);
    assert_eq!(AttemptQuality::IncorrectButRemembered.score(), 1);
    assert_eq!(AttemptQuality::Blackout.score(), 0);
}

fn sample_card(uuid: &str, created: u64) -> Card {
    Card {
        uuid: uuid.to_string(),
        created,
        tags: vec!["hippo".to_string(), "family".to_string()],
        card_contents: CardContents::BasicCard(BasicCard {
            question: "What do you call it when Batman skips church?".to_string(),
            answer: "Christian Bale".to_string(),
        }),
    }
}

#[test]
fn ledger_replay_builds_catalog_and_deck() {
    let mut cards = CardCatalog::new();
    let mut deck = SuperMemoDeck::new();

    let card = sample_card("banana-farm", T0);
    brayne::ledger::update_from_ledger(LedgerEntry::NewCard(card.clone()), &mut cards, &mut deck)
        .unwrap();
    assert_eq!(cards.contains_key(&"banana-farm".to_string()), true);
    assert_eq!(*cards.get(&"banana-farm".to_string()).unwrap(), card);

    // Duplicate creation is surfaced and changes nothing.
    assert_eq!(
        brayne::ledger::update_from_ledger(
            LedgerEntry::NewCard(sample_card("banana-farm", T0 + 1)),
            &mut cards,
            &mut deck
        ),
        Err(DeckError::DuplicateCard)
    );
    assert_eq!(*cards.get(&"banana-farm".to_string()).unwrap(), card);

    // Tag updates are accepted and change nothing the scheduler reads.
    brayne::ledger::update_from_ledger(
        LedgerEntry::UpdateTags("banana-farm".to_string(), vec!["new".to_string()]),
        &mut cards,
        &mut deck,
    )
    .unwrap();

    // An attempt flows through to the deck.
    brayne::ledger::update_from_ledger(
        LedgerEntry::Attempt(attempt("banana-farm", T0, AttemptQuality::Perfect)),
        &mut cards,
        &mut deck,
    )
    .unwrap();
    assert_eq!(deck.card_state(&"banana-farm".to_string()).unwrap().recall_count, 1);

    // Deletion clears both structures and is idempotent.
    brayne::ledger::update_from_ledger(
        LedgerEntry::DeleteCard("banana-farm".to_string()),
        &mut cards,
        &mut deck,
    )
    .unwrap();
    assert_eq!(cards.contains_key(&"banana-farm".to_string()), false);
    assert!(deck.card_state(&"banana-farm".to_string()).is_none());
    brayne::ledger::update_from_ledger(
        LedgerEntry::DeleteCard("banana-farm".to_string()),
        &mut cards,
        &mut deck,
    )
    .unwrap();
}

#[test]
fn catalog_insert_replaces_by_identity() {
    let mut cards = CardCatalog::new();
    cards.insert(sample_card("a", T0));
    let replacement = Card {
        uuid: "a".to_string(),
        created: T0 + 5,
        tags: vec![],
        card_contents: CardContents::BasicCard(BasicCard {
            question: "q".to_string(),
            answer: "r".to_string(),
        }),
    };
    cards.insert(replacement.clone());
    assert_eq!(*cards.get(&"a".to_string()).unwrap(), replacement);
    assert_eq!(cards.remove(&"a".to_string()), true);
    assert_eq!(cards.remove(&"a".to_string()), false);
    assert!(cards.get(&"a".to_string()).is_none());
}
