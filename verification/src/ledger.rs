//! Replaying domain events into the engine.
//!
//! State is reconstructed by replaying an ordered sequence of ledger
//! entries — card created, tags updated, card deleted, attempt recorded —
//! into a card catalog and a scheduling deck. Reading and writing the
//! persisted ledger itself is I/O and lives outside the library; this
//! module takes the already-decoded entries.

use vstd::prelude::*;

use crate::card::Card;
use crate::card::UuidString;
use crate::interval::spec_initial_state;
use crate::supermemo::spec_apply_primary;
use crate::supermemo::spec_apply_repeat;
use crate::supermemo::at_repeat_front;
use crate::supermemo::repeat_contains;
use crate::supermemo::DeckError;
use crate::supermemo::SuperMemoDeck;

verus! {

/// One persisted domain event, in the order it happened.
#[derive(Clone, Debug)]
pub enum LedgerEntry {
    NewCard(Card),
    UpdateTags(UuidString, Vec<String>),
    DeleteCard(UuidString),
    Attempt(crate::card::AttemptRecord),
}

/// The cards' askable material as a map from identity to card; on duplicate
/// identities, the later card wins (the catalog never keeps duplicates).
spec fn cards_map(s: Seq<Card>) -> Map<Seq<char>, Card>
    decreases s.len(),
{
    if s.len() == 0 {
        Map::empty()
    } else {
        cards_map(s.drop_last()).insert(s.last().uuid@, s.last())
    }
}

/// No identity occurs twice in the card list.
spec fn cards_unique(s: Seq<Card>) -> bool {
    forall|i: int, j: int|
        0 <= i < j < s.len() ==> (#[trigger] s[i]).uuid@ != (#[trigger] s[j]).uuid@
}

/// Every identity a card list holds is in its map's domain, and nothing
/// else is.
proof fn lemma_cards_dom(s: Seq<Card>)
    ensures
        forall|i: int| 0 <= i < s.len() ==> cards_map(s).dom().contains((#[trigger] s[i]).uuid@),
        forall|id: Seq<char>| #[trigger]
            cards_map(s).dom().contains(id) ==> exists|i: int|
                0 <= i < s.len() && (#[trigger] s[i]).uuid@ == id,
    decreases s.len(),
{
    if s.len() > 0 {
        lemma_cards_dom(s.drop_last());
        assert forall|i: int| 0 <= i < s.len() implies cards_map(s).dom().contains(
            (#[trigger] s[i]).uuid@,
        ) by {
            if i < s.len() - 1 {
                assert(s.drop_last()[i] == s[i]);
            }
        }
        assert forall|id: Seq<char>| #[trigger] cards_map(s).dom().contains(id) implies exists|
            i: int,
        | 0 <= i < s.len() && (#[trigger] s[i]).uuid@ == id by {
            if id != s.last().uuid@ {
                assert(cards_map(s.drop_last()).dom().contains(id));
                let i = choose|i: int|
                    0 <= i < s.drop_last().len() && (#[trigger] s.drop_last()[i]).uuid@ == id;
                assert(s[i].uuid@ == id);
            } else {
                assert(s[s.len() - 1].uuid@ == id);
            }
        }
    }
}

/// Appending a fresh card inserts it into the map and keeps the list
/// duplicate-free.
proof fn lemma_cards_push(s: Seq<Card>, c: Card)
    requires
        cards_unique(s),
        forall|j: int| 0 <= j < s.len() ==> (#[trigger] s[j]).uuid@ != c.uuid@,
    ensures
        (cards_map(s.push(c)) == cards_map(s).insert(c.uuid@, c)),
        cards_unique(s.push(c)),
{
    assert(s.push(c).drop_last() =~= s);
    assert(s.push(c).last() == c);
}

/// Replacing a card by one with the same identity updates exactly that
/// identity in the map and keeps the list duplicate-free.
proof fn lemma_cards_update(s: Seq<Card>, i: int, c: Card)
    requires
        cards_unique(s),
        0 <= i < s.len(),
        c.uuid@ == s[i].uuid@,
    ensures
        (cards_map(s.update(i, c)) == cards_map(s).insert(c.uuid@, c)),
        cards_unique(s.update(i, c)),
    decreases s.len(),
{
    if i == s.len() - 1 {
        assert(s.update(i, c).drop_last() =~= s.drop_last());
        assert(s.update(i, c).last() == c);
        assert(cards_map(s.drop_last()).insert(s.last().uuid@, s.last()).insert(c.uuid@, c)
            =~= cards_map(s.drop_last()).insert(c.uuid@, c));
    } else {
        lemma_cards_update(s.drop_last(), i, c);
        assert(s.update(i, c).drop_last() =~= s.drop_last().update(i, c));
        assert(s.update(i, c).last() == s.last());
        assert(s.drop_last()[i] == s[i]);
        assert(s[i].uuid@ != s.last().uuid@);
        assert(cards_map(s.drop_last()).insert(c.uuid@, c).insert(s.last().uuid@, s.last())
            =~= cards_map(s.drop_last()).insert(s.last().uuid@, s.last()).insert(c.uuid@, c));
    }
}

/// Removing a card removes exactly its identity from the map and keeps the
/// list duplicate-free.
proof fn lemma_cards_remove(s: Seq<Card>, i: int)
    requires
        cards_unique(s),
        0 <= i < s.len(),
    ensures
        (cards_map(s.remove(i)) == cards_map(s).remove(s[i].uuid@)),
        cards_unique(s.remove(i)),
    decreases s.len(),
{
    lemma_cards_dom(s.drop_last());
    if i == s.len() - 1 {
        assert(s.remove(i) =~= s.drop_last());
        assert forall|j: int| 0 <= j < s.drop_last().len() implies (
        #[trigger] s.drop_last()[j]).uuid@ != s[i].uuid@ by {
            assert(s.drop_last()[j] == s[j]);
        }
        assert(!cards_map(s.drop_last()).dom().contains(s[i].uuid@));
        assert(cards_map(s.drop_last()).insert(s.last().uuid@, s.last()).remove(s[i].uuid@)
            =~= cards_map(s.drop_last()));
    } else {
        lemma_cards_remove(s.drop_last(), i);
        assert(s.remove(i).drop_last() =~= s.drop_last().remove(i));
        assert(s.remove(i).last() == s.last());
        assert(s.drop_last()[i] == s[i]);
        assert(s[i].uuid@ != s.last().uuid@);
        assert(cards_map(s.drop_last()).remove(s[i].uuid@).insert(s.last().uuid@, s.last())
            =~= cards_map(s.drop_last()).insert(s.last().uuid@, s.last()).remove(s[i].uuid@));
    }
}

/// The in-memory collection of cards' askable material, keyed by identity.
pub struct CardCatalog {
    cards: Vec<Card>,
}

impl View for CardCatalog {
    type V = Map<Seq<char>, Card>;

    closed spec fn view(&self) -> Map<Seq<char>, Card> {
        cards_map(self.cards@)
    }
}

/// Finds the position of an identity in the card list.
fn find_card_index(v: &Vec<Card>, uuid: &UuidString) -> (r: Option<usize>)
    ensures
        match r {
            Some(i) => i < v@.len() && v@[i as int].uuid@ == uuid@,
            None => forall|j: int| 0 <= j < v@.len() ==> (#[trigger] v@[j]).uuid@ != uuid@,
        },
{
    let mut i: usize = 0;
    while i < v.len()
        invariant
            i <= v@.len(),
            forall|j: int| 0 <= j < i ==> (#[trigger] v@[j]).uuid@ != uuid@,
        decreases v@.len() - i,
    {
        if v[i].uuid == *uuid {
            return Some(i);
        }
        i += 1;
    }
    None
}

impl CardCatalog {
    /// Each identity is held at most once. Established by `new`, preserved
    /// by every operation.
    pub closed spec fn wf(&self) -> bool {
        cards_unique(self.cards@)
    }

    /// An empty catalog.
    pub fn new() -> (catalog: CardCatalog)
        ensures
            catalog.wf(),
            (catalog@ == Map::<Seq<char>, Card>::empty()),
    {
        CardCatalog { cards: Vec::new() }
    }

    /// Stores a card under its identity, replacing any card already there.
    pub fn insert(&mut self, card: Card)
        requires
            old(self).wf(),
        ensures
            final(self).wf(),
            (final(self)@ == old(self)@.insert(card.uuid@, card)),
    {
        match find_card_index(&self.cards, &card.uuid) {
            Some(i) => {
                proof {
                    lemma_cards_update(self.cards@, i as int, card);
                }
                self.cards[i] = card;
            },
            None => {
                proof {
                    lemma_cards_push(self.cards@, card);
                }
                self.cards.push(card);
            },
        }
    }

    /// Drops the card with this identity, if any; says whether one was
    /// there.
    pub fn remove(&mut self, uuid: &UuidString) -> (removed: bool)
        requires
            old(self).wf(),
        ensures
            final(self).wf(),
            removed == old(self)@.dom().contains(uuid@),
            (final(self)@ == old(self)@.remove(uuid@)),
    {
        proof {
            lemma_cards_dom(self.cards@);
        }
        match find_card_index(&self.cards, uuid) {
            Some(i) => {
                proof {
                    lemma_cards_remove(self.cards@, i as int);
                }
                self.cards.remove(i);
                true
            },
            None => {
                proof {
                    assert(self@ =~= self@.remove(uuid@));
                }
                false
            },
        }
    }

    /// A read-only look at the card with this identity.
    pub fn get(&self, uuid: &UuidString) -> (r: Option<&Card>)
        requires
            self.wf(),
        ensures
            match r {
                Some(c) => self@.dom().contains(uuid@) && *c == self@[uuid@],
                None => !self@.dom().contains(uuid@),
            },
    {
        proof {
            lemma_cards_dom(self.cards@);
        }
        match find_card_index(&self.cards, uuid) {
            Some(i) => {
                proof {
                    lemma_cards_get(self.cards@, i as int);
                }
                Some(&self.cards[i])
            },
            None => None,
        }
    }

    /// Whether a card with this identity is stored.
    pub fn contains_key(&self, uuid: &UuidString) -> (r: bool)
        requires
            self.wf(),
        ensures
            r == self@.dom().contains(uuid@),
    {
        self.get(uuid).is_some()
    }
}

/// In a duplicate-free card list, the map sends each card's identity to
/// that card.
proof fn lemma_cards_get(s: Seq<Card>, i: int)
    requires
        cards_unique(s),
        0 <= i < s.len(),
    ensures
        cards_map(s).dom().contains(s[i].uuid@),
        cards_map(s)[s[i].uuid@] == s[i],
    decreases s.len(),
{
    if i < s.len() - 1 {
        assert(s.drop_last()[i] == s[i]);
        lemma_cards_get(s.drop_last(), i);
        assert(s[i].uuid@ != s.last().uuid@);
    }
}

/// Applies one ledger entry to the catalog and the deck. A created card
/// enters both; a deleted card leaves both; an attempt goes to the deck
/// alone; a tag update changes neither structure the scheduler reads.
/// Errors from the deck are surfaced and leave catalog and deck untouched.
pub fn update_from_ledger(
    ledger_entry: LedgerEntry,
    cards: &mut CardCatalog,
    supermemo_deck: &mut SuperMemoDeck,
) -> (r: Result<(), DeckError>)
    requires
        old(cards).wf(),
        old(supermemo_deck).wf(),
    ensures
        final(cards).wf(),
        final(supermemo_deck).wf(),
        match ledger_entry {
            LedgerEntry::NewCard(c) => {
                &&& !old(supermemo_deck)@.states.dom().contains(c.uuid@) ==> r == Ok::<
                    (),
                    DeckError,
                >(()) && (final(cards)@ == old(cards)@.insert(c.uuid@, c)) && (final(supermemo_deck)@.states == old(supermemo_deck)@.states.insert(
                    c.uuid@,
                    spec_initial_state(c.created),
                )) && (final(supermemo_deck)@.primary == old(supermemo_deck)@.primary.insert(
                    c.uuid@,
                    c.created,
                )) && final(supermemo_deck)@.repeat == old(supermemo_deck)@.repeat
                &&& old(supermemo_deck)@.states.dom().contains(c.uuid@) ==> r == Err::<
                    (),
                    DeckError,
                >(DeckError::DuplicateCard) && final(cards)@ == old(cards)@ && final(supermemo_deck)@ == old(supermemo_deck)@
            },
            LedgerEntry::DeleteCard(uuid) => {
                &&& r == Ok::<(), DeckError>(())
                &&& (final(cards)@ == old(cards)@.remove(uuid@))
                &&& (final(supermemo_deck)@.states == old(supermemo_deck)@.states.remove(uuid@))
                &&& (final(supermemo_deck)@.primary == old(supermemo_deck)@.primary.remove(uuid@))
                &&& !repeat_contains(final(supermemo_deck)@.repeat, uuid@)
            },
            LedgerEntry::Attempt(a) => {
                &&& final(cards)@ == old(cards)@
                &&& old(supermemo_deck).at_primary_front(a.uuid@) ==> r == Ok::<(), DeckError>(())
                    && final(supermemo_deck)@ == spec_apply_primary(
                    old(supermemo_deck)@,
                    a.uuid@,
                    a.time,
                    a.quality,
                )
                &&& !old(supermemo_deck).at_primary_front(a.uuid@) && at_repeat_front(
                    old(supermemo_deck)@,
                    a.uuid@,
                ) ==> r == Ok::<(), DeckError>(()) && final(supermemo_deck)@ == spec_apply_repeat(
                    old(supermemo_deck)@,
                    a.quality,
                )
                &&& !old(supermemo_deck).at_primary_front(a.uuid@) && !at_repeat_front(
                    old(supermemo_deck)@,
                    a.uuid@,
                ) ==> r == Err::<(), DeckError>(DeckError::UnexpectedAttempt) && final(supermemo_deck)@ == old(supermemo_deck)@
            },
            LedgerEntry::UpdateTags(_, _) => r == Ok::<(), DeckError>(()) && final(cards)@ == old(cards)@ && final(supermemo_deck)@ == old(supermemo_deck)@,
        },
{
    match ledger_entry {
        LedgerEntry::NewCard(new_card) => {
            let uuid = new_card.uuid.clone();
            let created = new_card.created;
            match supermemo_deck.new_card(uuid, created) {
                Ok(()) => {
                    cards.insert(new_card);
                    Ok(())
                },
                Err(e) => Err(e),
            }
        },
        LedgerEntry::DeleteCard(uuid) => {
            cards.remove(&uuid);
            supermemo_deck.delete_card(&uuid);
            Ok(())
        },
        LedgerEntry::Attempt(attempt) => {
            match supermemo_deck.insert_attempt(&attempt) {
                Ok(()) => Ok(()),
                Err(e) => Err(e),
            }
        },
        // Tag updates touch presentation data the scheduler never reads.
        LedgerEntry::UpdateTags(_, _) => Ok(()),
    }
}

} // verus!
