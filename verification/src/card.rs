//! Card data: identities, attempt qualities, attempt records and card
//! contents.

use vstd::prelude::*;

verus! {

/// A card is identified by an opaque unique string. The identity is stable
/// for the card's lifetime and never reused after deletion.
pub type UuidString = String;

/// Ordinal rating of a single review attempt, six levels from `Blackout`
/// (total failure) to `Perfect` (effortless correct recall).
///
/// The total ordering matters: qualities at least `CorrectSeriousDifficulty`
/// count as successful recall for streak purposes; qualities at least
/// `CorrectAfterHesitation` are required to exit the repeat queue.
#[derive(Clone, Copy, Debug, PartialEq, Eq, Structural)]
pub enum AttemptQuality {
    Perfect,
    CorrectAfterHesitation,
    CorrectSeriousDifficulty,
    IncorrectButEasyRecall,
    IncorrectButRemembered,
    Blackout,
}

impl AttemptQuality {
    /// The documented integer projection of a quality: `Blackout` is 0 and
    /// `Perfect` is 5.
    pub open spec fn spec_score(self) -> int {
        match self {
            AttemptQuality::Perfect => 5,
            AttemptQuality::CorrectAfterHesitation => 4,
            AttemptQuality::CorrectSeriousDifficulty => 3,
            AttemptQuality::IncorrectButEasyRecall => 2,
            AttemptQuality::IncorrectButRemembered => 1,
            AttemptQuality::Blackout => 0,
        }
    }

    /// Successful recall: the streak counter grows exactly on these
    /// qualities.
    pub open spec fn passes(self) -> bool {
        self.spec_score() >= 3
    }

    /// Qualities that keep a card out of (or move it out of) the repeat
    /// queue.
    pub open spec fn clears_repeat(self) -> bool {
        self.spec_score() >= 4
    }

    /// The integer projection of the quality, as a machine integer.
    pub fn score(self) -> (s: u8)
        ensures
            s as int == self.spec_score(),
    {
        match self {
            AttemptQuality::Perfect => 5,
            AttemptQuality::CorrectAfterHesitation => 4,
            AttemptQuality::CorrectSeriousDifficulty => 3,
            AttemptQuality::IncorrectButEasyRecall => 2,
            AttemptQuality::IncorrectButRemembered => 1,
            AttemptQuality::Blackout => 0,
        }
    }

    /// Reads a quality from a one-character code, `"0"` for `Blackout` up to
    /// `"5"` for `Perfect`; any other text is rejected.
    pub fn from_code(code: &str) -> (r: Option<AttemptQuality>)
        ensures
            r == spec_quality_from_code(code@),
    {
        if code.unicode_len() == 1 {
            match code.get_char(0) {
                '5' => Some(AttemptQuality::Perfect),
                '4' => Some(AttemptQuality::CorrectAfterHesitation),
                '3' => Some(AttemptQuality::CorrectSeriousDifficulty),
                '2' => Some(AttemptQuality::IncorrectButEasyRecall),
                '1' => Some(AttemptQuality::IncorrectButRemembered),
                '0' => Some(AttemptQuality::Blackout),
                _ => None,
            }
        } else {
            None
        }
    }
}

/// The quality denoted by a one-character digit code, if any.
pub open spec fn spec_quality_from_code(s: Seq<char>) -> Option<AttemptQuality> {
    if s.len() == 1 {
        match s[0] {
            '5' => Some(AttemptQuality::Perfect),
            '4' => Some(AttemptQuality::CorrectAfterHesitation),
            '3' => Some(AttemptQuality::CorrectSeriousDifficulty),
            '2' => Some(AttemptQuality::IncorrectButEasyRecall),
            '1' => Some(AttemptQuality::IncorrectButRemembered),
            '0' => Some(AttemptQuality::Blackout),
            _ => None,
        }
    } else {
        None
    }
}

/// One recorded instance of a user answering a card, rated by quality.
/// Produced by the presentation layer, consumed by the engine exactly once.
/// `time` is the wall-clock time of the attempt, in seconds.
#[derive(Clone, Debug, PartialEq)]
pub struct AttemptRecord {
    pub uuid: UuidString,
    pub time: u64,
    pub quality: AttemptQuality,
}

/// The askable material of a card.
#[derive(Clone, Debug, PartialEq)]
pub enum CardContents {
    BasicCard(BasicCard),
}

/// A plain question/answer pair.
#[derive(Clone, Debug, PartialEq)]
pub struct BasicCard {
    pub question: String,
    pub answer: String,
}

/// A study item: identity, creation time (seconds), user tags and contents.
#[derive(Clone, Debug, PartialEq)]
pub struct Card {
    pub uuid: UuidString,
    pub created: u64,
    pub tags: Vec<String>,
    pub card_contents: CardContents,
}

} // verus!
