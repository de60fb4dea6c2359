//! Per-word review state.

use vstd::prelude::*;

verus! {

/// Learning phase of a card.
#[derive(Clone, Copy, Debug, PartialEq, Eq, Structural)]
pub enum State {
    New,
    Learning,
    Review,
    Relearning,
}

/// Feedback given after a word was shown.
#[derive(Clone, Copy, Debug, PartialEq, Eq, Structural)]
pub enum Rating {
    Again,
    Hard,
    Good,
    Easy,
}

/// Review state of one word. Timestamps are nanoseconds since the Unix epoch;
/// `stability` and `difficulty` hold IEEE-754 double-precision bit patterns.
#[derive(Clone, Copy, Debug, PartialEq, Eq)]
pub struct Card {
    pub due: i64,
    pub stability: u64,
    pub difficulty: u64,
    pub elapsed_days: i64,
    pub scheduled_days: i64,
    pub reps: i32,
    pub lapses: i32,
    pub state: State,
    pub last_review: Option<i64>,
}

/// The card of a word that was never reviewed: new, due at `now`, with every
/// count and both measures at zero.
pub open spec fn fresh_card(now: i64) -> Card {
    Card {
        due: now,
        stability: 0,
        difficulty: 0,
        elapsed_days: 0,
        scheduled_days: 0,
        reps: 0,
        lapses: 0,
        state: State::New,
        last_review: None,
    }
}

impl Card {
    /// The card of a word that was never reviewed.
    pub fn new(now: i64) -> (card: Card)
        ensures
            card == fresh_card(now),
    {
        Card {
            due: now,
            stability: 0,
            difficulty: 0,
            elapsed_days: 0,
            scheduled_days: 0,
            reps: 0,
            lapses: 0,
            state: State::New,
            last_review: None,
        }
    }
}

} // verus!
