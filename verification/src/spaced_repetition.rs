//! What a scheduler of reviews offers.

use crate::card::{Card, Rating};
use crate::scheduler::{reviewed, ReviewError, SQLiteHistory};
use crate::store::StoreError;
use vstd::prelude::*;

verus! {

/// A scheduler of spaced repetition: it finds the next word to review,
/// records how a review went, and forgets words.
pub trait SpacedRepetition: Sized {
    /// What holds of the scheduler between calls.
    spec fn valid(&self) -> bool;

    /// Finds the next word to review at time `now`.
    fn next_to_review(&mut self, now: i64) -> (r: Result<String, ReviewError>)
        requires
            old(self).valid(),
        ensures
            final(self).valid(),
    ;

    /// Records a review of `question` at time `now`; `algorithm` makes the
    /// new card of the old one, the rating and the time.
    fn update<F: Fn(Card, Rating, i64) -> Card>(
        &mut self,
        question: &str,
        rating: Rating,
        now: i64,
        algorithm: F,
    ) -> (r: Result<(), ReviewError>)
        requires
            old(self).valid(),
            forall|card: Card| call_requires(algorithm, (card, rating, now)),
        ensures
            final(self).valid(),
    ;

    /// Forgets `question`.
    fn delete(&mut self, question: &str)
        requires
            old(self).valid(),
        ensures
            final(self).valid(),
    ;
}

impl SpacedRepetition for SQLiteHistory {
    open spec fn valid(&self) -> bool {
        self.wf()
    }

    fn next_to_review(&mut self, now: i64) -> (r: Result<String, ReviewError>)
        ensures
            reviewed(*old(self), *final(self), r, now),
    {
        SQLiteHistory::next_to_review(self, now)
    }

    fn update<F: Fn(Card, Rating, i64) -> Card>(
        &mut self,
        question: &str,
        rating: Rating,
        now: i64,
        algorithm: F,
    ) -> (r: Result<(), ReviewError>)
        ensures
            *final(self) == (SQLiteHistory {
                store: final(self).store,
                session_id: final(self).session_id,
                ..*old(self)
            }),
            match old(self).store@.card_of(question@) {
                None => {
                    &&& r == Err::<(), ReviewError>(ReviewError::CardNotFound)
                    &&& final(self).store@ == old(self).store@
                    &&& final(self).session_id == old(self).session_id
                },
                Some(card) => match old(self).session_opened(now) {
                    None => {
                        &&& r == Err::<(), ReviewError>(ReviewError::Store(StoreError::Full))
                        &&& final(self).store@ == old(self).store@
                        &&& final(self).session_id == 0
                    },
                    Some((base, session_id)) => {
                        &&& r is Ok
                        &&& final(self).session_id == session_id
                        &&& exists|next: Card|
                            call_ensures(algorithm, (card, rating, now), next) && final(self).store@
                                == base.upsert(question@, next, session_id)
                    },
                },
            },
    {
        SQLiteHistory::update(self, question, rating, now, algorithm)
    }

    fn delete(&mut self, question: &str)
        ensures
            *final(self) == (SQLiteHistory { store: final(self).store, ..*old(self) }),
            final(self).store@ == old(self).store@.delete(question@),
    {
        SQLiteHistory::delete(self, question)
    }
}

} // verus!
