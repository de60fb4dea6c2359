//! The review scheduler: a queue of proposed words, the words shown in this
//! run, and the card store behind them.

use crate::card::{fresh_card, Card, Rating};
use crate::chance::{random_below, shuffle};
use crate::distance::{edit_distance, is_near, NEAR};
use crate::embedding::{
    above_half, falling, find_scored, job_views, jobs, jobs_for, rank_similar_words,
    scored_against, scored_word, scores, similar_words, tables, vectors, words_of, Embedding, Job,
    Neighbours, NeighboursView, Scored, ScoredView,
};
use crate::frequency::{
    arranged, lookup, qualifies, qualify, search, sort_records, sorted, Record,
};
use crate::related::{related_to, related_words, RelatedEntry};
use crate::store::{
    is_due, lemma_index_unique, lemma_mark_at, outside_session, word_of, CardStore, RowView,
    StoreError, StoreView,
};
use crate::text::{holds_word, lowercase, texts, to_lowercase};
use std::collections::VecDeque;
use vstd::prelude::*;

verus! {

/// Why the scheduler could not do what was asked.
#[derive(Clone, Copy, Debug, PartialEq, Eq)]
pub enum ReviewError {
    /// The store has no card for the word.
    CardNotFound,
    /// The word has a card, and its due time has not come.
    NotDue,
    /// Nothing is left to review.
    Exhausted,
    /// The store failed.
    Store(StoreError),
}

/// How words related to a shown word are found.
pub enum ExtendStrategy {
    /// Stored words a few edits away.
    Levenshtein,
    /// Due words whose vectors in a table of word vectors score as similar.
    Word2vec(Embedding),
    /// The entries of a table of related words.
    Merriam(Vec<RelatedEntry>),
    /// No related words.
    NoExtend,
}

/// The cursor before the first row.
pub const BEFORE_START: usize = 0;

/// A vocabulary under review: the card store, the session of this run, and
/// the three tiers of words of this run.
pub struct SQLiteHistory {
    /// The cards, one row per word.
    pub store: CardStore,
    /// The session of this run; 0 until one is opened.
    pub session_id: u64,
    /// The position of the row that the store handed out last, or
    /// [`BEFORE_START`] after a draw that wrapped around.
    pub cursor: usize,
    /// Words proposed for review, first in, first out.
    pub queue: VecDeque<String>,
    /// Words shown in this run whose related words were not looked up yet.
    pub pending: Vec<String>,
    /// Words shown in this run and done with.
    pub done: Vec<String>,
    /// The frequency table.
    pub records: Vec<Record>,
    /// The frequency threshold; 0 switches the filter off.
    pub freq: u32,
    /// How words related to a shown word are found.
    pub strategy: ExtendStrategy,
}

/// The three tiers as texts.
pub struct Tiers {
    pub queue: Seq<Seq<char>>,
    pub pending: Seq<Seq<char>>,
    pub done: Seq<Seq<char>>,
}

/// The test for a stored word that is proposed after `word`: another word,
/// outside session `exclude`, at most [`NEAR`] edits away.
pub open spec fn near_row(word: Seq<char>, exclude: u64) -> spec_fn(RowView) -> bool {
    |row: RowView|
        row.word != word && outside_session(row.session_id, exclude) && edit_distance(
            row.word,
            word,
        ) <= NEAR
}

/// The stored words proposed after `word`, in storage order.
pub open spec fn near_words(store: StoreView, word: Seq<char>, exclude: u64) -> Seq<Seq<char>> {
    store.rows.filter(near_row(word, exclude)).map_values(word_of())
}

/// How many words at the head of `queue` are passed over before one that is
/// in neither `pending` nor `done`, if there is such a word.
pub open spec fn scan(queue: Seq<Seq<char>>, pending: Seq<Seq<char>>, done: Seq<Seq<char>>) -> Option<int>
    decreases queue.len(),
{
    if queue.len() == 0 {
        None
    } else if !pending.contains(queue[0]) && !done.contains(queue[0]) {
        Some(0)
    } else {
        match scan(queue.drop_first(), pending, done) {
            Some(k) => Some(k + 1),
            None => None,
        }
    }
}

/// The words that `strategy` proposes after `word` at time `now`, given the
/// store and the session of the run.
pub open spec fn proposals(
    strategy: ExtendStrategy,
    store: StoreView,
    session_id: u64,
    now: i64,
    word: Seq<char>,
) -> Seq<Seq<char>> {
    match strategy {
        ExtendStrategy::Levenshtein => near_words(store, word, session_id),
        ExtendStrategy::Word2vec(embedding) => similar_words(
            tables(embedding.scored@),
            word,
            store.all_due(session_id, now),
        ).map_values(scored_word()),
        ExtendStrategy::Merriam(table) => related_to(table@, word),
        ExtendStrategy::NoExtend => Seq::empty(),
    }
}

/// What the tiers hand out, and the tiers after that.
pub struct Advance {
    pub word: Option<Seq<char>>,
    pub tiers: Tiers,
}

/// One turn of the tiers. The first word of the queue that is in neither
/// `pending` nor `done` is handed out and joins `pending`; the words before
/// it leave the queue. Where the queue has no such word, the word last added
/// to `pending` moves to `done`, the words that `propose` gives for it become
/// the queue, and the turn starts again; with `pending` empty as well, the
/// tiers hand out nothing.
pub open spec fn advance(tiers: Tiers, propose: spec_fn(Seq<char>) -> Seq<Seq<char>>) -> Advance
    decreases tiers.pending.len(),
{
    match scan(tiers.queue, tiers.pending, tiers.done) {
        Some(k) => Advance {
            word: Some(tiers.queue[k]),
            tiers: Tiers {
                queue: tiers.queue.skip(k + 1),
                pending: tiers.pending.push(tiers.queue[k]),
                done: tiers.done,
            },
        },
        None => if tiers.pending.len() == 0 {
            Advance {
                word: None,
                tiers: Tiers { queue: Seq::empty(), pending: tiers.pending, done: tiers.done },
            }
        } else {
            advance(
                Tiers {
                    queue: propose(tiers.pending.last()),
                    pending: tiers.pending.drop_last(),
                    done: tiers.done.push(tiers.pending.last()),
                },
                propose,
            )
        },
    }
}

/// The frequency filter lets `word` pass: it is switched off, or the search
/// of the table lands on a record that qualifies under the threshold.
pub open spec fn accepts(records: Seq<Record>, freq: u32, word: Seq<char>) -> bool {
    freq == 0 || match lookup(records, word) {
        Some(i) => qualifies(records[i].bnc, records[i].frq, freq),
        None => false,
    }
}

/// Row `i` of `store` is eligible and passes the frequency filter.
pub open spec fn reviewable(
    store: StoreView,
    i: int,
    session_id: u64,
    now: i64,
    records: Seq<Record>,
    freq: u32,
) -> bool {
    &&& 0 <= i < store.rows.len()
    &&& store.rows[i].eligible(session_id, now)
    &&& accepts(records, freq, store.rows[i].word)
}

/// Some row that is eligible and passes the frequency filter lies strictly
/// after `cursor`.
pub open spec fn reviewable_after(
    store: StoreView,
    cursor: usize,
    session_id: u64,
    now: i64,
    records: Seq<Record>,
    freq: u32,
) -> bool {
    exists|i: int| #[trigger] reviewable(store, i, session_id, now, records, freq) && i + 1 > cursor
}

/// What one draw by `scheduler` leaves of its store and its cursor, where
/// `r` is what the draw returned at time `now`.
///
/// A word comes back exactly when some row is eligible and passes the
/// frequency filter. It is the word of such a row, and that row alone is
/// now marked with the session. Where such rows lie after the cursor, the
/// row is one of them and the cursor stands on it; else the draw wrapped
/// around and the cursor is back before the first row. Where no row will
/// do, the draw reports that nothing is left and changes nothing.
pub open spec fn draw_outcome(
    scheduler: SQLiteHistory,
    base: StoreView,
    session_id: u64,
    store: StoreView,
    cursor: usize,
    r: Result<String, ReviewError>,
    now: i64,
) -> bool {
    match r {
        Ok(word) => {
            let i = base.index_of(word@);
            &&& base.holds(i, word@)
            &&& reviewable(base, i, session_id, now, scheduler.records@, scheduler.freq)
            &&& store == base.mark_at(i, session_id)
            &&& cursor > scheduler.cursor || cursor == BEFORE_START
            &&& if reviewable_after(
                base,
                scheduler.cursor,
                session_id,
                now,
                scheduler.records@,
                scheduler.freq,
            ) {
                cursor == i + 1 && cursor > scheduler.cursor
            } else {
                cursor == BEFORE_START
            }
        },
        Err(e) => {
            &&& e == ReviewError::Exhausted
            &&& forall|i: int|
                !reviewable(base, i, session_id, now, scheduler.records@, scheduler.freq)
            &&& store == base
            &&& cursor == scheduler.cursor
        },
    }
}

/// What a draw from the store leaves behind. `before` and `after` are the
/// scheduler before and after, `r` what the draw returned at time `now`.
///
/// Where the run had no session and none could be opened, the draw fails with
/// the store's error and changes nothing. Otherwise the session is open and
/// the draw is one from the store with that session.
pub open spec fn drawn_from_store(
    before: SQLiteHistory,
    after: SQLiteHistory,
    r: Result<String, ReviewError>,
    now: i64,
) -> bool {
    match before.session_opened(now) {
        None => {
            &&& r == Err::<String, ReviewError>(ReviewError::Store(StoreError::Full))
            &&& after.store@ == before.store@
            &&& after.session_id == 0
            &&& after.cursor == before.cursor
        },
        Some((base, session_id)) => {
            &&& session_id != 0
            &&& after.session_id == session_id
            &&& draw_outcome(before, base, session_id, after.store@, after.cursor, r, now)
        },
    }
}

/// What asking for the next word leaves behind. `before` and `after` are
/// the scheduler before and after, `r` what came back at time `now`.
///
/// Where the tiers hand out a word, it comes back, and the store, the
/// session and the cursor are as before. Else the tiers are left as their
/// turn leaves them and the word is drawn from the store; a word that the
/// store gives joins `pending`.
pub open spec fn reviewed(
    before: SQLiteHistory,
    after: SQLiteHistory,
    r: Result<String, ReviewError>,
    now: i64,
) -> bool {
    let turn = advance(before.tiers(), before.proposer(now));
    &&& after.records == before.records
    &&& after.freq == before.freq
    &&& after.strategy == before.strategy
    &&& match turn.word {
        Some(w) => {
            &&& r matches Ok(x) && x@ == w
            &&& after.tiers() == turn.tiers
            &&& after.store == before.store
            &&& after.session_id == before.session_id
            &&& after.cursor == before.cursor
        },
        None => {
            &&& drawn_from_store(before, after, r, now)
            &&& after.tiers().queue == turn.tiers.queue
            &&& after.tiers().done == turn.tiers.done
            &&& after.tiers().pending == match r {
                Ok(x) => turn.tiers.pending.push(x@),
                Err(_) => turn.tiers.pending,
            }
        },
    }
}

impl SQLiteHistory {
    /// The store is well-formed; the other fields may hold anything.
    pub open spec fn wf(&self) -> bool {
        self.store.wf()
    }

    /// The queue, `pending` and `done` as texts.
    pub open spec fn tiers(&self) -> Tiers {
        Tiers { queue: texts(self.queue@), pending: texts(self.pending@), done: texts(self.done@) }
    }

    /// The words that the strategy proposes after `word` at time `now`.
    pub open spec fn extension(&self, word: Seq<char>, now: i64) -> Seq<Seq<char>> {
        proposals(self.strategy, self.store@, self.session_id, now, word)
    }

    /// The store and the session id once the session of this run is open, if
    /// it can be opened.
    pub open spec fn session_opened(&self, now: i64) -> Option<(StoreView, u64)> {
        if self.session_id != 0 {
            Some((self.store@, self.session_id))
        } else if self.store@.sessions.len() < usize::MAX {
            Some((self.store@.open_session(now), (self.store@.sessions.len() + 1) as u64))
        } else {
            None
        }
    }

    /// The words of `pending` that the strategy needs scores for and has
    /// none.
    pub open spec fn wanted(&self) -> Seq<Seq<char>> {
        match self.strategy {
            ExtendStrategy::Word2vec(embedding) => self.tiers().pending.filter(
                unscored_in(tables(embedding.scored@)),
            ),
            _ => Seq::empty(),
        }
    }

    /// [`Self::extension`] as a function of the word.
    pub open spec fn proposer(&self, now: i64) -> spec_fn(Seq<char>) -> Seq<Seq<char>> {
        |word: Seq<char>| proposals(self.strategy, self.store@, self.session_id, now, word)
    }

    /// A scheduler over `store`: no session yet, the cursor before the first
    /// row, empty tiers, no frequency filter, related words by edit distance.
    pub fn new(store: CardStore) -> (s: Self)
        requires
            store.wf(),
        ensures
            s.wf(),
            s.store == store,
            s.session_id == 0,
            s.cursor == BEFORE_START,
            s.queue@.len() == 0,
            s.pending@.len() == 0,
            s.done@.len() == 0,
            s.records@.len() == 0,
            s.freq == 0,
            s.strategy is Levenshtein,
    {
        SQLiteHistory {
            store,
            session_id: 0,
            cursor: BEFORE_START,
            queue: VecDeque::new(),
            pending: Vec::new(),
            done: Vec::new(),
            records: Vec::new(),
            freq: 0,
            strategy: ExtendStrategy::Levenshtein,
        }
    }

    /// A scheduler over an empty store.
    pub fn default() -> (s: Self)
        ensures
            s.wf(),
            s.store@.rows.len() == 0,
            s.store@.sessions.len() == 0,
            s.session_id == 0,
            s.cursor == BEFORE_START,
            s.queue@.len() == 0,
            s.pending@.len() == 0,
            s.done@.len() == 0,
            s.records@.len() == 0,
            s.freq == 0,
            s.strategy is Levenshtein,
    {
        SQLiteHistory::new(CardStore::new())
    }

    /// Appends `words` to the queue, in their order.
    pub fn seed(&mut self, words: Vec<String>)
        ensures
            texts(final(self).queue@) == texts(old(self).queue@) + texts(words@),
            *final(self) == (SQLiteHistory { queue: final(self).queue, ..*old(self) }),
    {
        let mut i: usize = 0;
        proof {
            assert(texts(words@).take(0) =~= Seq::<Seq<char>>::empty());
            assert(texts(self.queue@) =~= texts(old(self).queue@) + texts(words@).take(0));
        }
        while i < words.len()
            invariant
                i <= words.len(),
                *self == (SQLiteHistory { queue: self.queue, ..*old(self) }),
                texts(self.queue@) == texts(old(self).queue@) + texts(words@).take(i as int),
            decreases words.len() - i,
        {
            let ghost kept = texts(self.queue@);
            self.queue.push_back(words[i].clone());
            proof {
                assert(texts(self.queue@) =~= kept.push(words@[i as int]@));
                assert(texts(words@).take(i + 1) =~= texts(words@).take(i as int).push(
                    words@[i as int]@,
                ));
            }
            i += 1;
        }
        proof {
            assert(texts(words@).take(words@.len() as int) =~= texts(words@));
        }
    }

    /// Appends to the queue the stored words near `word`.
    pub fn leven(&mut self, word: &str)
        ensures
            texts(final(self).queue@) == texts(old(self).queue@) + near_words(
                old(self).store@,
                word@,
                old(self).session_id,
            ),
            *final(self) == (SQLiteHistory { queue: final(self).queue, ..*old(self) }),
    {
        let found = stored_near(&self.store, word, self.session_id);
        self.seed(found);
    }

    /// Appends to the queue the words that `table` relates to `word`.
    pub fn extend_by_merriam(&mut self, table: &Vec<RelatedEntry>, word: &str)
        ensures
            texts(final(self).queue@) == texts(old(self).queue@) + related_to(table@, word@),
            *final(self) == (SQLiteHistory { queue: final(self).queue, ..*old(self) }),
    {
        match related_words(table, word) {
            Some(found) => self.seed(found),
            None => {
                assert(texts(self.queue@) =~= texts(old(self).queue@) + related_to(table@, word@));
            },
        }
    }

    /// The words scored against `word` in `table` that are due, outside the
    /// session of this run and similar enough, by falling similarity.
    pub fn rank_similar_words(&self, table: &Vec<Neighbours>, word: &str, now: i64) -> (r: Vec<
        Scored,
    >)
        ensures
            scores(r@) == similar_words(
                tables(table@),
                word@,
                self.store@.all_due(self.session_id, now),
            ),
            falling(scores(r@)),
            forall|entry: ScoredView|
                #[trigger] scores(r@).contains(entry) <==> (scored_against(tables(table@), word@) matches Some(
                    found,
                ) && found.contains(entry)) && above_half(entry.similarity) && self.store@.all_due(
                    self.session_id,
                    now,
                ).contains(entry.word),
    {
        let due = self.all_words_need_review(now);
        rank_similar_words(table, word, &due)
    }

    /// Appends to the queue the due words that `table` holds similar to
    /// `word`, the most similar first.
    pub fn extend_by_word2vec(&mut self, table: &Vec<Neighbours>, word: &str, now: i64)
        ensures
            texts(final(self).queue@) == texts(old(self).queue@) + similar_words(
                tables(table@),
                word@,
                old(self).store@.all_due(old(self).session_id, now),
            ).map_values(scored_word()),
            *final(self) == (SQLiteHistory { queue: final(self).queue, ..*old(self) }),
    {
        let found = self.rank_similar_words(table, word, now);
        self.seed(words_of(&found));
    }

    /// The words of `pending` that the strategy has no scores for: the words
    /// to score before the next word is asked for. A strategy that goes by
    /// no scores needs none.
    pub fn unscored(&self) -> (r: Vec<String>)
        ensures
            texts(r@) == self.wanted(),
    {
        let mut out: Vec<String> = Vec::new();
        match &self.strategy {
            ExtendStrategy::Word2vec(embedding) => {
                let table = &embedding.scored;
                let ghost all = texts(self.pending@);
                let ghost pred = unscored_in(tables(table@));
                let mut i: usize = 0;
                proof {
                    reveal(Seq::filter);
                    assert(all.take(0) =~= Seq::<Seq<char>>::empty());
                    assert(texts(out@) =~= all.take(0).filter(pred));
                }
                while i < self.pending.len()
                    invariant
                        i <= self.pending.len(),
                        all == texts(self.pending@),
                        pred == unscored_in(tables(table@)),
                        texts(out@) == all.take(i as int).filter(pred),
                    decreases self.pending.len() - i,
                {
                    let ghost before = all.take(i as int);
                    proof {
                        assert(all.take(i + 1) =~= before.push(all[i as int]));
                        before.lemma_filter_push(all[i as int], pred);
                    }
                    if find_scored(table, self.pending[i].as_str()).is_none() {
                        let ghost kept = texts(out@);
                        out.push(self.pending[i].clone());
                        assert(texts(out@) =~= kept.push(all[i as int]));
                    }
                    i += 1;
                }
                proof {
                    assert(all.take(self.pending@.len() as int) =~= all);
                }
            },
            _ => {
                assert(texts(out@) =~= Seq::<Seq<char>>::empty());
            },
        }
        out
    }

    /// The vectors to score: one job for each word of [`Self::unscored`]
    /// that has a vector, against the stored words that have one.
    pub fn to_score(&self) -> (r: Vec<Job>)
        ensures
            match self.strategy {
                ExtendStrategy::Word2vec(embedding) => job_views(r@) == jobs(
                    vectors(embedding.model),
                    self.wanted(),
                    self.store@.rows.map_values(word_of()),
                ),
                _ => r@.len() == 0,
            },
    {
        match &self.strategy {
            ExtendStrategy::Word2vec(embedding) => {
                let words = self.unscored();
                let candidates = self.store.words();
                jobs_for(&embedding.model, &words, &candidates)
            },
            _ => Vec::new(),
        }
    }

    /// Hands the strategy the words scored against one word. A strategy that
    /// goes by no scores drops them.
    pub fn add_scores(&mut self, scored: Neighbours)
        ensures
            match old(self).strategy {
                ExtendStrategy::Word2vec(embedding) => final(self).strategy matches ExtendStrategy::Word2vec(
                    grown,
                ) && grown.model == embedding.model && tables(grown.scored@) == tables(
                    embedding.scored@,
                ).push(scored@),
                _ => final(self).strategy == old(self).strategy,
            },
            *final(self) == (SQLiteHistory { strategy: final(self).strategy, ..*old(self) }),
    {
        match &mut self.strategy {
            ExtendStrategy::Word2vec(embedding) => {
                let ghost before = tables(embedding.scored@);
                embedding.scored.push(scored);
                assert(tables(embedding.scored@) =~= before.push(scored@));
            },
            _ => {},
        }
    }

    /// Appends to the queue the words that the strategy proposes after `word`
    /// at time `now`.
    pub fn extend(&mut self, word: &str, now: i64)
        ensures
            texts(final(self).queue@) == texts(old(self).queue@) + old(self).extension(word@, now),
            *final(self) == (SQLiteHistory { queue: final(self).queue, ..*old(self) }),
    {
        let found = match &self.strategy {
            ExtendStrategy::Levenshtein => stored_near(&self.store, word, self.session_id),
            ExtendStrategy::Word2vec(embedding) => {
                let due = self.store.all_due(self.session_id, now);
                words_of(&rank_similar_words(&embedding.scored, word, &due))
            },
            ExtendStrategy::Merriam(table) => match related_words(table, word) {
                Some(found) => found,
                None => Vec::new(),
            },
            ExtendStrategy::NoExtend => Vec::new(),
        };
        proof {
            assert(texts(found@) =~= self.extension(word@, now));
        }
        self.seed(found);
    }

    /// Takes words off the head of the queue up to the first that is in
    /// neither `pending` nor `done`, and returns that word.
    pub fn pop_fresh(&mut self) -> (r: Option<String>)
        ensures
            *final(self) == (SQLiteHistory { queue: final(self).queue, ..*old(self) }),
            match scan(old(self).tiers().queue, old(self).tiers().pending, old(self).tiers().done) {
                Some(k) => {
                    &&& 0 <= k < old(self).queue@.len()
                    &&& r matches Some(w) && w@ == old(self).tiers().queue[k]
                    &&& final(self).tiers().queue == old(self).tiers().queue.skip(k + 1)
                },
                None => r is None && final(self).queue@.len() == 0,
            },
    {
        let ghost q0 = texts(self.queue@);
        let ghost pending = texts(self.pending@);
        let ghost done = texts(self.done@);
        let ghost mut popped: int = 0;
        proof {
            assert(q0.skip(0) =~= q0);
        }
        loop
            invariant
                *self == (SQLiteHistory { queue: self.queue, ..*old(self) }),
                q0 == texts(old(self).queue@),
                pending == texts(self.pending@),
                done == texts(self.done@),
                0 <= popped <= q0.len(),
                texts(self.queue@) == q0.skip(popped),
                match scan(texts(self.queue@), pending, done) {
                    Some(k) => scan(q0, pending, done) == Some(k + popped),
                    None => scan(q0, pending, done) is None,
                },
            decreases self.queue@.len(),
        {
            let ghost q = texts(self.queue@);
            match self.queue.pop_front() {
                None => {
                    return None;
                },
                Some(word) => {
                    proof {
                        assert(texts(self.queue@) =~= q.drop_first());
                        assert(q.drop_first() =~= q0.skip(popped + 1));
                        assert(q[0] == word@);
                        lemma_scan_bounds(q, pending, done);
                    }
                    if !holds_word(&self.pending, &word) && !holds_word(&self.done, &word) {
                        return Some(word);
                    }
                    proof {
                        popped = popped + 1;
                    }
                },
            }
        }
    }

    /// Hands out the next word that the tiers hold, looking up related words
    /// for the words shown before as the queue runs dry.
    pub fn next_in_tiers(&mut self, now: i64) -> (r: Option<String>)
        ensures
            *final(self) == (SQLiteHistory {
                queue: final(self).queue,
                pending: final(self).pending,
                done: final(self).done,
                ..*old(self)
            }),
            final(self).tiers() == advance(old(self).tiers(), old(self).proposer(now)).tiers,
            match advance(old(self).tiers(), old(self).proposer(now)).word {
                Some(w) => r matches Some(x) && x@ == w,
                None => r is None,
            },
    {
        let ghost propose = self.proposer(now);
        let ghost goal = advance(self.tiers(), propose);
        loop
            invariant
                *self == (SQLiteHistory {
                    queue: self.queue,
                    pending: self.pending,
                    done: self.done,
                    ..*old(self)
                }),
                propose == old(self).proposer(now),
                goal == advance(old(self).tiers(), propose),
                advance(self.tiers(), propose) == goal,
            decreases self.pending@.len(),
        {
            let ghost before = self.tiers();
            match self.pop_fresh() {
                Some(word) => {
                    self.pending.push(word.clone());
                    proof {
                        assert(texts(self.pending@) =~= before.pending.push(word@));
                        assert(self.tiers() == goal.tiers);
                    }
                    return Some(word);
                },
                None => {},
            }
            match self.pending.pop() {
                None => {
                    proof {
                        assert(texts(self.queue@) =~= Seq::<Seq<char>>::empty());
                        assert(texts(self.pending@) =~= before.pending);
                        assert(self.tiers() == goal.tiers);
                    }
                    return None;
                },
                Some(word) => {
                    let ghost emptied = texts(self.queue@);
                    self.extend(word.as_str(), now);
                    let ghost kept = texts(self.done@);
                    self.done.push(word);
                    proof {
                        assert(emptied =~= Seq::<Seq<char>>::empty());
                        assert(word@ == before.pending.last());
                        assert(texts(self.queue@) =~= propose(before.pending.last()));
                        assert(texts(self.pending@) =~= before.pending.drop_last());
                        assert(texts(self.done@) =~= kept.push(word@));
                    }
                },
            }
        }
    }

    /// Puts `word` at the head of the run: it counts as shown.
    pub fn start_with(&mut self, word: String)
        ensures
            final(self).tiers().pending == old(self).tiers().pending.push(word@),
            *final(self) == (SQLiteHistory { pending: final(self).pending, ..*old(self) }),
    {
        let ghost kept = texts(self.pending@);
        let ghost text = word@;
        self.pending.push(word);
        proof {
            assert(texts(self.pending@) =~= kept.push(text));
        }
    }

    /// The words of `words` that have a card which is due, in their order.
    pub fn keep_reviewable(&self, words: &Vec<String>, now: i64) -> (r: Vec<String>)
        requires
            self.wf(),
        ensures
            texts(r@) == texts(words@).filter(due_in(self.store@, now)),
    {
        let mut out: Vec<String> = Vec::new();
        let ghost all = texts(words@);
        let ghost pred = due_in(self.store@, now);
        let mut i: usize = 0;
        proof {
            reveal(Seq::filter);
            assert(all.take(0) =~= Seq::<Seq<char>>::empty());
            assert(texts(out@) =~= all.take(0).filter(pred));
        }
        while i < words.len()
            invariant
                self.wf(),
                i <= words.len(),
                all == texts(words@),
                pred == due_in(self.store@, now),
                texts(out@) == all.take(i as int).filter(pred),
            decreases words.len() - i,
        {
            let ghost before = all.take(i as int);
            proof {
                assert(all.take(i + 1) =~= before.push(all[i as int]));
                before.lemma_filter_push(all[i as int], pred);
            }
            if self.should_review(words[i].as_str(), now).is_ok() {
                let ghost kept = texts(out@);
                out.push(words[i].clone());
                assert(texts(out@) =~= kept.push(all[i as int]));
            }
            i += 1;
        }
        proof {
            assert(all.take(words@.len() as int) =~= all);
        }
        out
    }

    /// Appends to the queue, in a random order, the words of `words` that
    /// have a card which is due, and returns how many they are.
    pub fn seed_reviewable(&mut self, words: &Vec<String>, now: i64) -> (n: usize)
        requires
            old(self).wf(),
        ensures
            *final(self) == (SQLiteHistory { queue: final(self).queue, ..*old(self) }),
            n == texts(words@).filter(due_in(old(self).store@, now)).len(),
            final(self).tiers().queue.take(old(self).queue@.len() as int) == old(self).tiers().queue,
            final(self).tiers().queue.skip(old(self).queue@.len() as int).to_multiset() == texts(
                words@,
            ).filter(due_in(old(self).store@, now)).to_multiset(),
    {
        let mut kept = self.keep_reviewable(words, now);
        let ghost wanted = texts(kept@);
        shuffle(&mut kept);
        let n = kept.len();
        let ghost added = texts(kept@);
        proof {
            wanted.to_multiset_ensures();
            added.to_multiset_ensures();
        }
        self.seed(kept);
        proof {
            let before = texts(old(self).queue@);
            assert((before + added).take(before.len() as int) =~= before);
            assert((before + added).skip(before.len() as int) =~= added);
        }
        n
    }

    /// Adds `word` to the vocabulary. Where a stored word differs from it in
    /// letter case at most, the first such word is written again with its
    /// card; else `word` gets a fresh card. Either is stamped
    /// with the session of this run.
    pub fn add_word(&mut self, word: &str, now: i64) -> (r: Result<(), ReviewError>)
        requires
            old(self).wf(),
        ensures
            final(self).wf(),
            *final(self) == (SQLiteHistory {
                store: final(self).store,
                session_id: final(self).session_id,
                ..*old(self)
            }),
            match old(self).session_opened(now) {
                None => {
                    &&& r == Err::<(), ReviewError>(ReviewError::Store(StoreError::Full))
                    &&& final(self).store@ == old(self).store@
                    &&& final(self).session_id == 0
                },
                Some((base, session_id)) => {
                    &&& r is Ok
                    &&& final(self).session_id == session_id
                    &&& final(self).store@ == match spelling_of(old(self).store@, word@) {
                        Some(i) => base.upsert(base.rows[i].word, base.rows[i].card, session_id),
                        None => base.upsert(word@, fresh_card(now), session_id),
                    }
                },
            },
    {
        match find_ignore_case(&self.store, word) {
            Some(i) => {
                let stored = self.store.row(i).word.clone();
                let card = self.store.row(i).card;
                self.insert_or_replace(stored.as_str(), card, now)
            },
            None => self.insert_or_replace(word, Card::new(now), now),
        }
    }

    /// Searches the frequency table for `word`, letter case aside.
    pub fn binary_search(&self, word: &str) -> (r: Option<&Record>)
        ensures
            match r {
                Some(record) => lookup(self.records@, word@) matches Some(i) && *record
                    == self.records@[i],
                None => lookup(self.records@, word@) is None,
            },
    {
        match search(&self.records, word) {
            Some(i) => Some(&self.records[i]),
            None => None,
        }
    }

    /// Tells whether `record` qualifies under the threshold of this scheduler.
    pub fn qualify(&self, record: &Record) -> (r: bool)
        ensures
            r == qualifies(record.bnc, record.frq, self.freq),
    {
        qualify(record, self.freq)
    }

    /// Tells whether the frequency filter lets `word` pass.
    pub fn passes(&self, word: &str) -> (r: bool)
        ensures
            r == accepts(self.records@, self.freq, word@),
    {
        if self.freq == 0 {
            return true;
        }
        match self.binary_search(word) {
            Some(record) => self.qualify(record),
            None => false,
        }
    }

    /// Sets the frequency table, sorted by case-folded word so that the
    /// search finds every word that it holds; records of one folded word
    /// keep their order.
    pub fn init_records(&mut self, records: Vec<Record>)
        ensures
            *final(self) == (SQLiteHistory { records: final(self).records, ..*old(self) }),
            final(self).records@ == arranged(records@),
            final(self).records@.to_multiset() == records@.to_multiset(),
            sorted(final(self).records@),
    {
        self.records = sort_records(&records);
    }

    /// Opens the session of this run, unless it is open.
    pub fn create_session(&mut self, now: i64) -> (r: Result<(), StoreError>)
        requires
            old(self).wf(),
        ensures
            final(self).wf(),
            *final(self) == (SQLiteHistory {
                store: final(self).store,
                session_id: final(self).session_id,
                ..*old(self)
            }),
            match r {
                Ok(()) => if old(self).session_id != 0 {
                    final(self).session_id == old(self).session_id && final(self).store@ == old(
                        self,
                    ).store@
                } else {
                    &&& old(self).store@.sessions.len() < usize::MAX
                    &&& final(self).session_id == old(self).store@.sessions.len() + 1
                    &&& final(self).store@ == old(self).store@.open_session(now)
                },
                Err(e) => {
                    &&& e == StoreError::Full
                    &&& old(self).session_id == 0
                    &&& old(self).store@.sessions.len() >= usize::MAX
                    &&& final(self).session_id == 0
                    &&& final(self).store@ == old(self).store@
                },
            },
    {
        if self.session_id == 0 {
            match self.store.create_session(now) {
                Ok(id) => {
                    self.session_id = id;
                },
                Err(e) => {
                    return Err(e);
                },
            }
        }
        Ok(())
    }

    /// The positions of the rows after `after_cursor` that are eligible and
    /// pass the frequency filter, in rising order.
    pub fn qualifying_positions(&self, after_cursor: usize, now: i64) -> (r: Vec<usize>)
        ensures
            forall|k: int|
                0 <= k < r@.len() ==> (#[trigger] r@[k]) > after_cursor && reviewable(
                    self.store@,
                    r@[k] - 1,
                    self.session_id,
                    now,
                    self.records@,
                    self.freq,
                ),
            forall|i: int|
                #[trigger] reviewable(
                    self.store@,
                    i,
                    self.session_id,
                    now,
                    self.records@,
                    self.freq,
                ) && i + 1 > after_cursor ==> r@.contains((i + 1) as usize),
    {
        let due = self.store.due_positions(self.session_id, after_cursor, now);
        let rows = self.store.len();
        let mut out: Vec<usize> = Vec::new();
        let mut k: usize = 0;
        while k < due.len()
            invariant
                k <= due.len(),
                forall|j: int|
                    0 <= j < due@.len() ==> self.store@.candidate(
                        (#[trigger] due@[j]) - 1,
                        self.session_id,
                        after_cursor,
                        now,
                    ),
                forall|j: int|
                    0 <= j < out@.len() ==> (#[trigger] out@[j]) > after_cursor && reviewable(
                        self.store@,
                        out@[j] - 1,
                        self.session_id,
                        now,
                        self.records@,
                        self.freq,
                    ),
                forall|j: int|
                    0 <= j < k && accepts(
                        self.records@,
                        self.freq,
                        self.store@.rows[(#[trigger] due@[j]) - 1].word,
                    ) ==> out@.contains(due@[j]),
            decreases due.len() - k,
        {
            let position = due[k];
            let row = self.store.row(position - 1);
            if self.passes(row.word.as_str()) {
                let ghost before = out@;
                out.push(position);
                assert forall|j: int|
                    0 <= j < k + 1 && accepts(
                        self.records@,
                        self.freq,
                        self.store@.rows[(#[trigger] due@[j]) - 1].word,
                    ) implies out@.contains(due@[j]) by {
                    if j < k {
                        let m = choose|m: int| 0 <= m < before.len() && before[m] == due@[j];
                        assert(out@[m] == due@[j]);
                    } else {
                        assert(out@[before.len() as int] == due@[j]);
                    }
                }
            }
            k += 1;
        }
        proof {
            assert forall|i: int|
                #[trigger] reviewable(
                    self.store@,
                    i,
                    self.session_id,
                    now,
                    self.records@,
                    self.freq,
                ) && i + 1 > after_cursor implies out@.contains((i + 1) as usize) by {
                assert(self.store@.candidate(i, self.session_id, after_cursor, now));
                assert(due@.contains((i + 1) as usize));
                assert(i + 1 <= rows);
                let j = choose|j: int| 0 <= j < due@.len() && due@[j] == (i + 1) as usize;
                assert(due@[j] - 1 == i);
                assert(accepts(self.records@, self.freq, self.store@.rows[due@[j] - 1].word));
                assert(out@.contains(due@[j]));
            }
        }
        out
    }

    /// Takes the word at `position`, which a draw came up with: its row is
    /// marked with the session of this run, and the cursor moves to the row
    /// or, after a draw that wrapped around, back before the first row.
    pub fn accept_draw(&mut self, position: usize, wrapped: bool) -> (word: String)
        requires
            old(self).wf(),
            1 <= position <= old(self).store@.rows.len(),
        ensures
            final(self).wf(),
            *final(self) == (SQLiteHistory {
                store: final(self).store,
                cursor: final(self).cursor,
                ..*old(self)
            }),
            final(self).cursor == if wrapped {
                BEFORE_START
            } else {
                position
            },
            word@ == old(self).store@.rows[position - 1].word,
            old(self).store@.index_of(word@) == position - 1,
            final(self).store@ == old(self).store@.mark_at(position - 1, old(self).session_id),
    {
        let word = self.store.row(position - 1).word.clone();
        proof {
            lemma_index_unique(self.store@, position - 1, word@);
            lemma_mark_at(self.store@, position - 1, self.session_id);
        }
        self.cursor = if wrapped {
            BEFORE_START
        } else {
            position
        };
        self.store.mark_session(word.as_str(), self.session_id);
        word
    }

    /// Draws one word from the store among those that are due, outside the
    /// session and let through by the frequency filter: after the cursor
    /// where such a word lies there, else from the start.
    pub fn next_to_review_db_inner(&mut self, now: i64) -> (r: Result<String, ReviewError>)
        requires
            old(self).wf(),
        ensures
            final(self).wf(),
            *final(self) == (SQLiteHistory {
                store: final(self).store,
                cursor: final(self).cursor,
                ..*old(self)
            }),
            draw_outcome(
                *old(self),
                old(self).store@,
                old(self).session_id,
                final(self).store@,
                final(self).cursor,
                r,
                now,
            ),
    {
        let ahead = self.qualifying_positions(self.cursor, now);
        if ahead.len() > 0 {
            let pick = random_below(ahead.len());
            let position = ahead[pick];
            proof {
                assert(reviewable(
                    self.store@,
                    position - 1,
                    self.session_id,
                    now,
                    self.records@,
                    self.freq,
                ));
            }
            return Ok(self.accept_draw(position, false));
        }
        proof {
            assert(!reviewable_after(
                self.store@,
                self.cursor,
                self.session_id,
                now,
                self.records@,
                self.freq,
            )) by {
                if reviewable_after(
                    self.store@,
                    self.cursor,
                    self.session_id,
                    now,
                    self.records@,
                    self.freq,
                ) {
                    let i = choose|i: int|
                        #[trigger] reviewable(
                            self.store@,
                            i,
                            self.session_id,
                            now,
                            self.records@,
                            self.freq,
                        ) && i + 1 > self.cursor;
                    assert(ahead@.contains((i + 1) as usize));
                }
            }
        }
        let all = self.qualifying_positions(BEFORE_START, now);
        if all.len() > 0 {
            let pick = random_below(all.len());
            let position = all[pick];
            return Ok(self.accept_draw(position, true));
        }
        proof {
            assert forall|i: int|
                !reviewable(
                    self.store@,
                    i,
                    self.session_id,
                    now,
                    self.records@,
                    self.freq,
                ) by {
                if reviewable(self.store@, i, self.session_id, now, self.records@, self.freq) {
                    assert(all@.contains((i + 1) as usize));
                }
            }
        }
        Err(ReviewError::Exhausted)
    }

    /// Draws one word from the store, as [`Self::next_to_review_db_inner`]
    /// does, with the session of this run, which is opened first where the
    /// run has none.
    pub fn next_to_review_db(&mut self, now: i64) -> (r: Result<String, ReviewError>)
        requires
            old(self).wf(),
        ensures
            final(self).wf(),
            *final(self) == (SQLiteHistory {
                store: final(self).store,
                session_id: final(self).session_id,
                cursor: final(self).cursor,
                ..*old(self)
            }),
            drawn_from_store(*old(self), *final(self), r, now),
    {
        match self.create_session(now) {
            Ok(()) => {},
            Err(e) => {
                return Err(ReviewError::Store(e));
            },
        }
        self.next_to_review_db_inner(now)
    }

    /// The next word to review. It joins `pending`.
    pub fn next_to_review(&mut self, now: i64) -> (r: Result<String, ReviewError>)
        requires
            old(self).wf(),
        ensures
            final(self).wf(),
            reviewed(*old(self), *final(self), r, now),
    {
        match self.next_in_tiers(now) {
            Some(word) => Ok(word),
            None => {
                let ghost left = self.tiers();
                match self.next_to_review_db(now) {
                    Ok(word) => {
                        self.pending.push(word.clone());
                        proof {
                            assert(texts(self.pending@) =~= left.pending.push(word@));
                        }
                        Ok(word)
                    },
                    Err(e) => Err(e),
                }
            },
        }
    }

    /// Writes the card of `word`, stamped with the session of this run, which
    /// is opened first where the run has none.
    pub fn insert_or_replace(&mut self, word: &str, card: Card, now: i64) -> (r: Result<
        (),
        ReviewError,
    >)
        requires
            old(self).wf(),
        ensures
            final(self).wf(),
            *final(self) == (SQLiteHistory {
                store: final(self).store,
                session_id: final(self).session_id,
                ..*old(self)
            }),
            match old(self).session_opened(now) {
                None => {
                    &&& r == Err::<(), ReviewError>(ReviewError::Store(StoreError::Full))
                    &&& final(self).store@ == old(self).store@
                    &&& final(self).session_id == 0
                },
                Some((base, session_id)) => {
                    &&& r is Ok
                    &&& final(self).session_id == session_id
                    &&& final(self).store@ == base.upsert(word@, card, session_id)
                },
            },
    {
        match self.create_session(now) {
            Ok(()) => {},
            Err(e) => {
                return Err(ReviewError::Store(e));
            },
        }
        self.store.upsert(word, card, self.session_id);
        Ok(())
    }

    /// Records a review of `question`: the card that `algorithm` makes of the
    /// stored card, the rating and the time takes the stored card's place.
    pub fn update<F: Fn(Card, Rating, i64) -> Card>(
        &mut self,
        question: &str,
        rating: Rating,
        now: i64,
        algorithm: F,
    ) -> (r: Result<(), ReviewError>)
        requires
            old(self).wf(),
            old(self).store@.card_of(question@) matches Some(card) ==> call_requires(
                algorithm,
                (card, rating, now),
            ),
        ensures
            final(self).wf(),
            *final(self) == (SQLiteHistory {
                store: final(self).store,
                session_id: final(self).session_id,
                ..*old(self)
            }),
            match old(self).store@.card_of(question@) {
                None => {
                    &&& r == Err::<(), ReviewError>(ReviewError::CardNotFound)
                    &&& final(self).store@ == old(self).store@
                    &&& final(self).session_id == old(self).session_id
                },
                Some(card) => match old(self).session_opened(now) {
                    None => {
                        &&& r == Err::<(), ReviewError>(ReviewError::Store(StoreError::Full))
                        &&& final(self).store@ == old(self).store@
                        &&& final(self).session_id == 0
                    },
                    Some((base, session_id)) => {
                        &&& r is Ok
                        &&& final(self).session_id == session_id
                        &&& exists|next: Card|
                            call_ensures(algorithm, (card, rating, now), next) && final(self).store@
                                == base.upsert(question@, next, session_id)
                    },
                },
            },
    {
        let card = match self.store.get(question) {
            Ok(card) => card,
            Err(_) => {
                return Err(ReviewError::CardNotFound);
            },
        };
        let next = algorithm(card, rating, now);
        self.insert_or_replace(question, next, now)
    }

    /// Removes the card of `question`.
    pub fn delete(&mut self, question: &str)
        requires
            old(self).wf(),
        ensures
            final(self).wf(),
            *final(self) == (SQLiteHistory { store: final(self).store, ..*old(self) }),
            final(self).store@ == old(self).store@.delete(question@),
    {
        self.store.delete(question);
    }

    /// Tells whether `question` has a card that is due.
    pub fn should_review(&self, question: &str, now: i64) -> (r: Result<(), ReviewError>)
        requires
            self.wf(),
        ensures
            match self.store@.card_of(question@) {
                None => r == Err::<(), ReviewError>(ReviewError::CardNotFound),
                Some(card) => if is_due(card, now) {
                    r is Ok
                } else {
                    r == Err::<(), ReviewError>(ReviewError::NotDue)
                },
            },
    {
        match self.store.get(question) {
            Ok(card) => if card.due <= now {
                Ok(())
            } else {
                Err(ReviewError::NotDue)
            },
            Err(_) => Err(ReviewError::CardNotFound),
        }
    }

    /// The due words that are phrases, in storage order.
    pub fn phrase(&self, now: i64) -> (r: Vec<String>)
        ensures
            texts(r@) == self.store@.phrases_due(now),
            self.wf() ==> texts(r@).no_duplicates(),
    {
        self.store.phrases_due(now)
    }

    /// The due words outside the session of this run, in storage order.
    pub fn all_words_need_review(&self, now: i64) -> (r: Vec<String>)
        ensures
            texts(r@) == self.store@.all_due(self.session_id, now),
            self.wf() ==> texts(r@).no_duplicates(),
    {
        self.store.all_due(self.session_id, now)
    }
}

/// The index of the first row whose word is `word`, letter case aside.
pub open spec fn spelling_of(store: StoreView, word: Seq<char>) -> Option<int> {
    if exists|i: int| first_spelling(store, i, word) {
        Some(choose|i: int| first_spelling(store, i, word))
    } else {
        None
    }
}

/// Row `i` exists and is the first whose word is `word`, letter case aside.
pub open spec fn first_spelling(store: StoreView, i: int, word: Seq<char>) -> bool {
    &&& 0 <= i < store.rows.len()
    &&& lowercase(store.rows[i].word) == lowercase(word)
    &&& forall|j: int| 0 <= j < i ==> lowercase((#[trigger] store.rows[j]).word) != lowercase(word)
}

/// The index of the first row whose word is `word`, letter case aside.
pub fn find_ignore_case(store: &CardStore, word: &str) -> (r: Option<usize>)
    ensures
        match r {
            Some(i) => spelling_of(store@, word@) == Some(i as int) && i < store@.rows.len(),
            None => spelling_of(store@, word@) is None,
        },
{
    let key = to_lowercase(word);
    let n = store.len();
    let mut i: usize = 0;
    while i < n
        invariant
            i <= n,
            n == store@.rows.len(),
            key@ == lowercase(word@),
            forall|j: int| 0 <= j < i ==> lowercase((#[trigger] store@.rows[j]).word) != lowercase(word@),
        decreases n - i,
    {
        if to_lowercase(store.row(i).word.as_str()) == key {
            proof {
                assert(first_spelling(store@, i as int, word@));
                let c = choose|c: int| first_spelling(store@, c, word@);
                assert(c == i) by {
                    if c < i {
                        assert(lowercase(store@.rows[c].word) != lowercase(word@));
                    } else if i < c {
                        assert(lowercase(store@.rows[i as int].word) != lowercase(word@));
                    }
                }
            }
            return Some(i);
        }
        i += 1;
    }
    proof {
        assert forall|c: int| !first_spelling(store@, c, word@) by {
            if 0 <= c < store@.rows.len() {
                assert(lowercase(store@.rows[c].word) != lowercase(word@));
            }
        }
    }
    None
}

/// The test for a word that the table of neighbours has no entry for.
pub open spec fn unscored_in(table: Seq<NeighboursView>) -> spec_fn(Seq<char>) -> bool {
    |word: Seq<char>| scored_against(table, word) is None
}

/// The test for a word that has a card in `store` which is due at `now`.
pub open spec fn due_in(store: StoreView, now: i64) -> spec_fn(Seq<char>) -> bool {
    |word: Seq<char>|
        match store.card_of(word) {
            Some(card) => is_due(card, now),
            None => false,
        }
}

/// The card stored for `word`.
pub fn get_word(store: &CardStore, word: &str) -> (r: Result<Card, ReviewError>)
    requires
        store.wf(),
    ensures
        match r {
            Ok(card) => store@.card_of(word@) == Some(card),
            Err(e) => e == ReviewError::CardNotFound && store@.card_of(word@) is None,
        },
{
    match store.get(word) {
        Ok(card) => Ok(card),
        Err(_) => Err(ReviewError::CardNotFound),
    }
}

/// The stored words near `word` that are outside session `exclude`.
pub fn stored_near(store: &CardStore, word: &str, exclude: u64) -> (r: Vec<String>)
    ensures
        texts(r@) == near_words(store@, word@, exclude),
{
    let key = String::from_str(word);
    let n = store.len();
    let mut out: Vec<String> = Vec::new();
    let mut i: usize = 0;
    let ghost rows = store@.rows;
    let ghost pred = near_row(word@, exclude);
    proof {
        reveal(Seq::filter);
        assert(rows.take(0) =~= Seq::<RowView>::empty());
        assert(texts(out@) =~= rows.take(0).filter(pred).map_values(word_of()));
    }
    while i < n
        invariant
            i <= n,
            n == rows.len(),
            key@ == word@,
            rows == store@.rows,
            pred == near_row(word@, exclude),
            texts(out@) == rows.take(i as int).filter(pred).map_values(word_of()),
        decreases n - i,
    {
        let row = store.row(i);
        let ghost before = rows.take(i as int);
        proof {
            assert(rows.take(i + 1) =~= before.push(rows[i as int]));
            before.lemma_filter_push(rows[i as int], pred);
        }
        if row.word != key && (exclude == 0 || row.session_id != exclude) && is_near(
            row.word.as_str(),
            word,
        ) {
            let ghost kept = texts(out@);
            out.push(row.word.clone());
            proof {
                assert(texts(out@) =~= kept.push(rows[i as int].word));
                assert(before.filter(pred).push(rows[i as int]).map_values(word_of())
                    =~= before.filter(pred).map_values(word_of()).push(rows[i as int].word));
            }
        }
        i += 1;
    }
    proof {
        assert(rows.take(n as int) =~= rows);
    }
    out
}

/// The scan lands on the first word of the queue that is in neither
/// `pending` nor `done`, and finds none only where every word is in one.
pub proof fn lemma_scan_bounds(queue: Seq<Seq<char>>, pending: Seq<Seq<char>>, done: Seq<Seq<char>>)
    ensures
        match scan(queue, pending, done) {
            Some(k) => {
                &&& 0 <= k < queue.len()
                &&& !pending.contains(queue[k])
                &&& !done.contains(queue[k])
                &&& forall|j: int| 0 <= j < k ==> pending.contains(queue[j]) || done.contains(queue[j])
            },
            None => forall|j: int|
                0 <= j < queue.len() ==> pending.contains(queue[j]) || done.contains(queue[j]),
        },
    decreases queue.len(),
{
    if queue.len() > 0 {
        if !pending.contains(queue[0]) && !done.contains(queue[0]) {
        } else {
            lemma_scan_bounds(queue.drop_first(), pending, done);
            match scan(queue.drop_first(), pending, done) {
                Some(k) => {
                    assert forall|j: int| 0 <= j < k + 1 implies pending.contains(queue[j])
                        || done.contains(queue[j]) by {
                        if j > 0 {
                            assert(queue[j] == queue.drop_first()[j - 1]);
                        }
                    }
                },
                None => {
                    assert forall|j: int| 0 <= j < queue.len() implies pending.contains(queue[j])
                        || done.contains(queue[j]) by {
                        if j > 0 {
                            assert(queue[j] == queue.drop_first()[j - 1]);
                        }
                    }
                },
            }
        }
    }
}

} // verus!
