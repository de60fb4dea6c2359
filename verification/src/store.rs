//! The card store: one row per word, in storage order, and the table of
//! review sessions.

use crate::card::Card;
use crate::chance::random_below;
use crate::text::{contains_whitespace, is_phrase, texts};
use vstd::prelude::*;

verus! {

/// One stored word with its card and the session that last surfaced it.
pub struct Row {
    pub word: String,
    pub card: Card,
    pub session_id: u64,
}

/// The mathematical content of a [`Row`].
pub struct RowView {
    pub word: Seq<char>,
    pub card: Card,
    pub session_id: u64,
}

impl View for Row {
    type V = RowView;

    open spec fn view(&self) -> RowView {
        RowView { word: self.word@, card: self.card, session_id: self.session_id }
    }
}

/// One run of a scheduler.
#[derive(Clone, Copy, Debug, PartialEq, Eq)]
pub struct SessionRecord {
    pub id: u64,
    pub created_at: i64,
}

/// Why a store operation failed.
#[derive(Clone, Copy, Debug, PartialEq, Eq, Structural)]
pub enum StoreError {
    /// No row holds the word.
    NotFound,
    /// The session table cannot take another record.
    Full,
}

/// The mathematical content of a [`CardStore`]: its rows in storage order
/// (the row at index `i` has position `i + 1`) and its sessions in the order
/// of their creation.
pub struct StoreView {
    pub rows: Seq<RowView>,
    pub sessions: Seq<SessionRecord>,
}

/// A word is due once its card's due time has come.
pub open spec fn is_due(card: Card, now: i64) -> bool {
    card.due <= now
}

/// Session 0 stands for "no session yet" and excludes nothing.
pub open spec fn outside_session(session_id: u64, exclude: u64) -> bool {
    exclude == 0 || session_id != exclude
}

impl RowView {
    /// The row is due and was not last surfaced by session `exclude`.
    pub open spec fn eligible(self, exclude: u64, now: i64) -> bool {
        is_due(self.card, now) && outside_session(self.session_id, exclude)
    }

    /// The same row, surfaced by `session_id`.
    pub open spec fn marked(self, session_id: u64) -> RowView {
        RowView { session_id, ..self }
    }
}

/// The test of [`RowView::eligible`] as a function of the row.
pub open spec fn eligible_row(exclude: u64, now: i64) -> spec_fn(RowView) -> bool {
    |row: RowView| row.eligible(exclude, now)
}

/// The test for a due row whose word is a phrase.
pub open spec fn due_phrase_row(now: i64) -> spec_fn(RowView) -> bool {
    |row: RowView| is_due(row.card, now) && is_phrase(row.word)
}

/// The word of a row.
pub open spec fn word_of() -> spec_fn(RowView) -> Seq<char> {
    |row: RowView| row.word
}

impl StoreView {
    /// No word has two rows, and the sessions are numbered from 1.
    pub open spec fn wf(self) -> bool {
        &&& forall|i: int, j: int|
            0 <= i < j < self.rows.len() ==> (#[trigger] self.rows[i]).word != (
            #[trigger] self.rows[j]).word
        &&& forall|k: int| 0 <= k < self.sessions.len() ==> (#[trigger] self.sessions[k]).id == k + 1
    }

    /// Row `i` exists and holds `word`.
    pub open spec fn holds(self, i: int, word: Seq<char>) -> bool {
        0 <= i < self.rows.len() && self.rows[i].word == word
    }

    /// Some row holds `word`.
    pub open spec fn contains(self, word: Seq<char>) -> bool {
        exists|i: int| self.holds(i, word)
    }

    /// The index of the row that holds `word`, where there is one.
    pub open spec fn index_of(self, word: Seq<char>) -> int {
        choose|i: int| self.holds(i, word)
    }

    /// The card stored for `word`.
    pub open spec fn card_of(self, word: Seq<char>) -> Option<Card> {
        if self.contains(word) {
            Some(self.rows[self.index_of(word)].card)
        } else {
            None
        }
    }

    /// The session that last surfaced `word`.
    pub open spec fn session_of(self, word: Seq<char>) -> Option<u64> {
        if self.contains(word) {
            Some(self.rows[self.index_of(word)].session_id)
        } else {
            None
        }
    }

    /// The rows without the one that holds `word`.
    pub open spec fn rows_without(self, word: Seq<char>) -> Seq<RowView> {
        if self.contains(word) {
            self.rows.remove(self.index_of(word))
        } else {
            self.rows
        }
    }

    /// The store after `word` was written: its old row, if any, is gone and a
    /// new row stands last.
    pub open spec fn upsert(self, word: Seq<char>, card: Card, session_id: u64) -> StoreView {
        StoreView {
            rows: self.rows_without(word).push(RowView { word, card, session_id }),
            sessions: self.sessions,
        }
    }

    /// The store without the row of `word`.
    pub open spec fn delete(self, word: Seq<char>) -> StoreView {
        StoreView { rows: self.rows_without(word), sessions: self.sessions }
    }

    /// The store after row `i` was surfaced by `session_id`.
    pub open spec fn mark_at(self, i: int, session_id: u64) -> StoreView {
        StoreView { rows: self.rows.update(i, self.rows[i].marked(session_id)), sessions: self.sessions }
    }

    /// The store after the row of `word`, if it has one, was surfaced by
    /// `session_id`.
    pub open spec fn mark(self, word: Seq<char>, session_id: u64) -> StoreView {
        if self.contains(word) {
            self.mark_at(self.index_of(word), session_id)
        } else {
            self
        }
    }

    /// Row `i` is eligible and its position lies strictly after `cursor`.
    pub open spec fn candidate(self, i: int, exclude: u64, cursor: usize, now: i64) -> bool {
        &&& 0 <= i < self.rows.len()
        &&& self.rows[i].eligible(exclude, now)
        &&& i + 1 > cursor
    }

    /// Some row is a candidate.
    pub open spec fn has_candidate(self, exclude: u64, cursor: usize, now: i64) -> bool {
        exists|i: int| self.candidate(i, exclude, cursor, now)
    }

    /// The words of the rows that are due and outside session `exclude`, in
    /// storage order.
    pub open spec fn all_due(self, exclude: u64, now: i64) -> Seq<Seq<char>> {
        self.rows.filter(eligible_row(exclude, now)).map_values(word_of())
    }

    /// The due words that are phrases, in storage order.
    pub open spec fn phrases_due(self, now: i64) -> Seq<Seq<char>> {
        self.rows.filter(due_phrase_row(now)).map_values(word_of())
    }

    /// The store after a session was opened at `now`.
    pub open spec fn open_session(self, now: i64) -> StoreView {
        StoreView {
            rows: self.rows,
            sessions: self.sessions.push(
                SessionRecord { id: (self.sessions.len() + 1) as u64, created_at: now },
            ),
        }
    }
}

/// In a well-formed store a word's row is found at the one index that holds it.
pub proof fn lemma_index_unique(s: StoreView, i: int, word: Seq<char>)
    requires
        s.wf(),
        s.holds(i, word),
    ensures
        s.contains(word),
        s.index_of(word) == i,
{
    let j = s.index_of(word);
    assert(s.holds(j, word));
    if i < j {
        assert(s.rows[i].word != s.rows[j].word);
    } else if j < i {
        assert(s.rows[j].word != s.rows[i].word);
    }
}

/// Taking a word's row out leaves a well-formed store that no longer holds
/// the word, and keeps every other word's row.
pub proof fn lemma_delete(s: StoreView, word: Seq<char>)
    requires
        s.wf(),
    ensures
        s.delete(word).wf(),
        !s.delete(word).contains(word),
        forall|other: Seq<char>|
            other != word ==> s.delete(word).contains(other) == s.contains(other)
                && s.delete(word).card_of(other) == s.card_of(other)
                && s.delete(word).session_of(other) == s.session_of(other),
{
    let d = s.delete(word);
    if s.contains(word) {
        let k = s.index_of(word);
        assert(s.holds(k, word));
        assert forall|i: int| 0 <= i < d.rows.len() implies #[trigger] d.rows[i] == s.rows[
            if i < k {
                i
            } else {
                i + 1
            }] by {}
        assert forall|i: int, j: int| 0 <= i < j < d.rows.len() implies (#[trigger] d.rows[i]).word
            != (#[trigger] d.rows[j]).word by {
            let a = if i < k { i } else { i + 1 };
            let b = if j < k { j } else { j + 1 };
            assert(s.rows[a].word != s.rows[b].word);
        }
        assert forall|i: int| !d.holds(i, word) by {
            if 0 <= i < d.rows.len() {
                let a = if i < k { i } else { i + 1 };
                if a < k {
                    assert(s.rows[a].word != s.rows[k].word);
                } else {
                    assert(s.rows[k].word != s.rows[a].word);
                }
            }
        }
        assert forall|other: Seq<char>| other != word implies d.contains(other) == s.contains(other)
            && d.card_of(other) == s.card_of(other) && d.session_of(other) == s.session_of(
            other,
        ) by {
            if s.contains(other) {
                let a = s.index_of(other);
                assert(s.holds(a, other));
                let i = if a < k { a } else { a - 1 };
                assert(d.holds(i, other));
                lemma_index_unique(d, i, other);
            }
            if d.contains(other) {
                let i = d.index_of(other);
                assert(d.holds(i, other));
                let a = if i < k { i } else { i + 1 };
                assert(s.holds(a, other));
                lemma_index_unique(s, a, other);
            }
        }
    } else {
        assert(d == s);
    }
}

/// Writing a word leaves a well-formed store in which the word has the card
/// and the session that were written, and every other word is as before.
pub proof fn lemma_upsert(s: StoreView, word: Seq<char>, card: Card, session_id: u64)
    requires
        s.wf(),
    ensures
        s.upsert(word, card, session_id).wf(),
        s.upsert(word, card, session_id).card_of(word) == Some(card),
        s.upsert(word, card, session_id).session_of(word) == Some(session_id),
        forall|other: Seq<char>|
            other != word ==> s.upsert(word, card, session_id).contains(other) == s.contains(other)
                && s.upsert(word, card, session_id).card_of(other) == s.card_of(other)
                && s.upsert(word, card, session_id).session_of(other) == s.session_of(other),
{
    let d = s.delete(word);
    let u = s.upsert(word, card, session_id);
    lemma_delete(s, word);
    let n = d.rows.len() as int;
    assert(u.rows == d.rows.push(RowView { word, card, session_id }));
    assert forall|i: int, j: int| 0 <= i < j < u.rows.len() implies (#[trigger] u.rows[i]).word != (
    #[trigger] u.rows[j]).word by {
        if j < n {
            assert(d.rows[i].word != d.rows[j].word);
        } else {
            assert(!d.holds(i, word));
        }
    }
    assert(u.holds(n, word));
    lemma_index_unique(u, n, word);
    assert forall|other: Seq<char>| other != word implies u.contains(other) == s.contains(other)
        && u.card_of(other) == s.card_of(other) && u.session_of(other) == s.session_of(other) by {
        if d.contains(other) {
            let i = d.index_of(other);
            assert(d.holds(i, other));
            assert(u.holds(i, other));
            lemma_index_unique(u, i, other);
        }
        if u.contains(other) {
            let i = u.index_of(other);
            assert(u.holds(i, other));
            assert(d.holds(i, other));
            lemma_index_unique(d, i, other);
        }
    }
}

/// Marking a row leaves the store well-formed, with the same words and cards.
pub proof fn lemma_mark_at(s: StoreView, i: int, session_id: u64)
    requires
        s.wf(),
        0 <= i < s.rows.len(),
    ensures
        s.mark_at(i, session_id).wf(),
        s.mark(s.rows[i].word, session_id) == s.mark_at(i, session_id),
        forall|word: Seq<char>|
            s.mark_at(i, session_id).contains(word) == s.contains(word) && s.mark_at(
                i,
                session_id,
            ).card_of(word) == s.card_of(word),
        s.mark_at(i, session_id).session_of(s.rows[i].word) == Some(session_id),
{
    let m = s.mark_at(i, session_id);
    assert(s.holds(i, s.rows[i].word));
    lemma_index_unique(s, i, s.rows[i].word);
    assert forall|a: int, b: int| 0 <= a < b < m.rows.len() implies (#[trigger] m.rows[a]).word != (
    #[trigger] m.rows[b]).word by {
        assert(s.rows[a].word != s.rows[b].word);
    }
    assert forall|word: Seq<char>|
        m.contains(word) == s.contains(word) && m.card_of(word) == s.card_of(word) by {
        if s.contains(word) {
            let a = s.index_of(word);
            assert(s.holds(a, word));
            assert(m.holds(a, word));
            lemma_index_unique(m, a, word);
        }
        if m.contains(word) {
            let a = m.index_of(word);
            assert(m.holds(a, word));
            assert(s.holds(a, word));
            lemma_index_unique(s, a, word);
        }
    }
    assert(m.holds(i, s.rows[i].word));
    lemma_index_unique(m, i, s.rows[i].word);
}

/// Every row that holds `word` carries `session_id`: the word was surfaced
/// by that session, or it has no row.
pub open spec fn surfaced(s: StoreView, word: Seq<char>, session_id: u64) -> bool {
    forall|i: int| s.holds(i, word) ==> (#[trigger] s.rows[i]).session_id == session_id
}

/// No word stands twice among the words of the rows that pass a test, and
/// each of them is the word of a row that passes.
pub proof fn lemma_kept_words_distinct(s: StoreView, rows: Seq<RowView>, pred: spec_fn(RowView) -> bool)
    requires
        s.wf(),
        rows == s.rows.take(rows.len() as int),
        rows.len() <= s.rows.len(),
    ensures
        rows.filter(pred).map_values(word_of()).no_duplicates(),
        forall|k: int|
            0 <= k < rows.filter(pred).len() ==> exists|i: int|
                0 <= i < rows.len() && rows[i] == #[trigger] rows.filter(pred)[k],
    decreases rows.len(),
{
    reveal(Seq::filter);
    let kept = rows.filter(pred);
    if rows.len() > 0 {
        let head = rows.drop_last();
        let n = head.len() as int;
        assert(head =~= s.rows.take(n));
        lemma_kept_words_distinct(s, head, pred);
        let before = head.filter(pred);
        assert forall|k: int| 0 <= k < kept.len() implies exists|i: int|
            0 <= i < rows.len() && rows[i] == #[trigger] kept[k] by {
            if k < before.len() {
                let i = choose|i: int| 0 <= i < head.len() && head[i] == before[k];
                assert(rows[i] == kept[k]);
            } else {
                assert(rows[n] == kept[k]);
            }
        }
        let words = kept.map_values(word_of());
        assert forall|a: int, b: int| 0 <= a < words.len() && 0 <= b < words.len() && a
            != b implies words[a] != words[b] by {
            let old_words = before.map_values(word_of());
            if a < before.len() && b < before.len() {
                assert(old_words[a] != old_words[b]);
            } else {
                let k = if a < before.len() { a } else { b };
                let i = choose|i: int| 0 <= i < head.len() && head[i] == before[k];
                assert(s.rows[i].word != s.rows[n].word);
            }
        }
    }
}

/// A word drawn from the store, with the position of its row.
pub struct Drawn {
    pub position: usize,
    pub word: String,
}

/// The card store.
pub struct CardStore {
    rows: Vec<Row>,
    sessions: Vec<SessionRecord>,
}

impl View for CardStore {
    type V = StoreView;

    closed spec fn view(&self) -> StoreView {
        StoreView { rows: Seq::new(self.rows@.len(), |i: int| self.rows@[i]@), sessions: self.sessions@ }
    }
}

impl CardStore {
    /// The store's contents are well-formed.
    pub open spec fn wf(&self) -> bool {
        self@.wf()
    }

    /// A store without rows or sessions.
    pub fn new() -> (s: Self)
        ensures
            s.wf(),
            s@.rows.len() == 0,
            s@.sessions.len() == 0,
    {
        CardStore { rows: Vec::new(), sessions: Vec::new() }
    }

    /// The number of rows.
    pub fn len(&self) -> (n: usize)
        ensures
            n == self@.rows.len(),
    {
        self.rows.len()
    }

    /// The row at index `i`.
    pub fn row(&self, i: usize) -> (r: &Row)
        requires
            i < self@.rows.len(),
        ensures
            r@ == self@.rows[i as int],
    {
        &self.rows[i]
    }

    /// Every stored word, in storage order.
    pub fn words(&self) -> (r: Vec<String>)
        ensures
            texts(r@) == self@.rows.map_values(word_of()),
    {
        let mut out: Vec<String> = Vec::new();
        let mut i: usize = 0;
        while i < self.rows.len()
            invariant
                i <= self.rows.len(),
                out@.len() == i,
                forall|j: int| 0 <= j < i ==> (#[trigger] out@[j])@ == self@.rows[j].word,
            decreases self.rows.len() - i,
        {
            out.push(self.rows[i].word.clone());
            i += 1;
        }
        proof {
            assert(texts(out@) =~= self@.rows.map_values(word_of()));
        }
        out
    }

    /// The number of sessions opened so far.
    pub fn session_count(&self) -> (n: usize)
        ensures
            n == self@.sessions.len(),
    {
        self.sessions.len()
    }

    /// The session with id `i + 1`.
    pub fn session(&self, i: usize) -> (r: SessionRecord)
        requires
            i < self@.sessions.len(),
        ensures
            r == self@.sessions[i as int],
    {
        self.sessions[i]
    }

    /// The index of the row that holds `word`.
    pub fn find(&self, word: &str) -> (r: Option<usize>)
        requires
            self.wf(),
        ensures
            match r {
                Some(i) => self@.holds(i as int, word@) && self@.index_of(word@) == i,
                None => !self@.contains(word@),
            },
    {
        let key = String::from_str(word);
        let mut i: usize = 0;
        while i < self.rows.len()
            invariant
                self.wf(),
                i <= self.rows.len(),
                key@ == word@,
                forall|j: int| 0 <= j < i ==> !self@.holds(j, word@),
            decreases self.rows.len() - i,
        {
            if self.rows[i].word == key {
                proof {
                    lemma_index_unique(self@, i as int, word@);
                }
                return Some(i);
            }
            i += 1;
        }
        None
    }

    /// The card stored for `word`.
    pub fn get(&self, word: &str) -> (r: Result<Card, StoreError>)
        requires
            self.wf(),
        ensures
            match r {
                Ok(card) => self@.card_of(word@) == Some(card),
                Err(e) => e == StoreError::NotFound && !self@.contains(word@),
            },
    {
        match self.find(word) {
            Some(i) => Ok(self.rows[i].card),
            None => Err(StoreError::NotFound),
        }
    }

    /// Inserts the card row for `word`, or replaces it, stamped with
    /// `session_id`. The written row stands last.
    pub fn upsert(&mut self, word: &str, card: Card, session_id: u64)
        requires
            old(self).wf(),
        ensures
            final(self).wf(),
            final(self)@ == old(self)@.upsert(word@, card, session_id),
    {
        match self.find(word) {
            Some(i) => {
                self.rows.remove(i);
            },
            None => {},
        }
        self.rows.push(Row { word: String::from_str(word), card, session_id });
        proof {
            lemma_upsert(old(self)@, word@, card, session_id);
            assert(self@.rows =~= old(self)@.upsert(word@, card, session_id).rows);
        }
    }

    /// Removes the row for `word`; a word without a row is left so.
    pub fn delete(&mut self, word: &str)
        requires
            old(self).wf(),
        ensures
            final(self).wf(),
            final(self)@ == old(self)@.delete(word@),
    {
        match self.find(word) {
            Some(i) => {
                self.rows.remove(i);
            },
            None => {},
        }
        proof {
            lemma_delete(old(self)@, word@);
            assert(self@.rows =~= old(self)@.delete(word@).rows);
        }
    }

    /// Sets the session of the row for `word`; a word without a row is left so.
    pub fn mark_session(&mut self, word: &str, session_id: u64)
        requires
            old(self).wf(),
        ensures
            final(self).wf(),
            final(self)@ == old(self)@.mark(word@, session_id),
    {
        match self.find(word) {
            Some(i) => {
                let mut row = self.rows.remove(i);
                row.session_id = session_id;
                self.rows.insert(i, row);
                proof {
                    lemma_mark_at(old(self)@, i as int, session_id);
                    assert(self@.rows =~= old(self)@.mark_at(i as int, session_id).rows);
                }
            },
            None => {},
        }
    }

    /// Opens a session at `now` and returns its id, the number of sessions
    /// opened so far.
    pub fn create_session(&mut self, now: i64) -> (r: Result<u64, StoreError>)
        requires
            old(self).wf(),
        ensures
            final(self).wf(),
            match r {
                Ok(id) => {
                    &&& old(self)@.sessions.len() < usize::MAX
                    &&& id == old(self)@.sessions.len() + 1
                    &&& final(self)@ == old(self)@.open_session(now)
                },
                Err(e) => {
                    &&& e == StoreError::Full
                    &&& old(self)@.sessions.len() >= usize::MAX
                    &&& final(self)@ == old(self)@
                },
            },
    {
        if self.sessions.len() == usize::MAX {
            return Err(StoreError::Full);
        }
        let id = (self.sessions.len() + 1) as u64;
        self.sessions.push(SessionRecord { id, created_at: now });
        proof {
            assert(self@.rows =~= old(self)@.rows);
            assert(self@.sessions =~= old(self)@.open_session(now).sessions);
            assert forall|k: int| 0 <= k < self@.sessions.len() implies (#[trigger] self@.sessions[k]).id
                == k + 1 by {
                if k < old(self)@.sessions.len() {
                    assert(old(self)@.sessions[k].id == k + 1);
                }
            }
        }
        Ok(id)
    }

    /// The positions of the rows that are due, outside session `exclude` and
    /// strictly after `after_cursor`, in rising order.
    pub fn due_positions(&self, exclude: u64, after_cursor: usize, now: i64) -> (r: Vec<usize>)
        ensures
            forall|k: int|
                0 <= k < r@.len() ==> self@.candidate(
                    (#[trigger] r@[k]) - 1,
                    exclude,
                    after_cursor,
                    now,
                ),
            forall|a: int, b: int| 0 <= a < b < r@.len() ==> r@[a] < r@[b],
            forall|i: int|
                self@.candidate(i, exclude, after_cursor, now) ==> r@.contains((i + 1) as usize),
    {
        let mut out: Vec<usize> = Vec::new();
        let mut i: usize = 0;
        while i < self.rows.len()
            invariant
                i <= self.rows.len(),
                forall|k: int|
                    0 <= k < out@.len() ==> (#[trigger] out@[k]) <= i && self@.candidate(
                        out@[k] - 1,
                        exclude,
                        after_cursor,
                        now,
                    ),
                forall|a: int, b: int| 0 <= a < b < out@.len() ==> out@[a] < out@[b],
                forall|j: int|
                    0 <= j < i && self@.candidate(j, exclude, after_cursor, now) ==> out@.contains(
                        (j + 1) as usize,
                    ),
            decreases self.rows.len() - i,
        {
            let row = &self.rows[i];
            if row.card.due <= now && (exclude == 0 || row.session_id != exclude) && i
                >= after_cursor {
                let ghost before = out@;
                out.push(i + 1);
                assert forall|j: int|
                    0 <= j < i + 1 && self@.candidate(
                        j,
                        exclude,
                        after_cursor,
                        now,
                    ) implies out@.contains((j + 1) as usize) by {
                    if j < i {
                        let k = choose|k: int| 0 <= k < before.len() && before[k] == (j + 1) as usize;
                        assert(out@[k] == (j + 1) as usize);
                    } else {
                        assert(out@[before.len() as int] == (j + 1) as usize);
                    }
                }
            }
            i += 1;
        }
        out
    }

    /// The word at `position`, counted from 1.
    pub fn word_at(&self, position: usize) -> (r: Option<Drawn>)
        ensures
            match r {
                Some(d) => {
                    &&& 1 <= position <= self@.rows.len()
                    &&& d.position == position
                    &&& d.word@ == self@.rows[position - 1].word
                },
                None => position < 1 || position > self@.rows.len(),
            },
    {
        if 1 <= position && position <= self.rows.len() {
            Some(Drawn { position, word: self.rows[position - 1].word.clone() })
        } else {
            None
        }
    }

    /// One word, drawn at random, among those that are due, outside session
    /// `exclude` and strictly after `after_cursor`.
    pub fn due_words(&self, exclude: u64, after_cursor: usize, now: i64) -> (r: Option<Drawn>)
        ensures
            match r {
                Some(d) => {
                    &&& self@.candidate(d.position - 1, exclude, after_cursor, now)
                    &&& d.word@ == self@.rows[d.position - 1].word
                },
                None => !self@.has_candidate(exclude, after_cursor, now),
            },
    {
        let positions = self.due_positions(exclude, after_cursor, now);
        if positions.len() == 0 {
            assert forall|i: int| !self@.candidate(i, exclude, after_cursor, now) by {
                if self@.candidate(i, exclude, after_cursor, now) {
                    assert(positions@.contains((i + 1) as usize));
                }
            }
            return None;
        }
        let pick = random_below(positions.len());
        self.word_at(positions[pick])
    }

    /// The same draw over the whole store.
    pub fn due_words_from_start(&self, exclude: u64, now: i64) -> (r: Option<Drawn>)
        ensures
            match r {
                Some(d) => {
                    &&& self@.candidate(d.position - 1, exclude, 0, now)
                    &&& d.word@ == self@.rows[d.position - 1].word
                },
                None => !self@.has_candidate(exclude, 0, now),
            },
    {
        self.due_words(exclude, 0, now)
    }

    /// Every word that is due and outside session `exclude`, in storage order.
    pub fn all_due(&self, exclude: u64, now: i64) -> (r: Vec<String>)
        ensures
            texts(r@) == self@.all_due(exclude, now),
            self.wf() ==> texts(r@).no_duplicates(),
    {
        proof {
            if self.wf() {
                assert(self@.rows.take(self@.rows.len() as int) =~= self@.rows);
                lemma_kept_words_distinct(self@, self@.rows, eligible_row(exclude, now));
            }
        }
        let mut out: Vec<String> = Vec::new();
        let mut i: usize = 0;
        proof {
            reveal(Seq::filter);
            assert(self@.rows.take(0) =~= Seq::<RowView>::empty());
            assert(texts(out@) =~= self@.rows.take(0).filter(eligible_row(exclude, now)).map_values(
                word_of(),
            ));
        }
        while i < self.rows.len()
            invariant
                i <= self.rows.len(),
                texts(out@) == self@.rows.take(i as int).filter(
                    eligible_row(exclude, now),
                ).map_values(word_of()),
            decreases self.rows.len() - i,
        {
            let row = &self.rows[i];
            let ghost before = self@.rows.take(i as int);
            proof {
                assert(self@.rows.take(i + 1) =~= before.push(self@.rows[i as int]));
                before.lemma_filter_push(self@.rows[i as int], eligible_row(exclude, now));
            }
            if row.card.due <= now && (exclude == 0 || row.session_id != exclude) {
                let ghost kept = texts(out@);
                out.push(row.word.clone());
                assert(texts(out@) =~= kept.push(row.word@));
                assert(before.filter(eligible_row(exclude, now)).push(self@.rows[i as int]).map_values(
                    word_of(),
                ) =~= kept.push(row.word@));
            }
            i += 1;
        }
        assert(self@.rows.take(i as int) =~= self@.rows);
        out
    }

    /// Every due word that is a phrase, in storage order.
    pub fn phrases_due(&self, now: i64) -> (r: Vec<String>)
        ensures
            texts(r@) == self@.phrases_due(now),
            self.wf() ==> texts(r@).no_duplicates(),
    {
        proof {
            if self.wf() {
                assert(self@.rows.take(self@.rows.len() as int) =~= self@.rows);
                lemma_kept_words_distinct(self@, self@.rows, due_phrase_row(now));
            }
        }
        let mut out: Vec<String> = Vec::new();
        let mut i: usize = 0;
        proof {
            reveal(Seq::filter);
            assert(self@.rows.take(0) =~= Seq::<RowView>::empty());
            assert(texts(out@) =~= self@.rows.take(0).filter(due_phrase_row(now)).map_values(
                word_of(),
            ));
        }
        while i < self.rows.len()
            invariant
                i <= self.rows.len(),
                texts(out@) == self@.rows.take(i as int).filter(due_phrase_row(now)).map_values(
                    word_of(),
                ),
            decreases self.rows.len() - i,
        {
            let row = &self.rows[i];
            let ghost before = self@.rows.take(i as int);
            proof {
                assert(self@.rows.take(i + 1) =~= before.push(self@.rows[i as int]));
                before.lemma_filter_push(self@.rows[i as int], due_phrase_row(now));
            }
            if row.card.due <= now && contains_whitespace(row.word.as_str()) {
                let ghost kept = texts(out@);
                out.push(row.word.clone());
                assert(texts(out@) =~= kept.push(row.word@));
                assert(before.filter(due_phrase_row(now)).push(self@.rows[i as int]).map_values(
                    word_of(),
                ) =~= kept.push(row.word@));
            }
            i += 1;
        }
        assert(self@.rows.take(i as int) =~= self@.rows);
        out
    }
}

} // verus!
