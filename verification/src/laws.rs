//! What holds of the store and the scheduler across calls.

use crate::card::Card;
use crate::scheduler::{
    advance, drawn_from_store, lemma_scan_bounds, reviewed, scan, ReviewError, SQLiteHistory, Tiers,
    BEFORE_START,
};
use crate::store::{
    due_phrase_row, eligible_row, is_due, lemma_delete, lemma_index_unique, lemma_mark_at,
    lemma_upsert, outside_session, surfaced, word_of, RowView, StoreError, StoreView,
};
use crate::text::is_phrase;
use vstd::prelude::*;

verus! {

/// Round trip: a card written for a word is the card read back for it,
/// whatever the card, the word and the session.
pub proof fn law_round_trip(s: StoreView, word: Seq<char>, card: Card, session_id: u64)
    requires
        s.wf(),
    ensures
        s.upsert(word, card, session_id).wf(),
        s.upsert(word, card, session_id).card_of(word) == Some(card),
{
    lemma_upsert(s, word, card, session_id);
}

/// Last write wins: of two cards written for a word one after the other, the
/// second is read back.
pub proof fn law_last_write_wins(
    s: StoreView,
    word: Seq<char>,
    first: Card,
    second: Card,
    session_id: u64,
)
    requires
        s.wf(),
    ensures
        s.upsert(word, first, session_id).upsert(word, second, session_id).card_of(word) == Some(
            second,
        ),
{
    lemma_upsert(s, word, first, session_id);
    lemma_upsert(s.upsert(word, first, session_id), word, second, session_id);
}

/// Delete then lookup: a deleted word has no card, whether it had one or not.
pub proof fn law_delete_then_lookup(s: StoreView, word: Seq<char>)
    requires
        s.wf(),
    ensures
        s.delete(word).wf(),
        s.delete(word).card_of(word) is None,
        s.delete(word).delete(word) == s.delete(word),
{
    lemma_delete(s, word);
}

/// A word is among the words of the rows that pass a test exactly when its
/// row passes.
proof fn lemma_kept_words(s: StoreView, pred: spec_fn(RowView) -> bool, word: Seq<char>)
    requires
        s.wf(),
    ensures
        s.rows.filter(pred).map_values(word_of()).contains(word) <==> s.contains(word) && pred(
            s.rows[s.index_of(word)],
        ),
{
    let kept = s.rows.filter(pred);
    let words = kept.map_values(word_of());
    if words.contains(word) {
        let k = choose|k: int| 0 <= k < words.len() && words[k] == word;
        s.rows.lemma_filter_pred(pred, k);
        assert(kept.contains(kept[k]));
        s.rows.lemma_filter_contains_rev(pred, kept[k]);
        let i = choose|i: int| 0 <= i < s.rows.len() && s.rows[i] == kept[k];
        assert(s.holds(i, word));
        lemma_index_unique(s, i, word);
    }
    if s.contains(word) && pred(s.rows[s.index_of(word)]) {
        let i = s.index_of(word);
        assert(s.holds(i, word));
        s.rows.lemma_filter_contains(pred, i);
        let k = choose|k: int| 0 <= k < kept.len() && kept[k] == s.rows[i];
        assert(words[k] == word);
    }
}

/// The due phrases are the words with white space whose card is due,
/// whatever session surfaced them; the due words outside a session are the
/// words whose card is due and whose row the session did not surface.
pub proof fn law_due_lists(s: StoreView, exclude: u64, now: i64, word: Seq<char>)
    requires
        s.wf(),
    ensures
        s.phrases_due(now).contains(word) <==> is_phrase(word) && (s.card_of(word) matches Some(
            card,
        ) && is_due(card, now)),
        s.all_due(exclude, now).contains(word) <==> (s.card_of(word) matches Some(card) && is_due(
            card,
            now,
        )) && (s.session_of(word) matches Some(session) && outside_session(session, exclude)),
{
    lemma_kept_words(s, due_phrase_row(now), word);
    lemma_kept_words(s, eligible_row(exclude, now), word);
    if s.contains(word) {
        assert(s.holds(s.index_of(word), word));
    }
}

/// Session exclusion, first part: a word that the store gave to a scheduler
/// is surfaced by the scheduler's session, which is not session 0.
pub proof fn law_drawn_word_is_surfaced(
    before: SQLiteHistory,
    after: SQLiteHistory,
    word: String,
    now: i64,
)
    requires
        before.wf(),
        reviewed(before, after, Ok(word), now),
        advance(before.tiers(), before.proposer(now)).word is None,
    ensures
        after.session_id != 0,
        surfaced(after.store@, word@, after.session_id),
{
    let (base, session_id) = before.session_opened(now)->0;
    let i = base.index_of(word@);
    lemma_mark_at(base, i, session_id);
    assert forall|j: int| after.store@.holds(j, word@) implies (#[trigger] after.store@.rows[j]).session_id
        == after.session_id by {
        lemma_index_unique(after.store@, i, word@);
        lemma_index_unique(after.store@, j, word@);
    }
}

/// Session exclusion, second part: a word surfaced by a session other than 0
/// is not among the rows that a due-query may hand out when it excludes that
/// session, whatever the cursor and the time.
pub proof fn law_surfaced_word_is_excluded(
    s: StoreView,
    word: Seq<char>,
    session_id: u64,
    cursor: usize,
    now: i64,
)
    requires
        session_id != 0,
        surfaced(s, word, session_id),
    ensures
        forall|i: int| s.candidate(i, session_id, cursor, now) ==> (#[trigger] s.rows[i]).word != word,
{
    assert forall|i: int| s.candidate(i, session_id, cursor, now) implies (#[trigger] s.rows[i]).word
        != word by {
        if s.rows[i].word == word {
            assert(s.holds(i, word));
        }
    }
}

/// Session exclusion, third part: what a scheduler writes with its session
/// keeps a surfaced word surfaced, until a new session begins.
pub proof fn law_surfaced_is_kept(
    s: StoreView,
    word: Seq<char>,
    session_id: u64,
    other: Seq<char>,
    card: Card,
    now: i64,
)
    requires
        s.wf(),
        surfaced(s, word, session_id),
    ensures
        surfaced(s.upsert(other, card, session_id), word, session_id),
        surfaced(s.delete(other), word, session_id),
        surfaced(s.mark(other, session_id), word, session_id),
        surfaced(s.open_session(now), word, session_id),
{
    lemma_upsert(s, other, card, session_id);
    lemma_delete(s, other);
    let u = s.upsert(other, card, session_id);
    assert forall|i: int| u.holds(i, word) implies (#[trigger] u.rows[i]).session_id
        == session_id by {
        lemma_index_unique(u, i, word);
        if word != other {
            assert(s.contains(word));
            let j = s.index_of(word);
            assert(s.holds(j, word));
        }
    }
    let d = s.delete(other);
    assert forall|i: int| d.holds(i, word) implies (#[trigger] d.rows[i]).session_id
        == session_id by {
        lemma_index_unique(d, i, word);
        assert(word != other);
        assert(s.contains(word));
        let j = s.index_of(word);
        assert(s.holds(j, word));
    }
    let m = s.mark(other, session_id);
    if s.contains(other) {
        let k = s.index_of(other);
        assert(s.holds(k, other));
        lemma_mark_at(s, k, session_id);
        assert forall|i: int| m.holds(i, word) implies (#[trigger] m.rows[i]).session_id
            == session_id by {
            if i != k {
                assert(s.holds(i, word));
            }
        }
    }
    let o = s.open_session(now);
    assert forall|i: int| o.holds(i, word) implies (#[trigger] o.rows[i]).session_id
        == session_id by {
        assert(s.holds(i, word));
    }
}

/// Session exclusion, fourth part: a draw from the store by the session that
/// surfaced a word keeps the word surfaced.
pub proof fn law_draw_keeps_surfaced(
    before: SQLiteHistory,
    after: SQLiteHistory,
    r: Result<String, ReviewError>,
    now: i64,
    word: Seq<char>,
)
    requires
        before.session_id != 0,
        surfaced(before.store@, word, before.session_id),
        drawn_from_store(before, after, r, now),
    ensures
        after.session_id == before.session_id,
        surfaced(after.store@, word, after.session_id),
{
    let base = before.store@;
    assert forall|j: int| after.store@.holds(j, word) implies (#[trigger] after.store@.rows[j]).session_id
        == after.session_id by {
        assert(base.holds(j, word));
    }
}

/// The cursor only advances or goes back before the first row: a call that
/// gives a word from the store leaves it beyond where it stood or before the
/// first row, and any other call leaves it where it stood.
pub proof fn law_cursor_advances_or_resets(
    before: SQLiteHistory,
    after: SQLiteHistory,
    r: Result<String, ReviewError>,
    now: i64,
)
    requires
        reviewed(before, after, r, now),
    ensures
        after.cursor == before.cursor || after.cursor > before.cursor || after.cursor
            == BEFORE_START,
        r is Err ==> after.cursor == before.cursor,
{
}

/// Only the word that the store gives is marked: a call that gives no word
/// from the store leaves every row as it was, and a word that the frequency
/// filter turns down keeps its session.
pub proof fn law_only_the_drawn_word_is_marked(
    before: SQLiteHistory,
    after: SQLiteHistory,
    r: Result<String, ReviewError>,
    now: i64,
    j: int,
)
    requires
        before.wf(),
        reviewed(before, after, r, now),
        0 <= j < before.store@.rows.len(),
    ensures
        after.store@.rows.len() == before.store@.rows.len(),
        after.store@.rows[j] == before.store@.rows[j] || (r matches Ok(word)
            && before.store@.rows[j].word == word@ && after.store@.rows[j]
            == before.store@.rows[j].marked(after.session_id)),
{
    if advance(before.tiers(), before.proposer(now)).word is None {
        match before.session_opened(now) {
            Some((base, session_id)) => {
                assert(base.rows == before.store@.rows);
            },
            None => {},
        }
    }
}

/// No immediate queue repeat: with two different words in the queue, neither
/// of them in `pending` or `done`, the tiers hand out the first and then the
/// second.
pub proof fn law_queue_order(
    tiers: Tiers,
    a: Seq<char>,
    b: Seq<char>,
    propose: spec_fn(Seq<char>) -> Seq<Seq<char>>,
)
    requires
        tiers.queue == seq![a, b],
        a != b,
        !tiers.pending.contains(a) && !tiers.done.contains(a),
        !tiers.pending.contains(b) && !tiers.done.contains(b),
    ensures
        advance(tiers, propose).word == Some(a),
        advance(advance(tiers, propose).tiers, propose).word == Some(b),
{
    let first = advance(tiers, propose);
    assert(tiers.queue[0] == a);
    assert(first.tiers.queue =~= seq![b]);
    assert(first.tiers.pending == tiers.pending.push(a));
    assert(!first.tiers.pending.contains(b)) by {
        if first.tiers.pending.contains(b) {
            let i = choose|i: int| 0 <= i < first.tiers.pending.len() && first.tiers.pending[i] == b;
            if i < tiers.pending.len() {
                assert(tiers.pending[i] == b);
            }
        }
    }
    assert(first.tiers.queue[0] == b);
}

/// No word stands twice in `pending` or in `done`, and none in both.
pub open spec fn apart(pending: Seq<Seq<char>>, done: Seq<Seq<char>>) -> bool {
    &&& pending.no_duplicates()
    &&& done.no_duplicates()
    &&& forall|i: int, j: int|
        0 <= i < pending.len() && 0 <= j < done.len() ==> #[trigger] pending[i] != #[trigger] done[j]
}

/// A turn of the tiers keeps `pending` and `done` apart: the word handed out
/// was in neither, and a word moves from `pending` to `done` in one step.
pub proof fn law_tiers_stay_apart(tiers: Tiers, propose: spec_fn(Seq<char>) -> Seq<Seq<char>>)
    requires
        apart(tiers.pending, tiers.done),
    ensures
        apart(advance(tiers, propose).tiers.pending, advance(tiers, propose).tiers.done),
        advance(tiers, propose).word matches Some(w) ==> !tiers.pending.contains(w)
            && !tiers.done.contains(w),
    decreases tiers.pending.len(),
{
    lemma_scan_bounds(tiers.queue, tiers.pending, tiers.done);
    match scan(tiers.queue, tiers.pending, tiers.done) {
        Some(k) => {
            let w = tiers.queue[k];
            let grown = tiers.pending.push(w);
            assert forall|i: int, j: int| 0 <= i < grown.len() && 0 <= j < grown.len() && i
                != j implies grown[i] != grown[j] by {
                if i == tiers.pending.len() {
                    assert(tiers.pending[j] == grown[j]);
                } else if j == tiers.pending.len() {
                    assert(tiers.pending[i] == grown[i]);
                }
            }
            assert forall|i: int, j: int| 0 <= i < grown.len() && 0 <= j < tiers.done.len() implies #[trigger] grown[i]
                != #[trigger] tiers.done[j] by {
                if i < tiers.pending.len() {
                    assert(grown[i] == tiers.pending[i]);
                }
            }
        },
        None => {
            if tiers.pending.len() > 0 {
                let w = tiers.pending.last();
                let rest = tiers.pending.drop_last();
                let grown = tiers.done.push(w);
                let next = Tiers { queue: propose(w), pending: rest, done: grown };
                assert forall|i: int, j: int| 0 <= i < grown.len() && 0 <= j < grown.len() && i
                    != j implies grown[i] != grown[j] by {
                    if i == tiers.done.len() {
                        assert(tiers.done[j] == grown[j]);
                    } else if j == tiers.done.len() {
                        assert(tiers.done[i] == grown[i]);
                    }
                }
                assert forall|i: int, j: int| 0 <= i < rest.len() && 0 <= j < grown.len() implies #[trigger] rest[i]
                    != #[trigger] grown[j] by {
                    assert(rest[i] == tiers.pending[i]);
                    if j < tiers.done.len() {
                        assert(grown[j] == tiers.done[j]);
                    }
                }
                assert(rest.no_duplicates()) by {
                    assert forall|i: int, j: int| 0 <= i < rest.len() && 0 <= j < rest.len() && i
                        != j implies rest[i] != rest[j] by {
                        assert(rest[i] == tiers.pending[i]);
                        assert(rest[j] == tiers.pending[j]);
                    }
                }
                law_tiers_stay_apart(next, propose);
                match advance(next, propose).word {
                    Some(x) => {
                        assert(!tiers.pending.contains(x)) by {
                            if tiers.pending.contains(x) {
                                let i = choose|i: int| 0 <= i < tiers.pending.len() && tiers.pending[i] == x;
                                if i < rest.len() {
                                    assert(rest[i] == x);
                                } else {
                                    assert(grown[tiers.done.len() as int] == x);
                                }
                            }
                        }
                        assert(!tiers.done.contains(x)) by {
                            if tiers.done.contains(x) {
                                let j = choose|j: int| 0 <= j < tiers.done.len() && tiers.done[j] == x;
                                assert(grown[j] == x);
                            }
                        }
                    },
                    None => {},
                }
            }
        },
    }
}

/// Exhaustion: a scheduler with no word in the queue, none in `pending` and
/// no row in the store, whose session is open or can be opened, reports that
/// nothing is left.
pub proof fn law_exhaustion(
    before: SQLiteHistory,
    after: SQLiteHistory,
    r: Result<String, ReviewError>,
    now: i64,
)
    requires
        before.tiers().queue.len() == 0,
        before.tiers().pending.len() == 0,
        before.store@.rows.len() == 0,
        before.session_id != 0 || before.store@.sessions.len() < usize::MAX,
        reviewed(before, after, r, now),
    ensures
        r == Err::<String, ReviewError>(ReviewError::Exhausted),
{
}

} // verus!
