use goldendict_ng_helper::card::{Card, Rating, State};
use goldendict_ng_helper::frequency::Record;
use goldendict_ng_helper::related::RelatedEntry;
use goldendict_ng_helper::scheduler::{
    get_word, stored_near, ExtendStrategy, ReviewError, SQLiteHistory, BEFORE_START,
};
use goldendict_ng_helper::store::{CardStore, StoreError};

const NOW: i64 = 1_000;

fn card(due: i64) -> Card {
    Card {
        due,
        stability: 0,
        difficulty: 0,
        elapsed_days: 0,
        scheduled_days: 0,
        reps: 0,
        lapses: 0,
        state: State::New,
        last_review: None,
    }
}

fn store_of(words: &[(&str, i64)]) -> CardStore {
    let mut store = CardStore::new();
    for (word, due) in words {
        store.upsert(word, card(*due), 0);
    }
    store
}

fn strings(words: &[&str]) -> Vec<String> {
    words.iter().map(|w| w.to_string()).collect()
}

fn queue_of(history: &SQLiteHistory) -> Vec<String> {
    history.queue.iter().cloned().collect()
}

#[test]
fn queue_hands_out_its_words_in_order() {
    let mut history = SQLiteHistory::default();
    history.seed(strings(&["a", "b"]));
    assert_eq!(history.next_to_review(NOW), Ok("a".to_string()));
    assert_eq!(history.pending, strings(&["a"]));
    assert_eq!(history.next_to_review(NOW), Ok("b".to_string()));
    assert_eq!(history.pending, strings(&["a", "b"]));
    assert!(history.queue.is_empty());
    assert_eq!(history.session_id, 0);
}

#[test]
fn queue_does_not_repeat_a_word_already_shown() {
    let mut history = SQLiteHistory::default();
    history.strategy = ExtendStrategy::NoExtend;
    history.seed(strings(&["a", "a", "b", "a"]));
    assert_eq!(history.next_to_review(NOW), Ok("a".to_string()));
    assert_eq!(history.next_to_review(NOW), Ok("b".to_string()));
    assert_eq!(history.next_to_review(NOW), Err(ReviewError::Exhausted));
    assert_eq!(history.done, strings(&["b", "a"]));
    assert!(history.pending.is_empty());
}

#[test]
fn queue_passes_over_words_in_pending_and_done() {
    let mut history = SQLiteHistory::default();
    history.pending.push("p".to_string());
    history.done.push("d".to_string());
    history.seed(strings(&["p", "d", "x", "y"]));
    assert_eq!(history.pop_fresh(), Some("x".to_string()));
    assert_eq!(queue_of(&history), strings(&["y"]));
    assert_eq!(history.pop_fresh(), Some("y".to_string()));
    assert_eq!(history.pop_fresh(), None);
}

#[test]
fn empty_store_and_empty_tiers_are_exhausted() {
    let mut history = SQLiteHistory::default();
    assert_eq!(history.next_to_review(NOW), Err(ReviewError::Exhausted));
    assert_eq!(history.next_to_review(NOW), Err(ReviewError::Exhausted));
    assert_eq!(history.session_id, 1);
    assert_eq!(history.cursor, BEFORE_START);
}

#[test]
fn store_without_a_due_word_is_exhausted() {
    let mut history = SQLiteHistory::new(store_of(&[("late", NOW + 1)]));
    history.strategy = ExtendStrategy::NoExtend;
    assert_eq!(history.next_to_review(NOW), Err(ReviewError::Exhausted));
    assert_eq!(history.next_to_review(NOW + 1), Ok("late".to_string()));
}

#[test]
fn word_from_the_store_is_not_drawn_again_in_the_session() {
    let mut history = SQLiteHistory::new(store_of(&[("a", 1), ("b", 2), ("c", 3), ("d", NOW + 5)]));
    history.strategy = ExtendStrategy::NoExtend;
    let mut shown = Vec::new();
    for _ in 0..3 {
        let word = history.next_to_review(NOW).unwrap();
        assert!(!shown.contains(&word));
        for _ in 0..20 {
            match history.store.due_words(history.session_id, 0, NOW) {
                Some(drawn) => assert!(drawn.word != word && !shown.contains(&drawn.word)),
                None => {}
            }
        }
        shown.push(word);
    }
    shown.sort();
    assert_eq!(shown, strings(&["a", "b", "c"]));
    assert_eq!(history.next_to_review(NOW), Err(ReviewError::Exhausted));
    assert_eq!(history.session_id, 1);
    for i in 0..3 {
        assert_eq!(history.store.row(i).session_id, 1);
    }
    assert_eq!(history.store.row(3).session_id, 0);
}

#[test]
fn a_new_session_draws_the_words_again() {
    let mut store = store_of(&[("a", 1)]);
    {
        let mut first = SQLiteHistory::new(store);
        assert_eq!(first.next_to_review(NOW), Ok("a".to_string()));
        assert_eq!(first.next_to_review(NOW), Err(ReviewError::Exhausted));
        store = first.store;
    }
    let mut second = SQLiteHistory::new(store);
    assert_eq!(second.next_to_review(NOW), Ok("a".to_string()));
    assert_eq!(second.session_id, 2);
}

#[test]
fn cursor_only_advances_or_goes_back_before_the_start() {
    for _ in 0..30 {
        let mut history =
            SQLiteHistory::new(store_of(&[("a", 1), ("b", 1), ("c", 1), ("d", 1), ("e", 1)]));
        history.strategy = ExtendStrategy::NoExtend;
        history.cursor = 2;
        let mut shown = Vec::new();
        loop {
            let before = history.cursor;
            match history.next_to_review(NOW) {
                Ok(word) => {
                    assert!(history.cursor > before || history.cursor == BEFORE_START);
                    if history.cursor != BEFORE_START {
                        assert_eq!(history.store.row(history.cursor - 1).word, word);
                    }
                    shown.push(word);
                }
                Err(e) => {
                    assert_eq!(e, ReviewError::Exhausted);
                    assert_eq!(history.cursor, before);
                    break;
                }
            }
        }
        assert!(shown[0] == "c" || shown[0] == "d" || shown[0] == "e");
        shown.sort();
        assert_eq!(shown, strings(&["a", "b", "c", "d", "e"]));
    }
}

#[test]
fn cursor_moves_to_the_row_drawn_and_wraps_around() {
    let mut history = SQLiteHistory::new(store_of(&[("a", 1), ("b", NOW + 1), ("c", 3)]));
    history.strategy = ExtendStrategy::NoExtend;
    history.cursor = 1;
    assert_eq!(history.next_to_review(NOW), Ok("c".to_string()));
    assert_eq!(history.cursor, 3);
    assert_eq!(history.next_to_review(NOW), Ok("a".to_string()));
    assert_eq!(history.cursor, BEFORE_START);
    assert_eq!(history.next_to_review(NOW), Err(ReviewError::Exhausted));
    assert_eq!(history.cursor, BEFORE_START);
}

#[test]
fn edit_distance_strategy_proposes_the_near_words() {
    let mut history = SQLiteHistory::new(store_of(&[("cats", 1), ("dog", 1), ("bat", 1)]));
    history.leven("cat");
    assert_eq!(queue_of(&history), strings(&["cats", "bat"]));
    assert_eq!(stored_near(&history.store, "cat", 0), strings(&["cats", "bat"]));
}

#[test]
fn edit_distance_strategy_leaves_out_the_word_and_the_session() {
    let mut store = CardStore::new();
    store.upsert("cat", card(1), 1);
    store.upsert("cot", card(1), 2);
    store.upsert("cut", card(1), 1);
    store.upsert("carts", card(1), 1);
    store.upsert("cattle", card(1), 1);
    assert_eq!(stored_near(&store, "cat", 2), strings(&["cut", "carts"]));
    assert_eq!(stored_near(&store, "cat", 0), strings(&["cot", "cut", "carts"]));
}

#[test]
fn shown_word_is_extended_when_the_queue_runs_dry() {
    let mut history =
        SQLiteHistory::new(store_of(&[("cats", NOW + 9), ("dog", NOW + 9), ("bat", NOW + 9)]));
    history.seed(strings(&["cat"]));
    assert_eq!(history.next_to_review(NOW), Ok("cat".to_string()));
    assert_eq!(history.next_to_review(NOW), Ok("cats".to_string()));
    assert_eq!(history.done, strings(&["cat"]));
    assert_eq!(queue_of(&history), strings(&["bat"]));
    assert_eq!(history.next_to_review(NOW), Ok("bat".to_string()));
    assert_eq!(history.pending, strings(&["cats", "bat"]));
    assert_eq!(history.next_to_review(NOW), Err(ReviewError::Exhausted));
    assert_eq!(history.done, strings(&["cat", "bat", "cats"]));
    assert!(history.pending.is_empty());
    assert!(history.queue.is_empty());
}

#[test]
fn related_table_strategy_enqueues_the_entries_verbatim() {
    let mut history = SQLiteHistory::default();
    let table = vec![
        RelatedEntry { word: "big".to_string(), related_words: "large,huge, vast,".to_string() },
        RelatedEntry { word: "big".to_string(), related_words: "other".to_string() },
    ];
    history.extend_by_merriam(&table, "big");
    assert_eq!(queue_of(&history), strings(&["large", "huge", " vast", ""]));
    history.extend_by_merriam(&table, "small");
    assert_eq!(queue_of(&history), strings(&["large", "huge", " vast", ""]));
    history.strategy = ExtendStrategy::Merriam(table);
    history.extend("big", NOW);
    assert_eq!(history.queue.len(), 8);
}

#[test]
fn no_extend_strategy_enqueues_nothing() {
    let mut history = SQLiteHistory::new(store_of(&[("cats", 1)]));
    history.strategy = ExtendStrategy::NoExtend;
    history.extend("cat", NOW);
    assert!(history.queue.is_empty());
}

#[test]
fn frequency_filter_turns_down_words_that_do_not_qualify() {
    let mut history =
        SQLiteHistory::new(store_of(&[("rare", 1), ("Common", 1), ("unlisted", 1), ("late", NOW + 1)]));
    history.strategy = ExtendStrategy::NoExtend;
    history.freq = 10_000;
    history.init_records(vec![
        Record { word: "rare".to_string(), bnc: 0, frq: 40_000 },
        Record { word: "late".to_string(), bnc: 1, frq: 1 },
        Record { word: "common".to_string(), bnc: 60_000, frq: 9_000 },
    ]);
    assert!(history.passes("common"));
    assert!(!history.passes("rare"));
    assert!(!history.passes("unlisted"));
    assert_eq!(history.qualifying_positions(BEFORE_START, NOW), vec![2]);
    assert_eq!(history.qualifying_positions(2, NOW), Vec::<usize>::new());
    assert_eq!(history.next_to_review(NOW), Ok("Common".to_string()));
    assert_eq!(history.cursor, 2);
    assert_eq!(history.store.row(1).session_id, 1);
    assert_eq!(history.next_to_review(NOW), Err(ReviewError::Exhausted));
    assert_eq!(history.cursor, 2);
    // A word that the filter turns down keeps its session.
    assert_eq!(history.store.row(0).session_id, 0);
    assert_eq!(history.store.row(2).session_id, 0);
    assert_eq!(history.store.row(3).session_id, 0);
    history.freq = 0;
    let mut rest = vec![history.next_to_review(NOW).unwrap(), history.next_to_review(NOW).unwrap()];
    rest.sort();
    assert_eq!(rest, strings(&["rare", "unlisted"]));
}

#[test]
fn frequency_filter_wraps_around_to_a_word_that_qualifies() {
    let mut history = SQLiteHistory::new(store_of(&[("apple", 1), ("rare", 1), ("odd", 1)]));
    history.strategy = ExtendStrategy::NoExtend;
    history.freq = 100;
    history.init_records(vec![Record { word: "apple".to_string(), bnc: 7, frq: 0 }]);
    history.cursor = 1;
    assert_eq!(history.next_to_review(NOW), Ok("apple".to_string()));
    assert_eq!(history.cursor, BEFORE_START);
    assert_eq!(history.next_to_review(NOW), Err(ReviewError::Exhausted));
}

#[test]
fn init_records_sorts_the_table_by_folded_word() {
    let mut history = SQLiteHistory::default();
    history.init_records(vec![
        Record { word: "pear".to_string(), bnc: 1, frq: 0 },
        Record { word: "Apple".to_string(), bnc: 2, frq: 0 },
        Record { word: "fig".to_string(), bnc: 3, frq: 0 },
        Record { word: "apple".to_string(), bnc: 4, frq: 0 },
        Record { word: "Zoo".to_string(), bnc: 5, frq: 0 },
        Record { word: "APPLE".to_string(), bnc: 6, frq: 0 },
    ]);
    let order: Vec<(String, u32)> = history.records.iter().map(|r| (r.word.clone(), r.bnc)).collect();
    assert_eq!(
        order,
        vec![
            ("Apple".to_string(), 2),
            ("apple".to_string(), 4),
            ("APPLE".to_string(), 6),
            ("fig".to_string(), 3),
            ("pear".to_string(), 1),
            ("Zoo".to_string(), 5)
        ]
    );
    for word in ["pear", "apple", "FIG", "zoo"] {
        assert!(history.binary_search(word).is_some());
    }
    assert!(history.binary_search("plum").is_none());
}

#[test]
fn binary_search_returns_the_record_of_the_word() {
    let mut history = SQLiteHistory::default();
    history.init_records(vec![
        Record { word: "Pear".to_string(), bnc: 0, frq: 0 },
        Record { word: "apple".to_string(), bnc: 5_000, frq: 0 },
    ]);
    history.freq = 10_000;
    let found = history.binary_search("APPLE").unwrap();
    assert_eq!((found.word.as_str(), found.bnc, found.frq), ("apple", 5_000, 0));
    assert!(history.qualify(found));
    let found = history.binary_search("pear").unwrap();
    assert!(!history.qualify(found));
    assert!(history.binary_search("plum").is_none());
}

#[test]
fn update_replaces_the_card_by_the_one_the_algorithm_gives() {
    let mut history = SQLiteHistory::new(store_of(&[("apple", 1), ("pear", 2)]));
    let r = history.update("apple", Rating::Good, NOW, |old, rating, now| Card {
        due: now + 600,
        reps: old.reps + 1,
        state: if rating == Rating::Good { State::Learning } else { State::Relearning },
        last_review: Some(now),
        ..old
    });
    assert_eq!(r, Ok(()));
    let expected = Card { due: NOW + 600, reps: 1, state: State::Learning, last_review: Some(NOW), ..card(1) };
    assert_eq!(history.store.get("apple"), Ok(expected));
    assert_eq!(get_word(&history.store, "apple"), Ok(expected));
    assert_eq!(history.session_id, 1);
    assert_eq!(history.store.row(1).word, "apple");
    assert_eq!(history.store.row(1).session_id, 1);
    assert_eq!(history.store.get("pear"), Ok(card(2)));
}

#[test]
fn update_of_an_unknown_word_fails_and_creates_nothing() {
    let mut history = SQLiteHistory::new(store_of(&[("apple", 1)]));
    let r = history.update("plum", Rating::Again, NOW, |old, _, _| old);
    assert_eq!(r, Err(ReviewError::CardNotFound));
    assert_eq!(history.store.len(), 1);
    assert_eq!(history.session_id, 0);
    assert_eq!(get_word(&history.store, "plum"), Err(ReviewError::CardNotFound));
}

#[test]
fn updated_word_is_not_drawn_again_in_the_session() {
    let mut history = SQLiteHistory::new(store_of(&[("apple", 1)]));
    history.strategy = ExtendStrategy::NoExtend;
    assert_eq!(history.update("apple", Rating::Easy, NOW, |old, _, _| old), Ok(()));
    assert_eq!(history.next_to_review(NOW), Err(ReviewError::Exhausted));
}

#[test]
fn insert_or_replace_stamps_the_session_of_the_run() {
    let mut history = SQLiteHistory::default();
    assert_eq!(history.insert_or_replace("apple", card(5), NOW), Ok(()));
    assert_eq!(history.session_id, 1);
    assert_eq!(history.insert_or_replace("pear", card(6), NOW), Ok(()));
    assert_eq!(history.session_id, 1);
    assert_eq!(history.store.row(0).session_id, 1);
    assert_eq!(history.store.row(1).session_id, 1);
    assert_eq!(history.store.get("apple"), Ok(card(5)));
}

#[test]
fn session_is_opened_once() {
    let mut history = SQLiteHistory::default();
    assert_eq!(history.create_session(NOW), Ok(()));
    assert_eq!(history.session_id, 1);
    assert_eq!(history.create_session(NOW + 1), Ok(()));
    assert_eq!(history.session_id, 1);
    assert_eq!(history.store.create_session(NOW), Ok(2));
}

#[test]
fn delete_then_should_review_fails_with_card_not_found() {
    let mut history = SQLiteHistory::new(store_of(&[("apple", 1)]));
    assert_eq!(history.should_review("apple", NOW), Ok(()));
    history.delete("apple");
    assert_eq!(history.should_review("apple", NOW), Err(ReviewError::CardNotFound));
    history.delete("apple");
    assert_eq!(history.should_review("apple", NOW), Err(ReviewError::CardNotFound));
}

#[test]
fn should_review_tells_due_from_not_due() {
    let history = SQLiteHistory::new(store_of(&[("apple", NOW), ("pear", NOW + 1)]));
    assert_eq!(history.should_review("apple", NOW), Ok(()));
    assert_eq!(history.should_review("pear", NOW), Err(ReviewError::NotDue));
    assert_eq!(history.should_review("pear", NOW + 1), Ok(()));
    assert_eq!(history.should_review("plum", NOW), Err(ReviewError::CardNotFound));
}

#[test]
fn phrase_and_all_words_need_review_read_the_store() {
    let mut history = SQLiteHistory::new(store_of(&[("give up", 1), ("apple", 1), ("in time", NOW + 1)]));
    assert_eq!(history.phrase(NOW), strings(&["give up"]));
    assert_eq!(history.all_words_need_review(NOW), strings(&["give up", "apple"]));
    history.session_id = 4;
    history.store.mark_session("apple", 4);
    assert_eq!(history.all_words_need_review(NOW), strings(&["give up"]));
}

#[test]
fn store_error_is_told_from_exhaustion() {
    assert_ne!(ReviewError::Store(StoreError::Full), ReviewError::Exhausted);
    assert_ne!(ReviewError::Store(StoreError::NotFound), ReviewError::CardNotFound);
}
