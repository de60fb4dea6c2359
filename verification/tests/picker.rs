use goldendict_ng_helper::card::{Card, State};
use goldendict_ng_helper::frequency::{check_frequency, FrequencyError};
use goldendict_ng_helper::picker::{
    is_alphabetic, name_for, pick_unprefixed, prefix, prefixes, unprefixed_rows,
};
use goldendict_ng_helper::scheduler::{find_ignore_case, ReviewError, SQLiteHistory};
use goldendict_ng_helper::spaced_repetition::SpacedRepetition;
use goldendict_ng_helper::store::CardStore;
use std::collections::HashSet;

const NOW: i64 = 1_000;

fn codes(chars: &[char]) -> HashSet<u32> {
    chars.iter().map(|c| *c as u32).collect()
}

fn strings(words: &[&str]) -> Vec<String> {
    words.iter().map(|w| w.to_string()).collect()
}

fn store_of(words: &[(&str, i64)]) -> CardStore {
    let mut store = CardStore::new();
    for (word, due) in words {
        store.upsert(word, Card::new(*due), 0);
    }
    store
}

#[test]
fn alphabetic_words_hold_latin_letters_only() {
    assert!(is_alphabetic("apple"));
    assert!(is_alphabetic("Apple"));
    assert!(is_alphabetic("Z"));
    assert!(!is_alphabetic(""));
    assert!(!is_alphabetic("give up"));
    assert!(!is_alphabetic("naïve"));
    assert!(!is_alphabetic("a1"));
    assert!(!is_alphabetic("a-b"));
    assert!(!is_alphabetic("[x"));
    assert!(!is_alphabetic("`x"));
    assert!(!is_alphabetic("{x"));
    assert!(!is_alphabetic("@x"));
}

#[test]
fn prefix_is_the_first_letter_in_lower_case() {
    assert_eq!(prefix("Apple.txt"), Some('a'));
    assert_eq!(prefix("zeta"), Some('z'));
    assert_eq!(prefix("Éclair"), Some('é'));
    assert_eq!(prefix("9lives"), Some('9'));
    assert_eq!(prefix(""), None);
    assert_eq!(prefixes(&strings(&["Apple", "", "bee", "Bat", "Éclair"])), codes(&['a', 'b', 'é']));
    assert_eq!(prefixes(&Vec::new()), HashSet::new());
}

#[test]
fn pick_unprefixed_draws_among_the_words_left() {
    let store = store_of(&[("apple", 1), ("bee", 1), ("give up", 1), ("Ant", 1), ("cow", 1)]);
    let taken = codes(&['a', 'c']);
    assert_eq!(unprefixed_rows(&store, &taken), vec![1, 3]);
    let mut seen = Vec::new();
    for _ in 0..200 {
        let word = pick_unprefixed(&store, &taken).unwrap();
        assert!(word == "bee" || word == "Ant");
        if !seen.contains(&word) {
            seen.push(word);
        }
    }
    assert_eq!(seen.len(), 2);
    assert_eq!(pick_unprefixed(&store, &codes(&['a', 'b', 'c', 'A'])), None);
    assert_eq!(pick_unprefixed(&CardStore::new(), &HashSet::new()), None);
    let named = prefixes(&strings(&["Apple.md", "cow.md", "notes"]));
    assert_eq!(unprefixed_rows(&store, &named), vec![1, 3]);
}

#[test]
fn name_for_lowers_the_word_and_adds_the_suffix() {
    assert_eq!(name_for("Apple", None), "apple");
    assert_eq!(name_for("Apple", Some("md")), "apple.md");
    assert_eq!(name_for("ÉTÉ", Some("")), "été.");
}

#[test]
fn threshold_must_lie_within_the_ranks() {
    assert_eq!(check_frequency(0), Err(FrequencyError::Zero));
    assert_eq!(check_frequency(1), Ok(()));
    assert_eq!(check_frequency(10_000), Ok(()));
    assert_eq!(check_frequency(50_000), Ok(()));
    assert_eq!(check_frequency(50_001), Err(FrequencyError::TooLarge));
}

#[test]
fn fresh_card_is_new_and_due_at_once() {
    let card = Card::new(NOW);
    assert_eq!(
        card,
        Card {
            due: NOW,
            stability: 0.0f64.to_bits(),
            difficulty: 0.0f64.to_bits(),
            elapsed_days: 0,
            scheduled_days: 0,
            reps: 0,
            lapses: 0,
            state: State::New,
            last_review: None,
        }
    );
}

#[test]
fn add_word_writes_a_fresh_card_or_restamps_the_stored_one() {
    let mut history = SQLiteHistory::new(store_of(&[("Apple", 5), ("pear", 6)]));
    assert_eq!(find_ignore_case(&history.store, "APPLE"), Some(0));
    assert_eq!(find_ignore_case(&history.store, "plum"), None);
    assert_eq!(history.add_word("apple", NOW), Ok(()));
    assert_eq!(history.store.len(), 2);
    assert_eq!(history.store.row(1).word, "Apple");
    assert_eq!(history.store.row(1).card, Card::new(5));
    assert_eq!(history.store.row(1).session_id, 1);
    assert_eq!(history.add_word("plum", NOW), Ok(()));
    assert_eq!(history.store.len(), 3);
    assert_eq!(history.store.get("plum"), Ok(Card::new(NOW)));
    assert_eq!(history.store.row(2).session_id, 1);
}

#[test]
fn keep_reviewable_keeps_the_due_words_in_order() {
    let history = SQLiteHistory::new(store_of(&[("a", 1), ("b", NOW + 1), ("c", NOW)]));
    assert_eq!(
        history.keep_reviewable(&strings(&["c", "x", "b", "a", "c"]), NOW),
        strings(&["c", "a", "c"])
    );
}

#[test]
fn seed_reviewable_enqueues_a_permutation_of_the_due_words() {
    let mut history = SQLiteHistory::new(store_of(&[("a", 1), ("b", NOW + 1), ("c", 1), ("d", 1)]));
    history.seed(strings(&["first"]));
    let mut orders = Vec::new();
    for _ in 0..200 {
        history.queue.truncate(1);
        assert_eq!(history.seed_reviewable(&strings(&["d", "b", "a", "zz", "c"]), NOW), 3);
        let queue: Vec<String> = history.queue.iter().cloned().collect();
        assert_eq!(queue[0], "first");
        let mut added = queue[1..].to_vec();
        if !orders.contains(&added) {
            orders.push(added.clone());
        }
        added.sort();
        assert_eq!(added, strings(&["a", "c", "d"]));
    }
    assert!(orders.len() > 1);
    assert_eq!(history.seed_reviewable(&strings(&["b", "zz"]), NOW), 0);
}

#[test]
fn start_with_counts_the_word_as_shown() {
    let mut history = SQLiteHistory::default();
    history.start_with("apple".to_string());
    history.seed(strings(&["apple", "pear"]));
    assert_eq!(history.next_to_review(NOW), Ok("pear".to_string()));
    assert_eq!(history.pending, strings(&["apple", "pear"]));
}

#[test]
fn trait_methods_do_what_the_scheduler_does() {
    fn drive<S: SpacedRepetition>(s: &mut S) -> (Result<String, ReviewError>, Result<(), ReviewError>) {
        let next = s.next_to_review(NOW);
        let updated = s.update("apple", goldendict_ng_helper::card::Rating::Good, NOW, |c, _, now| {
            Card { due: now + 1, ..c }
        });
        s.delete("pear");
        (next, updated)
    }
    let mut history = SQLiteHistory::new(store_of(&[("apple", 1), ("pear", NOW + 1)]));
    let (next, updated) = drive(&mut history);
    assert_eq!(next, Ok("apple".to_string()));
    assert_eq!(updated, Ok(()));
    assert_eq!(history.store.len(), 1);
    assert_eq!(history.store.get("apple"), Ok(Card::new(NOW + 1)));
}
