use goldendict_ng_helper::frequency::{is_sorted, qualify, search, sort_records, Record};

fn record(word: &str, bnc: u32, frq: u32) -> Record {
    Record { word: word.to_string(), bnc, frq }
}

#[test]
fn qualify_by_bnc_rank() {
    assert!(qualify(&record("apple", 5000, 0), 10000));
}

#[test]
fn unranked_word_does_not_qualify() {
    assert!(!qualify(&record("apple", 0, 0), 10000));
}

#[test]
fn qualify_by_frq_rank() {
    assert!(qualify(&record("apple", 60000, 20000), 10000) == false);
    assert!(qualify(&record("apple", 60000, 9000), 10000));
}

#[test]
fn search_ignores_letter_case() {
    let table = vec![record("Apple", 1, 1), record("banana", 2, 2), record("Cherry", 3, 3)];
    assert_eq!(search(&table, "apple"), Some(0));
    assert_eq!(search(&table, "BANANA"), Some(1));
    assert_eq!(search(&table, "cherry"), Some(2));
    assert_eq!(search(&table, "durian"), None);
}

#[test]
fn is_sorted_goes_by_the_folded_words() {
    assert!(is_sorted(&Vec::new()));
    assert!(is_sorted(&vec![record("b", 0, 0)]));
    assert!(is_sorted(&vec![record("Apple", 0, 0), record("banana", 0, 0), record("BANANA", 0, 0)]));
    assert!(is_sorted(&vec![record("a", 0, 0), record("B", 0, 0), record("c", 0, 0)]));
    assert!(!is_sorted(&vec![record("b", 0, 0), record("a", 0, 0)]));
    assert!(!is_sorted(&vec![record("a", 0, 0), record("c", 0, 0), record("B", 0, 0)]));
}

#[test]
fn search_of_an_unsorted_table_lands_only_on_the_word() {
    let table = vec![record("pear", 1, 1), record("apple", 2, 2), record("fig", 3, 3)];
    for word in ["pear", "apple", "fig", "plum"] {
        match search(&table, word) {
            Some(i) => assert_eq!(table[i].word, word),
            None => {}
        }
    }
    assert_eq!(search(&Vec::new(), "apple"), None);
}

#[test]
fn sort_records_orders_by_folded_word_and_keeps_ties_in_order() {
    let table = vec![
        record("b", 1, 0),
        record("A", 2, 0),
        record("c", 3, 0),
        record("a", 4, 0),
        record("B", 5, 0),
    ];
    let sorted = sort_records(&table);
    let order: Vec<(String, u32)> = sorted.iter().map(|r| (r.word.clone(), r.bnc)).collect();
    assert_eq!(
        order,
        vec![
            ("A".to_string(), 2),
            ("a".to_string(), 4),
            ("b".to_string(), 1),
            ("B".to_string(), 5),
            ("c".to_string(), 3)
        ]
    );
    assert!(is_sorted(&sorted));
    assert!(!is_sorted(&table));
    assert_eq!(sort_records(&Vec::new()).len(), 0);
    let again = sort_records(&sorted);
    assert_eq!(again.iter().map(|r| r.bnc).collect::<Vec<u32>>(), vec![2, 4, 1, 5, 3]);
}
