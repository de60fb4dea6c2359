use goldendict_ng_helper::card::{Card, State};
use goldendict_ng_helper::embedding::{
    find_scored, jobs_for, keep_proposed, rank, rank_similar_words, with_vectors, words_of,
    Embedding, Job, Neighbours, Scored, GREATEST, HALF,
};
use std::io::Cursor;
use word2vec::wordvectors::WordVector;
use goldendict_ng_helper::scheduler::{ExtendStrategy, ReviewError, SQLiteHistory};
use goldendict_ng_helper::store::CardStore;

const NOW: i64 = 1_000;

fn card(due: i64) -> Card {
    Card {
        due,
        stability: 0,
        difficulty: 0,
        elapsed_days: 0,
        scheduled_days: 0,
        reps: 0,
        lapses: 0,
        state: State::New,
        last_review: None,
    }
}

fn strings(words: &[&str]) -> Vec<String> {
    words.iter().map(|w| w.to_string()).collect()
}

fn scored(similarity: f32, word: &str) -> Scored {
    Scored { similarity: similarity.to_bits(), word: word.to_string() }
}

fn pairs(list: &Vec<Scored>) -> Vec<(f32, String)> {
    list.iter().map(|s| (f32::from_bits(s.similarity), s.word.clone())).collect()
}

fn dot(a: &[f32; 2], b: &[f32; 2]) -> f32 {
    a[0] * b[0] + a[1] * b[1]
}

/// Every word of `vectors` scored against every word, the word itself too.
fn table(vectors: &[(&str, [f32; 2])]) -> Vec<Neighbours> {
    vectors
        .iter()
        .map(|(word, v)| Neighbours {
            word: word.to_string(),
            scored: vectors.iter().map(|(other, o)| scored(dot(o, v), other)).collect(),
        })
        .collect()
}

fn sample_table() -> Vec<Neighbours> {
    table(&[
        ("king", [1.0, 0.0]),
        ("queen", [0.9, 0.1]),
        ("prince", [0.8, 0.6]),
        ("apple", [0.0, 1.0]),
        ("rebel", [-1.0, 0.0]),
        ("duke", [0.7, 0.3]),
    ])
}

#[test]
fn bit_patterns_of_the_bounds() {
    assert_eq!(HALF, 0.5f32.to_bits());
    assert_eq!(GREATEST, f32::INFINITY.to_bits());
}

#[test]
fn keep_proposed_keeps_due_words_above_one_half() {
    let found = vec![
        scored(0.9, "a"),
        scored(0.5, "b"),
        scored(0.500_000_1, "c"),
        scored(0.49, "d"),
        scored(-0.9, "e"),
        scored(f32::NAN, "f"),
        scored(f32::INFINITY, "g"),
        scored(0.0, "h"),
        scored(-0.0, "i"),
        scored(f32::NEG_INFINITY, "j"),
        scored(0.8, "not due"),
        scored(-f32::NAN, "k"),
        scored(f32::MAX, "l"),
        scored(f32::MIN_POSITIVE, "m"),
    ];
    for s in &found {
        let x = f32::from_bits(s.similarity);
        let one = vec![Scored { similarity: s.similarity, word: s.word.clone() }];
        let kept = keep_proposed(&one, &strings(&[s.word.as_str()]));
        assert_eq!(kept.len() == 1, x > 0.5);
    }
    let due = strings(&["a", "b", "c", "d", "e", "f", "g", "h", "i", "j", "k", "l", "m"]);
    assert_eq!(words_of(&keep_proposed(&found, &due)), strings(&["a", "c", "g", "l"]));
    assert_eq!(words_of(&keep_proposed(&found, &Vec::new())), Vec::<String>::new());
}

#[test]
fn order_of_patterns_above_one_half_is_the_order_of_the_numbers() {
    let samples = [0.500_000_1f32, 0.6, 0.75, 1.0, 1.000_000_1, 2.5, 1e10, f32::MAX, f32::INFINITY];
    for a in samples {
        for b in samples {
            assert_eq!(a.to_bits() < b.to_bits(), a < b);
        }
    }
}

#[test]
fn rank_orders_by_falling_similarity_and_keeps_ties_in_order() {
    let list = vec![
        scored(0.6, "a"),
        scored(0.9, "b"),
        scored(0.6, "c"),
        scored(0.7, "d"),
        scored(0.9, "e"),
        scored(0.6, "f"),
    ];
    assert_eq!(words_of(&rank(&list)), strings(&["b", "e", "d", "a", "c", "f"]));
    assert_eq!(
        pairs(&rank(&list)).iter().map(|p| p.0).collect::<Vec<f32>>(),
        vec![0.9, 0.9, 0.7, 0.6, 0.6, 0.6]
    );
    assert_eq!(rank(&Vec::new()).len(), 0);
}

#[test]
fn rank_similar_words_ranks_the_due_words_above_one_half() {
    let table = sample_table();
    let due = strings(&["queen", "prince", "apple", "rebel", "duke", "king", "stranger"]);
    let found = rank_similar_words(&table, "king", &due);
    assert_eq!(
        pairs(&found),
        vec![
            (1.0, "king".to_string()),
            (0.9, "queen".to_string()),
            (0.8, "prince".to_string()),
            (0.7, "duke".to_string())
        ]
    );
    let found = rank_similar_words(&table, "king", &strings(&["prince", "apple"]));
    assert_eq!(words_of(&found), strings(&["prince"]));
    let found = rank_similar_words(&table, "apple", &due);
    assert_eq!(pairs(&found), vec![(1.0, "apple".to_string()), (0.6, "prince".to_string())]);
}

#[test]
fn rank_similar_words_of_an_unscored_word_is_empty() {
    let table = sample_table();
    assert_eq!(rank_similar_words(&table, "stranger", &strings(&["queen"])).len(), 0);
    assert_eq!(rank_similar_words(&Vec::new(), "king", &strings(&["queen"])).len(), 0);
    assert_eq!(find_scored(&table, "prince"), Some(2));
    assert_eq!(find_scored(&table, "Prince"), None);
}

#[test]
fn rank_similar_words_reads_the_first_entry_of_a_word() {
    let table = vec![
        Neighbours { word: "king".to_string(), scored: vec![scored(0.9, "queen")] },
        Neighbours { word: "king".to_string(), scored: vec![scored(0.9, "duke")] },
    ];
    let found = rank_similar_words(&table, "king", &strings(&["queen", "duke"]));
    assert_eq!(words_of(&found), strings(&["queen"]));
}

fn model(entries: &[(&str, [f32; 2])]) -> WordVector {
    let mut bytes = format!("{} 2\n", entries.len()).into_bytes();
    for (word, vector) in entries {
        bytes.extend_from_slice(word.as_bytes());
        bytes.push(b' ');
        for x in vector {
            bytes.extend_from_slice(&x.to_le_bytes());
        }
    }
    WordVector::load_from_reader(Cursor::new(bytes)).unwrap()
}

fn sample_model() -> WordVector {
    model(&[
        ("king", [1.0, 0.0]),
        ("queen", [0.9, 0.1]),
        ("prince", [0.8, 0.6]),
        ("apple", [0.0, 1.0]),
        ("rebel", [-1.0, 0.0]),
        ("duke", [0.7, 0.3]),
        ("king", [0.0, 1.0]),
    ])
}

fn numbers(bits: &[u32]) -> Vec<f32> {
    bits.iter().map(|b| f32::from_bits(*b)).collect()
}

fn score(job: Job) -> Neighbours {
    let v = numbers(&job.vector);
    let scored = job
        .others
        .iter()
        .map(|o| {
            let w = numbers(&o.vector);
            scored(w[0] * v[0] + w[1] * v[1], &o.word)
        })
        .collect();
    Neighbours { word: job.word, scored }
}

#[test]
fn with_vectors_reads_the_first_vector_of_each_word() {
    let model = sample_model();
    let found = with_vectors(&model, &strings(&["prince", "stranger", "king", "rebel"]));
    assert_eq!(
        found.iter().map(|l| l.word.clone()).collect::<Vec<String>>(),
        strings(&["prince", "king", "rebel"])
    );
    assert_eq!(numbers(&found[0].vector), vec![0.8, 0.6]);
    assert_eq!(numbers(&found[1].vector), vec![1.0, 0.0]);
    assert_eq!(numbers(&found[2].vector), vec![-1.0, 0.0]);
    assert_eq!(with_vectors(&model, &Vec::new()).len(), 0);
}

#[test]
fn jobs_for_asks_for_the_words_that_have_a_vector() {
    let model = sample_model();
    let jobs = jobs_for(
        &model,
        &strings(&["stranger", "apple", "duke"]),
        &strings(&["king", "nobody", "apple"]),
    );
    assert_eq!(jobs.len(), 2);
    assert_eq!(jobs[0].word, "apple");
    assert_eq!(numbers(&jobs[0].vector), vec![0.0, 1.0]);
    assert_eq!(jobs[1].word, "duke");
    for job in &jobs {
        assert_eq!(
            job.others.iter().map(|l| l.word.clone()).collect::<Vec<String>>(),
            strings(&["king", "apple"])
        );
        assert_eq!(numbers(&job.others[0].vector), vec![1.0, 0.0]);
    }
    assert_eq!(jobs_for(&model, &strings(&["stranger"]), &strings(&["king"])).len(), 0);
}

#[test]
fn embedding_strategy_enqueues_the_most_similar_first() {
    let mut store = CardStore::new();
    for (word, due, session) in [
        ("prince", 1, 0),
        ("apple", 1, 0),
        ("queen", 1, 0),
        ("duke", NOW + 1, 0),
        ("rebel", 1, 0),
        ("king", 1, 0),
    ] {
        store.upsert(word, card(due), session);
    }
    let mut history = SQLiteHistory::new(store);
    history.strategy = ExtendStrategy::Word2vec(Embedding { model: sample_model(), scored: Vec::new() });
    history.seed(strings(&["king"]));
    let mut shown = Vec::new();
    loop {
        for job in history.to_score() {
            history.add_scores(score(job));
        }
        assert_eq!(history.unscored(), Vec::<String>::new());
        match history.next_to_review(NOW) {
            Ok(word) => shown.push(word),
            Err(e) => {
                assert_eq!(e, ReviewError::Exhausted);
                break;
            }
        }
    }
    assert_eq!(shown[..3], strings(&["king", "queen", "prince"]));
    // "apple" was proposed after "prince" and shown from the queue, which
    // leaves its row unmarked: the store hands it out once more.
    assert_eq!(shown[3], "apple");
    let mut rest = shown[4..].to_vec();
    rest.sort();
    assert_eq!(rest, strings(&["apple", "king", "prince", "queen", "rebel"]));
    match &history.strategy {
        ExtendStrategy::Word2vec(embedding) => {
            let king = &embedding.scored[0];
            assert_eq!(king.word, "king");
            let scores = pairs(&king.scored);
            assert_eq!(scores.len(), 6);
            assert_eq!(scores[0].1, "prince");
            assert!((scores[0].0 - 0.8).abs() < 1e-6);
            assert!((scores[2].0 - 0.993_883_7).abs() < 1e-6);
            assert_eq!(scores[5], (1.0, "king".to_string()));
        }
        _ => panic!("the strategy changed"),
    }
}

#[test]
fn unscored_lists_the_shown_words_without_scores() {
    let mut history = SQLiteHistory::default();
    history.pending = strings(&["king", "stranger", "apple"]);
    assert_eq!(history.unscored(), Vec::<String>::new());
    assert_eq!(history.to_score().len(), 0);
    history.add_scores(Neighbours { word: "king".to_string(), scored: Vec::new() });
    assert!(matches!(history.strategy, ExtendStrategy::Levenshtein));
    history.strategy = ExtendStrategy::Word2vec(Embedding { model: sample_model(), scored: Vec::new() });
    assert_eq!(history.unscored(), strings(&["king", "stranger", "apple"]));
    history.add_scores(Neighbours { word: "stranger".to_string(), scored: vec![scored(0.9, "x")] });
    assert_eq!(history.unscored(), strings(&["king", "apple"]));
    let jobs = history.to_score();
    assert_eq!(jobs.iter().map(|j| j.word.clone()).collect::<Vec<String>>(), strings(&["king", "apple"]));
    assert_eq!(jobs[0].others.len(), 0);
    match &history.strategy {
        ExtendStrategy::Word2vec(embedding) => {
            assert_eq!(embedding.scored.len(), 1);
            assert_eq!(embedding.scored[0].word, "stranger");
            assert_eq!(pairs(&embedding.scored[0].scored), vec![(0.9, "x".to_string())]);
        }
        _ => panic!("the strategy changed"),
    }
}

#[test]
fn scheduler_ranks_the_due_words_outside_its_session() {
    let mut store = CardStore::new();
    for (word, due, session) in
        [("prince", 1, 0), ("queen", 1, 3), ("duke", NOW + 1, 0), ("king", 1, 0), ("apple", 1, 0)]
    {
        store.upsert(word, card(due), session);
    }
    let mut history = SQLiteHistory::new(store);
    let table = sample_table();
    assert_eq!(
        pairs(&history.rank_similar_words(&table, "king", NOW)),
        vec![(1.0, "king".to_string()), (0.9, "queen".to_string()), (0.8, "prince".to_string())]
    );
    history.session_id = 3;
    assert_eq!(
        words_of(&history.rank_similar_words(&table, "king", NOW)),
        strings(&["king", "prince"])
    );
    history.seed(strings(&["first"]));
    history.extend_by_word2vec(&table, "king", NOW);
    assert_eq!(
        history.queue.iter().cloned().collect::<Vec<String>>(),
        strings(&["first", "king", "prince"])
    );
    history.extend_by_word2vec(&table, "stranger", NOW);
    assert_eq!(history.queue.len(), 3);
}
