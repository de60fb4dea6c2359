//! Words ranked by the similarity of their embedding vectors.
//!
//! The library reads the vectors from a table of word vectors and hands them
//! out to be scored; the similarities are computed outside, and the library
//! is handed, for a word, the words scored against it. Numbers are held as
//! bit patterns of IEEE-754 single precision. The patterns above [`HALF`] and
//! up to [`GREATEST`] are those of the numbers greater than one half, and
//! among them a greater pattern is a greater number.

use crate::text::{holds_word, texts};
use vstd::prelude::*;
use word2vec::wordvectors::WordVector;

verus! {

/// A table of word vectors of the `word2vec` crate.
#[verifier::external_type_specification]
#[verifier::external_body]
pub struct ExWordVector(WordVector);

/// The entries of a table of word vectors, in the order of the table: each
/// word with the bit patterns of its vector.
pub uninterp spec fn vectors(model: WordVector) -> Seq<(Seq<char>, Seq<u32>)>;

/// The vector of the first entry for `word`.
pub open spec fn vector_in(entries: Seq<(Seq<char>, Seq<u32>)>, word: Seq<char>) -> Option<Seq<u32>>
    decreases entries.len(),
{
    if entries.len() == 0 {
        None
    } else if entries[0].0 == word {
        Some(entries[0].1)
    } else {
        vector_in(entries.drop_first(), word)
    }
}

/// Calls `WordVector::get_vector`, which looks for the first entry whose
/// word is `word` and returns its vector, or nothing where no entry has the
/// word. The numbers of the vector are handed on as their bit patterns.
#[verifier::external_body]
pub(crate) fn vector_of(model: &WordVector, word: &str) -> (r: Option<Vec<u32>>)
    ensures
        match r {
            Some(vector) => vector_in(vectors(*model), word@) == Some(vector@),
            None => vector_in(vectors(*model), word@) is None,
        },
{
    model.get_vector(word).map(|v| v.iter().map(|x| x.to_bits()).collect())
}

/// A word with its vector.
pub struct Labelled {
    pub word: String,
    pub vector: Vec<u32>,
}

/// The mathematical content of a [`Labelled`].
pub struct LabelledView {
    pub word: Seq<char>,
    pub vector: Seq<u32>,
}

impl View for Labelled {
    type V = LabelledView;

    open spec fn view(&self) -> LabelledView {
        LabelledView { word: self.word@, vector: self.vector@ }
    }
}

/// The contents of a list of words with their vectors.
pub open spec fn labels(list: Seq<Labelled>) -> Seq<LabelledView> {
    list.map_values(|l: Labelled| l@)
}

/// The words of `words` that have a vector among `entries`, each with its
/// vector, in their order.
pub open spec fn labelled(entries: Seq<(Seq<char>, Seq<u32>)>, words: Seq<Seq<char>>) -> Seq<
    LabelledView,
>
    decreases words.len(),
{
    if words.len() == 0 {
        Seq::empty()
    } else {
        match vector_in(entries, words.last()) {
            Some(vector) => labelled(entries, words.drop_last()).push(
                LabelledView { word: words.last(), vector },
            ),
            None => labelled(entries, words.drop_last()),
        }
    }
}

/// The words of `words` that have a vector in the table, each with its
/// vector.
pub fn with_vectors(model: &WordVector, words: &Vec<String>) -> (r: Vec<Labelled>)
    ensures
        labels(r@) == labelled(vectors(*model), texts(words@)),
{
    let ghost all = texts(words@);
    let mut out: Vec<Labelled> = Vec::new();
    let mut i: usize = 0;
    proof {
        assert(all.take(0) =~= Seq::<Seq<char>>::empty());
        assert(labels(out@) =~= labelled(vectors(*model), all.take(0)));
    }
    while i < words.len()
        invariant
            i <= words.len(),
            all == texts(words@),
            labels(out@) == labelled(vectors(*model), all.take(i as int)),
        decreases words.len() - i,
    {
        proof {
            assert(all.take(i + 1).drop_last() =~= all.take(i as int));
            assert(all.take(i + 1).last() == words@[i as int]@);
        }
        match vector_of(model, words[i].as_str()) {
            Some(vector) => {
                let ghost kept = labels(out@);
                let entry = Labelled { word: words[i].clone(), vector };
                let ghost view = entry@;
                out.push(entry);
                assert(labels(out@) =~= kept.push(view));
            },
            None => {},
        }
        i += 1;
    }
    proof {
        assert(all.take(words@.len() as int) =~= all);
    }
    out
}

/// A word to score: its vector, and the words to score against it with
/// theirs.
pub struct Job {
    pub word: String,
    pub vector: Vec<u32>,
    pub others: Vec<Labelled>,
}

/// The mathematical content of a [`Job`].
pub struct JobView {
    pub word: Seq<char>,
    pub vector: Seq<u32>,
    pub others: Seq<LabelledView>,
}

impl View for Job {
    type V = JobView;

    open spec fn view(&self) -> JobView {
        JobView { word: self.word@, vector: self.vector@, others: labels(self.others@) }
    }
}

/// The contents of a list of jobs.
pub open spec fn job_views(list: Seq<Job>) -> Seq<JobView> {
    list.map_values(|j: Job| j@)
}

/// One job for each word of `words` that has a vector among `entries`, in
/// their order: the word is to be scored against the words of `candidates`
/// that have a vector.
pub open spec fn jobs(
    entries: Seq<(Seq<char>, Seq<u32>)>,
    words: Seq<Seq<char>>,
    candidates: Seq<Seq<char>>,
) -> Seq<JobView>
    decreases words.len(),
{
    if words.len() == 0 {
        Seq::empty()
    } else {
        match vector_in(entries, words.last()) {
            Some(vector) => jobs(entries, words.drop_last(), candidates).push(
                JobView { word: words.last(), vector, others: labelled(entries, candidates) },
            ),
            None => jobs(entries, words.drop_last(), candidates),
        }
    }
}

/// The jobs for `words` against `candidates`.
pub fn jobs_for(model: &WordVector, words: &Vec<String>, candidates: &Vec<String>) -> (r: Vec<Job>)
    ensures
        job_views(r@) == jobs(vectors(*model), texts(words@), texts(candidates@)),
{
    let ghost all = texts(words@);
    let mut out: Vec<Job> = Vec::new();
    let mut i: usize = 0;
    proof {
        assert(all.take(0) =~= Seq::<Seq<char>>::empty());
        assert(job_views(out@) =~= jobs(vectors(*model), all.take(0), texts(candidates@)));
    }
    while i < words.len()
        invariant
            i <= words.len(),
            all == texts(words@),
            job_views(out@) == jobs(vectors(*model), all.take(i as int), texts(candidates@)),
        decreases words.len() - i,
    {
        proof {
            assert(all.take(i + 1).drop_last() =~= all.take(i as int));
            assert(all.take(i + 1).last() == words@[i as int]@);
        }
        match vector_of(model, words[i].as_str()) {
            Some(vector) => {
                let ghost kept = job_views(out@);
                let job = Job {
                    word: words[i].clone(),
                    vector,
                    others: with_vectors(model, candidates),
                };
                let ghost view = job@;
                out.push(job);
                assert(job_views(out@) =~= kept.push(view));
            },
            None => {},
        }
        i += 1;
    }
    proof {
        assert(all.take(words@.len() as int) =~= all);
    }
    out
}

/// A table of word vectors with the scores made of it so far.
pub struct Embedding {
    pub model: WordVector,
    pub scored: Vec<Neighbours>,
}

/// The bit pattern of one half.
pub const HALF: u32 = 0x3f00_0000;

/// The bit pattern of positive infinity.
pub const GREATEST: u32 = 0x7f80_0000;

/// A word with its similarity to the word asked for.
pub struct Scored {
    pub similarity: u32,
    pub word: String,
}

/// The mathematical content of a [`Scored`].
pub struct ScoredView {
    pub similarity: u32,
    pub word: Seq<char>,
}

impl View for Scored {
    type V = ScoredView;

    open spec fn view(&self) -> ScoredView {
        ScoredView { similarity: self.similarity, word: self.word@ }
    }
}

/// The contents of a list of scored words.
pub open spec fn scores(list: Seq<Scored>) -> Seq<ScoredView> {
    list.map_values(|s: Scored| s@)
}

/// The words scored against one word.
pub struct Neighbours {
    pub word: String,
    pub scored: Vec<Scored>,
}

/// The mathematical content of a [`Neighbours`].
pub struct NeighboursView {
    pub word: Seq<char>,
    pub scored: Seq<ScoredView>,
}

impl View for Neighbours {
    type V = NeighboursView;

    open spec fn view(&self) -> NeighboursView {
        NeighboursView { word: self.word@, scored: scores(self.scored@) }
    }
}

/// The contents of a table of neighbours.
pub open spec fn tables(table: Seq<Neighbours>) -> Seq<NeighboursView> {
    table.map_values(|n: Neighbours| n@)
}

/// Entry `i` exists and is the first one for `word`.
pub open spec fn first_scored(table: Seq<NeighboursView>, i: int, word: Seq<char>) -> bool {
    &&& 0 <= i < table.len()
    &&& table[i].word == word
    &&& forall|j: int| 0 <= j < i ==> (#[trigger] table[j]).word != word
}

/// The words scored against `word`: those of the first entry for it.
pub open spec fn scored_against(table: Seq<NeighboursView>, word: Seq<char>) -> Option<
    Seq<ScoredView>,
> {
    if exists|i: int| first_scored(table, i, word) {
        Some(table[choose|i: int| first_scored(table, i, word)].scored)
    } else {
        None
    }
}

/// The similarity is that of a number greater than one half.
pub open spec fn above_half(similarity: u32) -> bool {
    HALF < similarity <= GREATEST
}

/// The index at which `entry` joins the ranked list `list`: before the first
/// entry of a lesser similarity, after every entry of an equal or greater
/// one.
pub open spec fn place(list: Seq<ScoredView>, entry: ScoredView) -> int
    decreases list.len(),
{
    if list.len() == 0 || list[0].similarity < entry.similarity {
        0
    } else {
        1 + place(list.drop_first(), entry)
    }
}

/// The entries of `list` by falling similarity; entries of one similarity
/// keep their order.
pub open spec fn ranked(list: Seq<ScoredView>) -> Seq<ScoredView>
    decreases list.len(),
{
    if list.len() == 0 {
        list
    } else {
        let before = ranked(list.drop_last());
        before.insert(place(before, list.last()), list.last())
    }
}

/// The similarities of `list` do not rise.
pub open spec fn falling(list: Seq<ScoredView>) -> bool {
    forall|i: int, j: int|
        0 <= i < j < list.len() ==> (#[trigger] list[i]).similarity >= (#[trigger] list[j]).similarity
}

/// The place of an entry lies within the list, after entries that are not
/// lesser and before one that is.
pub proof fn lemma_place(list: Seq<ScoredView>, entry: ScoredView)
    ensures
        0 <= place(list, entry) <= list.len(),
        forall|i: int|
            0 <= i < place(list, entry) ==> (#[trigger] list[i]).similarity >= entry.similarity,
        place(list, entry) < list.len() ==> list[place(list, entry)].similarity < entry.similarity,
    decreases list.len(),
{
    if list.len() == 0 || list[0].similarity < entry.similarity {
    } else {
        let rest = list.drop_first();
        lemma_place(rest, entry);
        assert forall|i: int| 0 <= i < place(list, entry) implies (#[trigger] list[i]).similarity
            >= entry.similarity by {
            if i > 0 {
                assert(list[i] == rest[i - 1]);
            }
        }
        assert(place(list, entry) < list.len() ==> list[place(list, entry)] == rest[place(
            rest,
            entry,
        )]);
    }
}

/// A ranked list holds the entries of the list it was made of, each as often,
/// by falling similarity.
pub proof fn lemma_ranked(list: Seq<ScoredView>)
    ensures
        ranked(list).len() == list.len(),
        ranked(list).to_multiset() == list.to_multiset(),
        falling(ranked(list)),
    decreases list.len(),
{
    broadcast use vstd::seq_lib::group_to_multiset_ensures;

    if list.len() == 0 {
    } else {
        let before = ranked(list.drop_last());
        let entry = list.last();
        let at = place(before, entry);
        let after = before.insert(at, entry);
        lemma_ranked(list.drop_last());
        lemma_place(before, entry);
        assert(list =~= list.drop_last().push(entry));
        before.to_multiset_ensures();
        assert(after.to_multiset() =~= before.to_multiset().insert(entry));
        assert(list.drop_last().push(entry).to_multiset() =~= list.drop_last().to_multiset().insert(
            entry,
        ));
        assert forall|i: int, j: int| 0 <= i < j < after.len() implies (#[trigger] after[i]).similarity
            >= (#[trigger] after[j]).similarity by {
            let a = if i < at { i } else { i - 1 };
            let b = if j < at { j } else { j - 1 };
            if i == at {
                if at < before.len() {
                    assert(before[at].similarity >= before[b].similarity || at == b);
                }
            } else if j == at {
                assert(before[a].similarity >= entry.similarity);
            } else {
                assert(before[a].similarity >= before[b].similarity);
            }
        }
    }
}

/// The word of a scored entry.
pub open spec fn scored_word() -> spec_fn(ScoredView) -> Seq<char> {
    |entry: ScoredView| entry.word
}

/// The test for a neighbour that is proposed: similar enough, and due.
pub open spec fn proposed(due: Seq<Seq<char>>) -> spec_fn(ScoredView) -> bool {
    |entry: ScoredView| above_half(entry.similarity) && due.contains(entry.word)
}

/// The words scored against `word` that are due and similar enough, by
/// falling similarity. A table without the word gives none.
pub open spec fn similar_words(
    table: Seq<NeighboursView>,
    word: Seq<char>,
    due: Seq<Seq<char>>,
) -> Seq<ScoredView> {
    match scored_against(table, word) {
        Some(found) => ranked(found.filter(proposed(due))),
        None => Seq::empty(),
    }
}

/// The list of similar words holds exactly the entries scored against the
/// word that are similar enough and due, each as often as it was scored, and
/// its similarities do not rise.
pub proof fn lemma_similar_words(table: Seq<NeighboursView>, word: Seq<char>, due: Seq<Seq<char>>)
    ensures
        falling(similar_words(table, word, due)),
        match scored_against(table, word) {
            Some(found) => {
                &&& similar_words(table, word, due).to_multiset() == found.filter(
                    proposed(due),
                ).to_multiset()
                &&& forall|entry: ScoredView|
                    #[trigger] similar_words(table, word, due).contains(entry) <==> found.contains(
                        entry,
                    ) && above_half(entry.similarity) && due.contains(entry.word)
            },
            None => similar_words(table, word, due).len() == 0,
        },
{
    match scored_against(table, word) {
        Some(found) => {
            let kept = found.filter(proposed(due));
            let list = similar_words(table, word, due);
            lemma_ranked(kept);
            list.to_multiset_ensures();
            kept.to_multiset_ensures();
            assert forall|entry: ScoredView| #[trigger] list.contains(entry) <==> found.contains(
                entry,
            ) && above_half(entry.similarity) && due.contains(entry.word) by {
                assert(list.contains(entry) <==> list.to_multiset().count(entry) > 0);
                assert(kept.contains(entry) <==> kept.to_multiset().count(entry) > 0);
                assert(list.to_multiset() == kept.to_multiset());
                if kept.contains(entry) {
                    let k = choose|k: int| 0 <= k < kept.len() && kept[k] == entry;
                    found.lemma_filter_pred(proposed(due), k);
                    found.lemma_filter_contains_rev(proposed(due), entry);
                }
                if found.contains(entry) && proposed(due)(entry) {
                    let i = choose|i: int| 0 <= i < found.len() && found[i] == entry;
                    found.lemma_filter_contains(proposed(due), i);
                }
            }
        },
        None => {},
    }
}

/// The entries of `found` that are similar enough and among the `due` words.
pub fn keep_proposed(found: &Vec<Scored>, due: &Vec<String>) -> (r: Vec<Scored>)
    ensures
        scores(r@) == scores(found@).filter(proposed(texts(due@))),
{
    let mut out: Vec<Scored> = Vec::new();
    let mut i: usize = 0;
    let ghost all = scores(found@);
    let ghost pred = proposed(texts(due@));
    proof {
        reveal(Seq::filter);
        assert(all.take(0) =~= Seq::<ScoredView>::empty());
        assert(scores(out@) =~= all.take(0).filter(pred));
    }
    while i < found.len()
        invariant
            i <= found.len(),
            all == scores(found@),
            pred == proposed(texts(due@)),
            scores(out@) == all.take(i as int).filter(pred),
        decreases found.len() - i,
    {
        let entry = &found[i];
        let ghost before = all.take(i as int);
        proof {
            assert(all.take(i + 1) =~= before.push(all[i as int]));
            before.lemma_filter_push(all[i as int], pred);
        }
        if HALF < entry.similarity && entry.similarity <= GREATEST && holds_word(due, &entry.word) {
            let ghost kept = scores(out@);
            out.push(Scored { similarity: entry.similarity, word: entry.word.clone() });
            assert(scores(out@) =~= kept.push(all[i as int]));
        }
        i += 1;
    }
    proof {
        assert(all.take(found@.len() as int) =~= all);
    }
    out
}

/// Orders `list` by falling similarity; entries of one similarity keep
/// their order.
pub fn rank(list: &Vec<Scored>) -> (r: Vec<Scored>)
    ensures
        scores(r@) == ranked(scores(list@)),
        scores(r@).to_multiset() == scores(list@).to_multiset(),
        falling(scores(r@)),
{
    let mut out: Vec<Scored> = Vec::new();
    let mut i: usize = 0;
    let ghost all = scores(list@);
    proof {
        assert(all.take(0) =~= Seq::<ScoredView>::empty());
        assert(scores(out@) =~= ranked(all.take(0)));
    }
    while i < list.len()
        invariant
            i <= list.len(),
            all == scores(list@),
            scores(out@) == ranked(all.take(i as int)),
        decreases list.len() - i,
    {
        let entry = &list[i];
        let ghost before = scores(out@);
        let mut at: usize = 0;
        proof {
            assert(before.skip(0) =~= before);
            lemma_ranked(all.take(i as int));
        }
        while at < out.len() && out[at].similarity >= entry.similarity
            invariant
                at <= out.len(),
                before == scores(out@),
                place(before, entry@) == at + place(before.skip(at as int), entry@),
            decreases out.len() - at,
        {
            proof {
                assert(before.skip(at as int)[0] == before[at as int]);
                assert(before.skip(at as int).drop_first() =~= before.skip(at + 1));
            }
            at += 1;
        }
        proof {
            if at < out.len() {
                assert(before.skip(at as int)[0] == before[at as int]);
            }
            assert(place(before, entry@) == at);
            assert(all.take(i + 1).drop_last() =~= all.take(i as int));
            assert(all.take(i + 1).last() == entry@);
        }
        out.insert(at, Scored { similarity: entry.similarity, word: entry.word.clone() });
        proof {
            assert(scores(out@) =~= before.insert(at as int, entry@));
        }
        i += 1;
    }
    proof {
        assert(all.take(list@.len() as int) =~= all);
        lemma_ranked(all);
    }
    out
}

/// The index of the first entry for `word`.
pub fn find_scored(table: &Vec<Neighbours>, word: &str) -> (r: Option<usize>)
    ensures
        match r {
            Some(i) => first_scored(tables(table@), i as int, word@) && scored_against(
                tables(table@),
                word@,
            ) == Some(scores(table@[i as int].scored@)),
            None => scored_against(tables(table@), word@) is None,
        },
{
    let key = String::from_str(word);
    let ghost all = tables(table@);
    let mut i: usize = 0;
    while i < table.len()
        invariant
            i <= table.len(),
            key@ == word@,
            all == tables(table@),
            forall|j: int| 0 <= j < i ==> (#[trigger] all[j]).word != word@,
        decreases table.len() - i,
    {
        proof {
            assert(all[i as int] == table@[i as int]@);
        }
        if table[i].word == key {
            proof {
                assert(first_scored(all, i as int, word@));
                let c = choose|c: int| first_scored(all, c, word@);
                assert(c == i) by {
                    if c < i {
                        assert(all[c].word != word@);
                    } else if i < c {
                        assert(all[i as int].word != word@);
                    }
                }
            }
            return Some(i);
        }
        i += 1;
    }
    proof {
        assert forall|c: int| !first_scored(all, c, word@) by {
            if 0 <= c < all.len() {
                assert(all[c].word != word@);
            }
        }
    }
    None
}

/// The words scored against `word` in the table that are among the `due`
/// words and similar enough, by falling similarity. A table without the word
/// gives none.
pub fn rank_similar_words(table: &Vec<Neighbours>, word: &str, due: &Vec<String>) -> (r: Vec<
    Scored,
>)
    ensures
        scores(r@) == similar_words(tables(table@), word@, texts(due@)),
        falling(scores(r@)),
        forall|entry: ScoredView|
            #[trigger] scores(r@).contains(entry) <==> (scored_against(tables(table@), word@) matches Some(
                found,
            ) && found.contains(entry)) && above_half(entry.similarity) && texts(due@).contains(
                entry.word,
            ),
{
    proof {
        lemma_similar_words(tables(table@), word@, texts(due@));
    }
    match find_scored(table, word) {
        Some(i) => {
            let kept = keep_proposed(&table[i].scored, due);
            rank(&kept)
        },
        None => Vec::new(),
    }
}

/// The words of `list`, in its order.
pub fn words_of(list: &Vec<Scored>) -> (r: Vec<String>)
    ensures
        texts(r@) == scores(list@).map_values(scored_word()),
{
    let mut out: Vec<String> = Vec::new();
    let mut i: usize = 0;
    while i < list.len()
        invariant
            i <= list.len(),
            out@.len() == i,
            forall|j: int| 0 <= j < i ==> (#[trigger] out@[j])@ == list@[j].word@,
        decreases list.len() - i,
    {
        out.push(list[i].word.clone());
        i += 1;
    }
    proof {
        assert(texts(out@) =~= scores(list@).map_values(scored_word()));
    }
    out
}

} // verus!
