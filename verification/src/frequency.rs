//! The word-frequency table and the test that a word is frequent enough.

use crate::text::{
    comes_before, lemma_order_transitive, lemma_precedes_asymmetric, lemma_precedes_total,
    lowercase, precedes, to_lowercase,
};
use vstd::prelude::*;

verus! {

/// One line of the frequency table. A rank of 0 means that the word is not
/// ranked in that list.
#[derive(Debug)]
pub struct Record {
    pub word: String,
    pub bnc: u32,
    pub frq: u32,
}

/// A word qualifies under threshold `freq` when one of its ranks is set and
/// does not exceed the threshold.
pub open spec fn qualifies(bnc: u32, frq: u32, freq: u32) -> bool {
    (bnc != 0 && bnc <= freq) || (frq != 0 && frq <= freq)
}

/// Tells whether `record` qualifies under threshold `freq`.
pub fn qualify(record: &Record, freq: u32) -> (r: bool)
    ensures
        r == qualifies(record.bnc, record.frq, freq),
{
    (record.bnc != 0 && record.bnc <= freq) || (record.frq != 0 && record.frq <= freq)
}

/// No word of the table is ranked beyond this.
pub const RANKS: u32 = 50000;

/// Why a threshold was turned down.
#[derive(Clone, Copy, Debug, PartialEq, Eq, Structural)]
pub enum FrequencyError {
    /// A threshold of 0 would let no word pass.
    Zero,
    /// A threshold beyond [`RANKS`] would let every ranked word pass.
    TooLarge,
}

/// Checks a threshold that a caller asks for: it lies between 1 and
/// [`RANKS`].
pub fn check_frequency(frequency: u32) -> (r: Result<(), FrequencyError>)
    ensures
        match r {
            Ok(()) => 1 <= frequency <= RANKS,
            Err(FrequencyError::Zero) => frequency == 0,
            Err(FrequencyError::TooLarge) => frequency > RANKS,
        },
{
    if frequency > RANKS {
        Err(FrequencyError::TooLarge)
    } else if frequency == 0 {
        Err(FrequencyError::Zero)
    } else {
        Ok(())
    }
}

/// The case-folded word of record `i`.
pub open spec fn folded(records: Seq<Record>, i: int) -> Seq<char> {
    lowercase(records[i].word@)
}

/// The table is sorted by case-folded word.
pub open spec fn sorted(records: Seq<Record>) -> bool {
    forall|i: int, j: int|
        0 <= i < j < records.len() ==> !precedes(#[trigger] folded(records, j), #[trigger] folded(records, i))
}

/// Tells whether the table is sorted by case-folded word.
pub fn is_sorted(records: &Vec<Record>) -> (r: bool)
    ensures
        r == sorted(records@),
{
    if records.len() < 2 {
        return true;
    }
    let mut prev = to_lowercase(records[0].word.as_str());
    let mut i: usize = 1;
    while i < records.len()
        invariant
            1 <= i <= records.len(),
            prev@ == folded(records@, i - 1),
            forall|a: int, b: int|
                0 <= a < b < i ==> !precedes(
                    #[trigger] folded(records@, b),
                    #[trigger] folded(records@, a),
                ),
        decreases records.len() - i,
    {
        let next = to_lowercase(records[i].word.as_str());
        if comes_before(next.as_str(), prev.as_str()) {
            assert(precedes(folded(records@, i as int), folded(records@, i - 1)));
            return false;
        }
        proof {
            assert forall|a: int, b: int| 0 <= a < b < i + 1 implies !precedes(
                #[trigger] folded(records@, b),
                #[trigger] folded(records@, a),
            ) by {
                if b == i && a < i - 1 {
                    lemma_order_transitive(
                        folded(records@, a),
                        folded(records@, i - 1),
                        folded(records@, i as int),
                    );
                }
            }
        }
        prev = next;
        i += 1;
    }
    true
}

/// The index at which a record of the folded word `key` joins the sorted
/// list `list`: after the last record whose word does not come after it.
pub open spec fn slot(list: Seq<Record>, key: Seq<char>) -> int
    decreases list.len(),
{
    if list.len() == 0 || !precedes(key, lowercase(list.last().word@)) {
        list.len() as int
    } else {
        slot(list.drop_last(), key)
    }
}

/// The records of `list` sorted by case-folded word; records of one folded
/// word keep their order.
pub open spec fn arranged(list: Seq<Record>) -> Seq<Record>
    decreases list.len(),
{
    if list.len() == 0 {
        list
    } else {
        let before = arranged(list.drop_last());
        before.insert(slot(before, lowercase(list.last().word@)), list.last())
    }
}

/// The slot lies within the list, behind a record that does not come after
/// the key and before the records that do.
pub proof fn lemma_slot(list: Seq<Record>, key: Seq<char>)
    ensures
        0 <= slot(list, key) <= list.len(),
        slot(list, key) > 0 ==> !precedes(key, folded(list, slot(list, key) - 1)),
        forall|j: int| slot(list, key) <= j < list.len() ==> precedes(key, #[trigger] folded(list, j)),
    decreases list.len(),
{
    if list.len() == 0 || !precedes(key, lowercase(list.last().word@)) {
    } else {
        let rest = list.drop_last();
        lemma_slot(rest, key);
        let at = slot(rest, key);
        assert(at > 0 ==> folded(list, at - 1) == folded(rest, at - 1));
        assert forall|j: int| at <= j < list.len() implies precedes(key, #[trigger] folded(list, j)) by {
            if j < rest.len() {
                assert(folded(list, j) == folded(rest, j));
            }
        }
    }
}

/// The arranged list holds the records of the list it was made of, each as
/// often, sorted by case-folded word.
pub proof fn lemma_arranged(list: Seq<Record>)
    ensures
        arranged(list).len() == list.len(),
        arranged(list).to_multiset() == list.to_multiset(),
        sorted(arranged(list)),
    decreases list.len(),
{
    broadcast use vstd::seq_lib::group_to_multiset_ensures;

    if list.len() > 0 {
        let before = arranged(list.drop_last());
        let record = list.last();
        let key = lowercase(record.word@);
        let at = slot(before, key);
        let after = before.insert(at, record);
        lemma_arranged(list.drop_last());
        lemma_slot(before, key);
        assert(list =~= list.drop_last().push(record));
        before.to_multiset_ensures();
        assert(after.to_multiset() =~= before.to_multiset().insert(record));
        assert(list.drop_last().push(record).to_multiset() =~= list.drop_last().to_multiset().insert(
            record,
        ));
        assert forall|i: int, j: int| 0 <= i < j < after.len() implies !precedes(
            #[trigger] folded(after, j),
            #[trigger] folded(after, i),
        ) by {
            let a = if i < at { i } else { i - 1 };
            let b = if j < at { j } else { j - 1 };
            if i == at {
                assert(folded(after, i) == key);
                assert(folded(after, j) == folded(before, b));
                assert(precedes(key, folded(before, b)));
                lemma_precedes_asymmetric(key, folded(before, b));
            } else if j == at {
                assert(folded(after, j) == key);
                assert(folded(after, i) == folded(before, a));
                if a < at - 1 {
                    assert(!precedes(folded(before, at - 1), folded(before, a)));
                    lemma_order_transitive(folded(before, a), folded(before, at - 1), key);
                }
            } else {
                assert(folded(after, i) == folded(before, a));
                assert(folded(after, j) == folded(before, b));
                assert(!precedes(folded(before, b), folded(before, a)));
            }
        }
    }
}

/// Sorts the table by case-folded word; records of one folded word keep
/// their order.
pub fn sort_records(records: &Vec<Record>) -> (r: Vec<Record>)
    ensures
        r@ == arranged(records@),
        r@.to_multiset() == records@.to_multiset(),
        sorted(r@),
{
    let mut out: Vec<Record> = Vec::new();
    let mut i: usize = 0;
    proof {
        assert(records@.take(0) =~= Seq::<Record>::empty());
    }
    while i < records.len()
        invariant
            i <= records.len(),
            out@ == arranged(records@.take(i as int)),
        decreases records.len() - i,
    {
        let record = &records[i];
        let key = to_lowercase(record.word.as_str());
        let ghost before = out@;
        let mut at: usize = out.len();
        proof {
            assert(before.take(at as int) =~= before);
        }
        while at > 0
            invariant
                at <= out.len(),
                before == out@,
                key@ == lowercase(record.word@),
                slot(before, key@) == slot(before.take(at as int), key@),
            ensures
                at <= out.len(),
                slot(before, key@) == at,
            decreases at,
        {
            let probe = to_lowercase(out[at - 1].word.as_str());
            proof {
                assert(before.take(at as int).last() == before[at - 1]);
                assert(before.take(at as int).drop_last() =~= before.take(at - 1));
            }
            if !comes_before(key.as_str(), probe.as_str()) {
                break;
            }
            at -= 1;
        }
        let copy = Record { word: record.word.clone(), bnc: record.bnc, frq: record.frq };
        proof {
            assert(copy == *record);
            assert(records@.take(i + 1).drop_last() =~= records@.take(i as int));
            assert(records@.take(i + 1).last() == *record);
        }
        out.insert(at, copy);
        i += 1;
    }
    proof {
        assert(records@.take(records@.len() as int) =~= records@);
        lemma_arranged(records@);
    }
    out
}

/// Record `i` exists and holds `word`, letter case aside.
pub open spec fn matches(records: Seq<Record>, i: int, word: Seq<char>) -> bool {
    0 <= i < records.len() && folded(records, i) == lowercase(word)
}

/// The index on which a binary search for the folded word `key` lands
/// between `lo` and `hi`.
pub open spec fn lookup_between(records: Seq<Record>, key: Seq<char>, lo: int, hi: int) -> Option<int>
    decreases hi - lo,
{
    if lo >= hi {
        None
    } else {
        let mid = lo + (hi - lo) / 2;
        if folded(records, mid) == key {
            Some(mid)
        } else if precedes(folded(records, mid), key) {
            lookup_between(records, key, mid + 1, hi)
        } else {
            lookup_between(records, key, lo, mid)
        }
    }
}

/// The index on which a binary search for `word` lands.
pub open spec fn lookup(records: Seq<Record>, word: Seq<char>) -> Option<int> {
    lookup_between(records, lowercase(word), 0, records.len() as int)
}

/// The search lands only on a record that holds the word, and in a sorted
/// table it misses only a word that no record between the bounds holds.
pub proof fn lemma_lookup_between(records: Seq<Record>, key: Seq<char>, lo: int, hi: int)
    requires
        0 <= lo <= hi <= records.len(),
    ensures
        match lookup_between(records, key, lo, hi) {
            Some(i) => lo <= i < hi && folded(records, i) == key,
            None => sorted(records) ==> forall|i: int| lo <= i < hi ==> folded(records, i) != key,
        },
    decreases hi - lo,
{
    if lo < hi {
        let mid = lo + (hi - lo) / 2;
        let probe = folded(records, mid);
        if probe == key {
        } else if precedes(probe, key) {
            lemma_lookup_between(records, key, mid + 1, hi);
            if sorted(records) {
                assert forall|i: int| lo <= i <= mid implies folded(records, i) != key by {
                    if i < mid {
                        assert(!precedes(folded(records, mid), folded(records, i)));
                    }
                }
            }
        } else {
            lemma_lookup_between(records, key, lo, mid);
            if sorted(records) {
                assert forall|i: int| mid <= i < hi implies folded(records, i) != key by {
                    if mid < i {
                        assert(!precedes(folded(records, i), folded(records, mid)));
                        if folded(records, i) == key {
                            lemma_precedes_total(probe, key);
                        }
                    }
                }
            }
        }
    }
}

/// The search for a word finds a record that holds it, letter case aside; in
/// a sorted table it finds one whenever there is one.
pub proof fn lemma_lookup(records: Seq<Record>, word: Seq<char>)
    ensures
        lookup(records, word) matches Some(i) ==> matches(records, i, word),
        sorted(records) && lookup(records, word) is None ==> forall|i: int|
            !matches(records, i, word),
{
    lemma_lookup_between(records, lowercase(word), 0, records.len() as int);
}

/// Searches the table for `word`, letter case aside, by binary search.
pub fn search(records: &Vec<Record>, word: &str) -> (r: Option<usize>)
    ensures
        r matches Some(i) ==> lookup(records@, word@) == Some(i as int) && matches(
            records@,
            i as int,
            word@,
        ),
        r is None ==> lookup(records@, word@) is None,
        r is None && sorted(records@) ==> forall|i: int| !matches(records@, i, word@),
{
    let key = to_lowercase(word);
    let mut lo: usize = 0;
    let mut hi: usize = records.len();
    proof {
        lemma_lookup(records@, word@);
    }
    while lo < hi
        invariant
            lo <= hi <= records.len(),
            key@ == lowercase(word@),
            lookup_between(records@, key@, lo as int, hi as int) == lookup(records@, word@),
        decreases hi - lo,
    {
        let mid = lo + (hi - lo) / 2;
        let probe = to_lowercase(records[mid].word.as_str());
        if probe == key {
            return Some(mid);
        }
        if comes_before(probe.as_str(), key.as_str()) {
            lo = mid + 1;
        } else {
            hi = mid;
        }
    }
    None
}

} // verus!
