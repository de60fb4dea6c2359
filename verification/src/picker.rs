//! Picking a stored word whose first letter no name in a list begins with.

use crate::chance::random_below;
use crate::store::{CardStore, RowView};
use crate::text::{lowercase, texts, to_lowercase};
use std::collections::HashSet;
use vstd::prelude::*;

verus! {

/// A letter of the Latin alphabet, capital or small.
pub open spec fn is_letter(c: char) -> bool {
    ('a' <= c && c <= 'z') || ('A' <= c && c <= 'Z')
}

/// A word of one or more Latin letters and nothing else.
pub open spec fn alphabetic(word: Seq<char>) -> bool {
    word.len() > 0 && forall|i: int| 0 <= i < word.len() ==> is_letter(#[trigger] word[i])
}

/// Tells whether `word` is made of Latin letters only, and of one at least.
pub fn is_alphabetic(word: &str) -> (r: bool)
    ensures
        r == alphabetic(word@),
{
    let n = word.unicode_len();
    if n == 0 {
        return false;
    }
    let mut i: usize = 0;
    while i < n
        invariant
            i <= n,
            n == word@.len(),
            forall|j: int| 0 <= j < i ==> is_letter(#[trigger] word@[j]),
        decreases n - i,
    {
        let c = word.get_char(i);
        if !(('a' <= c && c <= 'z') || ('A' <= c && c <= 'Z')) {
            return false;
        }
        i += 1;
    }
    true
}

/// The first character of the lowercase form of the first character of
/// `name`, where `name` has one and its lowercase form is not empty.
pub open spec fn prefix_of(name: Seq<char>) -> Option<char> {
    if name.len() > 0 && lowercase(name.take(1)).len() > 0 {
        Some(lowercase(name.take(1))[0])
    } else {
        None
    }
}

/// The prefix of `name`.
pub fn prefix(name: &str) -> (r: Option<char>)
    ensures
        r == prefix_of(name@),
{
    if name.unicode_len() == 0 {
        return None;
    }
    let head = to_lowercase(name.substring_char(0, 1));
    proof {
        assert(name@.subrange(0, 1) =~= name@.take(1));
    }
    if head.as_str().unicode_len() == 0 {
        return None;
    }
    Some(head.as_str().get_char(0))
}

/// The code points of the prefixes of the names that have one.
pub open spec fn prefixes_of(names: Seq<Seq<char>>) -> Set<u32>
    decreases names.len(),
{
    if names.len() == 0 {
        Set::empty()
    } else {
        match prefix_of(names.last()) {
            Some(c) => prefixes_of(names.drop_last()).insert(c as u32),
            None => prefixes_of(names.drop_last()),
        }
    }
}

/// The prefixes of `names`, as code points.
pub fn prefixes(names: &Vec<String>) -> (r: HashSet<u32>)
    ensures
        r@ == prefixes_of(texts(names@)),
{
    broadcast use vstd::std_specs::hash::group_hash_axioms;

    let ghost all = texts(names@);
    let mut out: HashSet<u32> = HashSet::new();
    let mut i: usize = 0;
    proof {
        assert(all.take(0) =~= Seq::<Seq<char>>::empty());
    }
    while i < names.len()
        invariant
            i <= names.len(),
            all == texts(names@),
            out@ == prefixes_of(all.take(i as int)),
        decreases names.len() - i,
    {
        proof {
            assert(all.take(i + 1).drop_last() =~= all.take(i as int));
            assert(all.take(i + 1).last() == names@[i as int]@);
        }
        match prefix(names[i].as_str()) {
            Some(c) => {
                out.insert(c as u32);
            },
            None => {},
        }
        i += 1;
    }
    proof {
        assert(all.take(names@.len() as int) =~= all);
    }
    out
}

/// The row's word is alphabetic and begins with none of `prefixes`.
pub open spec fn unprefixed(row: RowView, prefixes: Set<u32>) -> bool {
    alphabetic(row.word) && !prefixes.contains(row.word[0] as u32)
}

/// The indices of the rows whose word is alphabetic and begins with none of
/// `prefixes`, in rising order.
pub fn unprefixed_rows(store: &CardStore, prefixes: &HashSet<u32>) -> (r: Vec<usize>)
    ensures
        forall|k: int|
            0 <= k < r@.len() ==> (#[trigger] r@[k]) < store@.rows.len() && unprefixed(
                store@.rows[r@[k] as int],
                prefixes@,
            ),
        forall|a: int, b: int| 0 <= a < b < r@.len() ==> r@[a] < r@[b],
        forall|i: int|
            0 <= i < store@.rows.len() && unprefixed(#[trigger] store@.rows[i], prefixes@)
                ==> r@.contains(i as usize),
{
    broadcast use vstd::std_specs::hash::group_hash_axioms;

    let n = store.len();
    let mut out: Vec<usize> = Vec::new();
    let mut i: usize = 0;
    while i < n
        invariant
            i <= n,
            n == store@.rows.len(),
            forall|k: int|
                0 <= k < out@.len() ==> (#[trigger] out@[k]) < i && unprefixed(
                    store@.rows[out@[k] as int],
                    prefixes@,
                ),
            forall|a: int, b: int| 0 <= a < b < out@.len() ==> out@[a] < out@[b],
            forall|j: int|
                0 <= j < i && unprefixed(#[trigger] store@.rows[j], prefixes@) ==> out@.contains(
                    j as usize,
                ),
        decreases n - i,
    {
        let word = store.row(i).word.as_str();
        let fresh = if is_alphabetic(word) {
            let head = word.get_char(0) as u32;
            !prefixes.contains(&head)
        } else {
            false
        };
        if fresh {
            let ghost before = out@;
            out.push(i);
            assert forall|j: int|
                0 <= j < i + 1 && unprefixed(
                    #[trigger] store@.rows[j],
                    prefixes@,
                ) implies out@.contains(j as usize) by {
                if j < i {
                    let k = choose|k: int| 0 <= k < before.len() && before[k] == j as usize;
                    assert(out@[k] == j as usize);
                } else {
                    assert(out@[before.len() as int] == j as usize);
                }
            }
        }
        i += 1;
    }
    out
}

/// One stored word, drawn at random, among the alphabetic words that begin
/// with none of `prefixes`.
pub fn pick_unprefixed(store: &CardStore, prefixes: &HashSet<u32>) -> (r: Option<String>)
    ensures
        match r {
            Some(word) => exists|i: int|
                0 <= i < store@.rows.len() && unprefixed(#[trigger] store@.rows[i], prefixes@)
                    && word@ == store@.rows[i].word,
            None => forall|i: int|
                0 <= i < store@.rows.len() ==> !unprefixed(#[trigger] store@.rows[i], prefixes@),
        },
{
    let rows = unprefixed_rows(store, prefixes);
    if rows.len() == 0 {
        assert forall|i: int| 0 <= i < store@.rows.len() implies !unprefixed(
            #[trigger] store@.rows[i],
            prefixes@,
        ) by {
            if unprefixed(store@.rows[i], prefixes@) {
                assert(rows@.contains(i as usize));
            }
        }
        return None;
    }
    let pick = random_below(rows.len());
    let i = rows[pick];
    assert(unprefixed(store@.rows[i as int], prefixes@));
    Some(store.row(i).word.clone())
}

/// The name under which a word is put out: its lowercase form, and after it
/// a dot and the suffix where one is given.
pub open spec fn output_name(word: Seq<char>, suffix: Option<Seq<char>>) -> Seq<char> {
    match suffix {
        Some(s) => lowercase(word).push('.') + s,
        None => lowercase(word),
    }
}

/// The name under which `word` is put out.
pub fn name_for(word: &str, suffix: Option<&str>) -> (r: String)
    ensures
        r@ == output_name(
            word@,
            match suffix {
                Some(s) => Some(s@),
                None => None,
            },
        ),
{
    let mut out = to_lowercase(word);
    match suffix {
        Some(s) => {
            proof {
                reveal_strlit(".");
                assert("."@ =~= seq!['.']);
            }
            out.append(".");
            assert(out@ =~= lowercase(word@).push('.'));
            out.append(s);
        },
        None => {},
    }
    out
}

} // verus!
