//! The table of related words: for a word, a comma-separated list.

use crate::text::texts;
use vstd::prelude::*;

verus! {

/// One line of the table.
pub struct RelatedEntry {
    pub word: String,
    pub related_words: String,
}

/// The pieces of `text` between its commas: a comma closes a piece and opens
/// the next, any other character extends the last piece.
pub open spec fn split_commas(text: Seq<char>) -> Seq<Seq<char>>
    decreases text.len(),
{
    if text.len() == 0 {
        seq![Seq::<char>::empty()]
    } else {
        let before = split_commas(text.drop_last());
        if text.last() == ',' {
            before.push(Seq::<char>::empty())
        } else {
            before.drop_last().push(before.last().push(text.last()))
        }
    }
}

/// Entry `i` exists and is the first one for `word`.
pub open spec fn first_for(entries: Seq<RelatedEntry>, i: int, word: Seq<char>) -> bool {
    &&& 0 <= i < entries.len()
    &&& entries[i].word@ == word
    &&& forall|j: int| 0 <= j < i ==> (#[trigger] entries[j]).word@ != word
}

/// The words that the table relates to `word`: the pieces of the list of the
/// first entry for it, or nothing where the table has no entry.
pub open spec fn related_to(entries: Seq<RelatedEntry>, word: Seq<char>) -> Seq<Seq<char>> {
    if exists|i: int| first_for(entries, i, word) {
        split_commas(entries[choose|i: int| first_for(entries, i, word)].related_words@)
    } else {
        Seq::empty()
    }
}

/// Cuts `text` at its commas.
pub fn split_at_commas(text: &str) -> (r: Vec<String>)
    ensures
        texts(r@) == split_commas(text@),
{
    let n = text.unicode_len();
    let mut out: Vec<String> = Vec::new();
    let mut start: usize = 0;
    let mut i: usize = 0;
    proof {
        assert(text@.take(0) =~= Seq::<char>::empty());
        assert(text@.subrange(0, 0) =~= Seq::<char>::empty());
        assert(texts(out@).push(text@.subrange(0, 0)) =~= seq![Seq::<char>::empty()]);
    }
    while i < n
        invariant
            start <= i <= n,
            n == text@.len(),
            split_commas(text@.take(i as int)) == texts(out@).push(
                text@.subrange(start as int, i as int),
            ),
        decreases n - i,
    {
        let ghost before = split_commas(text@.take(i as int));
        let ghost piece = text@.subrange(start as int, i as int);
        proof {
            assert(text@.take(i + 1).drop_last() =~= text@.take(i as int));
            assert(text@.take(i + 1).last() == text@[i as int]);
            assert(before.last() == piece);
            assert(before.drop_last() =~= texts(out@));
        }
        if text.get_char(i) == ',' {
            let ghost kept = texts(out@);
            out.push(String::from_str(text.substring_char(start, i)));
            start = i + 1;
            proof {
                assert(texts(out@) =~= kept.push(piece));
                assert(text@.subrange(start as int, i + 1) =~= Seq::<char>::empty());
            }
        } else {
            proof {
                assert(text@.subrange(start as int, i + 1) =~= piece.push(text@[i as int]));
            }
        }
        i += 1;
    }
    let ghost kept = texts(out@);
    out.push(String::from_str(text.substring_char(start, n)));
    proof {
        assert(text@.take(n as int) =~= text@);
        assert(texts(out@) =~= kept.push(text@.subrange(start as int, n as int)));
    }
    out
}

/// Looks `word` up in the table and cuts its list at the commas.
pub fn related_words(entries: &Vec<RelatedEntry>, word: &str) -> (r: Option<Vec<String>>)
    ensures
        match r {
            Some(words) => (exists|i: int| first_for(entries@, i, word@)) && texts(words@)
                == related_to(entries@, word@),
            None => !(exists|i: int| first_for(entries@, i, word@)),
        },
{
    let key = String::from_str(word);
    let mut i: usize = 0;
    while i < entries.len()
        invariant
            i <= entries.len(),
            key@ == word@,
            forall|j: int| 0 <= j < i ==> (#[trigger] entries@[j]).word@ != word@,
        decreases entries.len() - i,
    {
        if entries[i].word == key {
            assert(first_for(entries@, i as int, word@));
            proof {
                let c = choose|c: int| first_for(entries@, c, word@);
                assert(c == i) by {
                    if c < i {
                        assert(entries@[c].word@ != word@);
                    } else if i < c {
                        assert(entries@[i as int].word@ != word@);
                    }
                }
            }
            return Some(split_at_commas(entries[i].related_words.as_str()));
        }
        i += 1;
    }
    assert forall|c: int| !first_for(entries@, c, word@) by {
        if 0 <= c < entries@.len() {
            assert(entries@[c].word@ != word@);
        }
    }
    None
}

} // verus!
