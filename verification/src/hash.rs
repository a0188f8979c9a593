//! Counting words with a map from words to counts.
use crate::ranking::{
    leader, lemma_leader_is_most_frequent, lemma_leader_push, lemma_occurrences_bound,
    occurrences,
};
use crate::text::{
    admissible, ascii_len, lemma_split_prefix_len, lemma_split_step, split, words, SEPARATOR,
};
use crate::{PopularState, PopularWord};
use vstd::hash_map::StringHashMap;
use vstd::prelude::*;
use vstd::std_specs::iter::IteratorSpec;
use vstd::string::StrSliceExecFns;

verus! {

/// The count that `map` keeps for `word`: zero for a word it does not hold.
spec fn count_in(map: Map<Seq<char>, u32>, word: Seq<char>) -> nat {
    if map.contains_key(word) {
        map[word] as nat
    } else {
        0
    }
}

/// Counts one more occurrence of `word` in `map`, and returns its new
/// count. The counts of all other words stay as they are.
fn count_word(map: &mut StringHashMap<u32>, word: &str) -> (count: u32)
    requires
        count_in(old(map)@, word@) < u32::MAX,
    ensures
        count == count_in(old(map)@, word@) + 1,
        final(map)@ == old(map)@.insert(word@, count),
{
    let count = match map.get(word) {
        Some(seen) => *seen + 1,
        None => 1,
    };
    map.insert(word.to_owned(), count);
    count
}

/// The most frequent word of `sentence` with the number of its occurrences;
/// among several words of the highest count, the one that reached that
/// count first. For the empty text it is no word, with count zero.
pub fn wpop(sentence: &str) -> (popular: PopularWord)
    requires
        admissible(sentence@),
    ensures
        popular@ == leader(words(sentence@)),
        popular.word is None <==> sentence@.len() == 0,
        popular.word matches Some(word) ==> popular.count == occurrences(
            words(sentence@),
            word@,
        ),
        forall|w: Seq<char>| occurrences(words(sentence@), w) <= popular.count,
{
    broadcast use vstd::string::group_string_axioms;

    proof {
        lemma_leader_is_most_frequent(words(sentence@));
    }
    let mut state = PopularState::new();
    if sentence.is_empty() {
        return state.first();
    }
    let ghost text = sentence@;
    let len = ascii_len(sentence);
    let mut map: StringHashMap<u32> = StringHashMap::new();
    let mut start: usize = 0;
    let mut i: usize = 0;
    let mut tail = sentence.chars();
    loop
        invariant
            sentence@ == text,
            sentence.is_ascii(),
            text.len() <= usize::MAX,
            split(text).len() <= u32::MAX,
            start <= i <= text.len(),
            tail.remaining() == text.skip(i as int),
            split(text.take(i as int)).len() >= 1,
            split(text.take(i as int)).last() == text.subrange(start as int, i as int),
            forall|w: Seq<char>|
                count_in(map@, w) == occurrences(split(text.take(i as int)).drop_last(), w),
            state.leader()@ == leader(split(text.take(i as int)).drop_last()),
        ensures
            i == text.len(),
            start <= i,
            split(text).len() >= 1,
            split(text).last() == text.subrange(start as int, i as int),
            forall|w: Seq<char>| count_in(map@, w) == occurrences(split(text).drop_last(), w),
            state.leader()@ == leader(split(text).drop_last()),
        decreases text.len() - i,
    {
        let ghost pieces = split(text.take(i as int));
        let ghost done = pieces.drop_last();
        match tail.next() {
            Some(char) => {
                proof {
                    lemma_split_step(text, i as int);
                    lemma_split_prefix_len(text, i as int);
                }
                if char == SEPARATOR {
                    let word = sentence.substring_ascii(start, i);
                    proof {
                        lemma_occurrences_bound(done, word@);
                        assert(pieces =~= done.push(word@));
                        assert(split(text.take(i + 1)).drop_last() =~= pieces);
                    }
                    let ghost before = map@;
                    let count = count_word(&mut map, word);
                    proof {
                        assert forall|w: Seq<char>|
                            count_in(map@, w) == occurrences(done.push(word@), w) by {
                            assert(count_in(before, w) == occurrences(done, w));
                        }
                        lemma_leader_push(done, word@);
                    }
                    let current = PopularWord { word: Some(word), count: count };
                    state.update(current);
                    start = i + 1;
                } else {
                    proof {
                        assert(split(text.take(i + 1)).drop_last() =~= done);
                    }
                }
                i += 1;
            },
            None => {
                proof {
                    assert(text.take(i as int) =~= text);
                }
                break ;
            },
        }
    }
    let ghost done = split(text).drop_last();
    let word = sentence.substring_ascii(start, len);
    proof {
        lemma_occurrences_bound(done, word@);
        assert(split(text) =~= done.push(word@));
        lemma_leader_push(done, word@);
    }
    let count = count_word(&mut map, word);
    let current = PopularWord { word: Some(word), count: count };
    state.update(current);
    state.first()
}

} // verus!
