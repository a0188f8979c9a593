//! Finding the most frequent word of a text, in two ways: with a trie over
//! the letters, and with a map from words to counts.
use crate::ranking::leader;
use crate::text::{admissible, words};
use vstd::prelude::*;

pub mod hash;
pub mod radix;
pub mod ranking;
pub mod text;

verus! {

/// What a `PopularWord` stands for: the characters of a word, if there is
/// one, and a number of occurrences.
pub struct Tally {
    pub word: Option<Seq<char>>,
    pub count: nat,
}

/// A word of a text, borrowed from that text, with the number of times it
/// has been seen. Without a word it is the value a ranking starts from.
#[derive(Copy, Clone, Debug)]
pub struct PopularWord<'a> {
    pub word: Option<&'a str>,
    pub count: u32,
}

impl<'a> View for PopularWord<'a> {
    type V = Tally;

    open spec fn view(&self) -> Tally {
        Tally {
            word: match self.word {
                Some(w) => Some(w@),
                None => None,
            },
            count: self.count as nat,
        }
    }
}

/// The leader and the runner-up among the words seen so far. The leader's
/// count is never below the runner-up's.
pub struct PopularState<'a> {
    first: PopularWord<'a>,
    second: PopularWord<'a>,
}

impl<'a> PopularState<'a> {
    /// The leader's count is at least the runner-up's.
    #[verifier::type_invariant]
    spec fn ranked(&self) -> bool {
        self.first.count >= self.second.count
    }

    /// The current leader.
    pub closed spec fn leader(&self) -> PopularWord<'a> {
        self.first
    }

    /// The current runner-up.
    pub closed spec fn runner_up(&self) -> PopularWord<'a> {
        self.second
    }

    /// A ranking that has seen no word yet.
    pub fn new() -> (state: Self)
        ensures
            state.leader() == (PopularWord { word: None, count: 0 }),
            state.runner_up() == (PopularWord { word: None, count: 0 }),
    {
        PopularState {
            first: PopularWord { word: None, count: 0 },
            second: PopularWord { word: None, count: 0 },
        }
    }

    /// Takes note of `current`. A count above the leader's makes `current`
    /// the leader and the old leader the runner-up; otherwise a count above
    /// the runner-up's makes it the runner-up; otherwise nothing changes. An
    /// equal count displaces nobody.
    pub fn update(&mut self, current: PopularWord<'a>)
        ensures
            final(self).leader() == if current.count > old(self).leader().count {
                current
            } else {
                old(self).leader()
            },
            final(self).runner_up() == if current.count > old(self).leader().count {
                old(self).leader()
            } else if current.count > old(self).runner_up().count {
                current
            } else {
                old(self).runner_up()
            },
            current.count <= old(self).leader().count ==> final(self).leader() == old(
                self,
            ).leader(),
            final(self).leader().count >= final(self).runner_up().count,
    {
        proof {
            use_type_invariant(&*self);
        }
        if current.count > self.first.count {
            self.second = self.first;
            self.first = current;
        } else if current.count > self.second.count {
            self.second = current;
        }
    }

    /// The current leader.
    #[verifier::when_used_as_spec(leader)]
    pub fn first(&self) -> (word: PopularWord<'a>)
        ensures
            word == self.leader(),
    {
        self.first
    }

    /// The current runner-up.
    #[verifier::when_used_as_spec(runner_up)]
    pub fn second(&self) -> (word: PopularWord<'a>)
        ensures
            word == self.runner_up(),
    {
        self.second
    }
}

/// The two counters agree: what `radix::wpop` and `hash::wpop` return for
/// one admissible text stands for the same word with the same count.
pub proof fn lemma_counters_agree(text: Seq<char>, by_trie: PopularWord, by_map: PopularWord)
    requires
        admissible(text),
        by_trie@ == leader(words(text)),
        by_map@ == leader(words(text)),
    ensures
        by_trie@.word == by_map@.word,
        by_trie.count == by_map.count,
{
}

/// Counting is repeatable: a result depends on nothing but the characters
/// of the text, so that counting the same text again gives the same word
/// with the same count.
pub proof fn lemma_recount_is_same(
    text: Seq<char>,
    again: Seq<char>,
    once: PopularWord,
    twice: PopularWord,
)
    requires
        admissible(text),
        again == text,
        once@ == leader(words(text)),
        twice@ == leader(words(again)),
    ensures
        once@.word == twice@.word,
        once.count == twice.count,
{
}

} // verus!
