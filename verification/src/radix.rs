//! Counting words with a trie over the letters.
use crate::ranking::{
    leader, lemma_leader_is_most_frequent, lemma_leader_push, lemma_occurrences_bound,
    lemma_occurrences_push, occurrences,
};
use crate::text::{
    admissible, ascii_len, is_letter, lemma_split_prefix_len, lemma_split_step,
    lemma_split_within_word, lemma_word_end, split, well_formed, word_end, words, SEPARATOR,
};
use crate::{PopularState, PopularWord, Tally};
use std::str::Chars;
use vstd::prelude::*;
use vstd::std_specs::iter::IteratorSpec;
use vstd::string::StrSliceExecFns;

verus! {

/// The number of letters, and so of children that a node can have.
const BRANCHES: usize = 26;

/// The child slot that belongs to a character.
spec fn slot(c: char) -> int {
    c as int - 'a' as int
}

/// Whether one of the words `ws` begins with `path`.
spec fn begins_a_word(ws: Seq<Seq<char>>, path: Seq<char>) -> bool {
    exists|k: int| 0 <= k < ws.len() && path.is_prefix_of(#[trigger] ws[k])
}

/// With one more word, the beginnings of words are those that there were
/// and those of the new word.
proof fn lemma_begins_push(ws: Seq<Seq<char>>, w: Seq<char>, path: Seq<char>)
    ensures
        begins_a_word(ws.push(w), path) <==> begins_a_word(ws, path) || path.is_prefix_of(w),
{
    let now = ws.push(w);
    if begins_a_word(ws, path) {
        let k = choose|k: int| 0 <= k < ws.len() && path.is_prefix_of(#[trigger] ws[k]);
        assert(path.is_prefix_of(now[k]));
    }
    if path.is_prefix_of(w) {
        assert(path.is_prefix_of(now[ws.len() as int]));
    }
    if begins_a_word(now, path) {
        let k = choose|k: int| 0 <= k < now.len() && path.is_prefix_of(#[trigger] now[k]);
        assert(k < ws.len() ==> path.is_prefix_of(ws[k]));
    }
}

/// A node of the trie. The path of letters from the root to a node spells
/// a word or the beginning of one; `count` says how often that word has been
/// counted.
struct Node {
    count: u32,
    nodes: Vec<Option<Box<Node>>>,
}

/// The child slot that belongs to a letter, counted from `a`.
fn index(c: char) -> (i: usize)
    requires
        is_letter(c),
    ensures
        i == slot(c),
        i < BRANCHES,
{
    (c as u32 - 'a' as u32) as usize
}

/// A node that has no child and has counted nothing.
fn mknode() -> (node: Box<Node>)
    ensures
        node.wf(),
        forall|path: Seq<char>| node.count_at(path) == 0,
        forall|path: Seq<char>| node.has_node(path) <==> path.len() == 0,
{
    let mut nodes: Vec<Option<Box<Node>>> = Vec::new();
    while nodes.len() < BRANCHES
        invariant
            nodes@.len() <= BRANCHES,
            forall|j: int| 0 <= j < nodes@.len() ==> nodes@[j] is None,
        decreases BRANCHES - nodes@.len(),
    {
        nodes.push(None);
    }
    let node = Box::new(Node { count: 0, nodes });
    node
}

impl Node {
    /// Every node of the tree has a slot for each letter.
    spec fn wf(&self) -> bool
        decreases self,
    {
        &&& self.nodes@.len() == BRANCHES
        &&& forall|i: int|
            0 <= i < self.nodes@.len() ==> match #[trigger] self.nodes@[i] {
                Some(child) => child.wf(),
                None => true,
            }
    }

    /// The count kept for the word `path`: that of the node that `path`
    /// leads to from this one, and zero where there is no such node.
    spec fn count_at(&self, path: Seq<char>) -> nat
        decreases path.len(),
    {
        if path.len() == 0 {
            self.count as nat
        } else if 0 <= slot(path[0]) < self.nodes@.len() {
            match self.nodes@[slot(path[0])] {
                Some(child) => child.count_at(path.drop_first()),
                None => 0,
            }
        } else {
            0
        }
    }

    /// Whether `path` leads from this node to a node of the tree.
    spec fn has_node(&self, path: Seq<char>) -> bool
        decreases path.len(),
    {
        if path.len() == 0 {
            true
        } else if 0 <= slot(path[0]) < self.nodes@.len() {
            match self.nodes@[slot(path[0])] {
                Some(child) => child.has_node(path.drop_first()),
                None => false,
            }
        } else {
            false
        }
    }

    /// `self` has the nodes of `before`, and those on the way to the end of
    /// `word`.
    spec fn grown_along(&self, before: &Node, word: Seq<char>) -> bool {
        forall|path: Seq<char>|
            #![trigger self.has_node(path)]
            self.has_node(path) <==> before.has_node(path) || path.is_prefix_of(word)
    }

    /// `self` keeps the counts of `before`, with one more for `word`.
    spec fn counts_one_more(&self, before: &Node, word: Seq<char>) -> bool {
        forall|path: Seq<char>|
            self.count_at(path) == before.count_at(path) + if path == word {
                1nat
            } else {
                0nat
            }
    }

    /// Makes sure that the child in slot `i` exists. No count changes, and
    /// no other node is made.
    fn insert(&mut self, i: usize)
        requires
            old(self).wf(),
            i < BRANCHES,
        ensures
            final(self).wf(),
            final(self).nodes@[i as int] is Some,
            final(self).count == old(self).count,
            forall|path: Seq<char>| final(self).count_at(path) == old(self).count_at(path),
            forall|path: Seq<char>|
                final(self).has_node(path) <==> old(self).has_node(path) || (path.len() == 1
                    && slot(path[0]) == i),
    {
        match self.nodes[i] {
            None => {
                self.nodes[i] = Some(mknode());
            },
            _ => (),
        }
        proof {
            assert forall|path: Seq<char>| self.count_at(path) == old(self).count_at(path) by {
                if path.len() > 0 && slot(path[0]) == i && old(self).nodes@[i as int] is None {
                    assert(self.nodes@[i as int]->0.count_at(path.drop_first()) == 0);
                }
            }
            assert forall|path: Seq<char>|
                self.has_node(path) <==> old(self).has_node(path) || (path.len() == 1 && slot(
                    path[0],
                ) == i) by {
                if path.len() > 0 && slot(path[0]) == i {
                    let below = path.drop_first();
                    if old(self).nodes@[i as int] is None {
                        assert(self.nodes@[i as int]->0.has_node(below) <==> below.len() == 0);
                    } else if path.len() == 1 {
                        assert(old(self).nodes@[i as int]->0.has_node(below));
                    }
                }
            }
        }
    }

    /// Counts one more occurrence of the word that ends at this node.
    fn increment(&mut self)
        requires
            old(self).count < u32::MAX,
        ensures
            final(self).count == old(self).count + 1,
            final(self).nodes == old(self).nodes,
    {
        self.count += 1;
    }
}

/// The place that the scan of a text has reached: the characters before
/// `i` are consumed, and the word being read starts at `start`.
struct RadixState<'a> {
    sentence: &'a str,
    tail: Chars<'a>,
    i: usize,
    start: usize,
}

impl<'a> RadixState<'a> {
    /// The text is well formed and not longer than a `usize` can say, and
    /// `start` is where a word starts.
    spec fn wf(&self) -> bool {
        let text = self.sentence@;
        &&& well_formed(text)
        &&& text.len() <= usize::MAX
        &&& self.start <= self.i <= text.len()
        &&& self.start == 0 || text[self.start - 1] == SEPARATOR
        &&& forall|j: int| self.start <= j < self.i ==> text[j] != SEPARATOR
    }

    /// The character at `i`, or none at the end of the text.
    spec fn current(&self) -> Option<char> {
        if self.i < self.sentence@.len() {
            Some(self.sentence@[self.i as int])
        } else {
            None
        }
    }

    /// What is left of the word being read, from `i` on.
    spec fn rest(&self) -> Seq<char> {
        self.sentence@.subrange(self.i as int, word_end(self.sentence@, self.i as int))
    }

    /// Reads the word being read to its end, walking down the trie from
    /// `node` letter by letter, and counts it at the node where it ends.
    /// `char` is the character at `i`, already taken from `tail`. Returns
    /// the word with its new count. The scan then stands behind the separator
    /// that ended the word, or at the end of the text, with `tail` holding
    /// the characters from there on.
    fn insert(&mut self, char: Option<char>, node: &mut Node) -> (word: PopularWord<'a>)
        requires
            old(self).wf(),
            char == old(self).current(),
            old(self).tail.remaining() == if old(self).i < old(self).sentence@.len() {
                old(self).sentence@.skip(old(self).i + 1)
            } else {
                Seq::empty()
            },
            old(node).wf(),
            old(node).count_at(old(self).rest()) < u32::MAX,
        ensures
            final(self).sentence == old(self).sentence,
            final(self).wf(),
            final(self).tail.remaining() == final(self).sentence@.skip(final(self).i as int),
            ({
                let text = old(self).sentence@;
                let end = word_end(text, old(self).i as int);
                &&& word@ == Tally {
                    word: Some(text.subrange(old(self).start as int, end)),
                    count: old(node).count_at(old(self).rest()) + 1,
                }
                &&& end < text.len() ==> final(self).i == end + 1 && final(self).start == end + 1
                &&& end == text.len() ==> final(self).i == end && final(self).start == old(
                    self,
                ).start
            }),
            final(node).wf(),
            final(node).counts_one_more(old(node), old(self).rest()),
            final(node).grown_along(old(node), old(self).rest()),
        decreases old(self).sentence@.len() - old(self).i,
    {
        broadcast use vstd::string::group_string_axioms;

        let ghost text = self.sentence@;
        let ghost rest = self.rest();
        proof {
            lemma_word_end(text, self.i as int);
        }
        match char {
            Some(c) => {
                if SEPARATOR == c {
                    node.increment();
                    let word = self.sentence.substring_ascii(self.start, self.i);
                    self.start = self.i + 1;
                    self.i += 1;
                    assert(forall|path: Seq<char>| path.is_prefix_of(rest) <==> path.len() == 0);
                    PopularWord { word: Some(word), count: node.count }
                } else {
                    self.i += 1;
                    let i = index(c);
                    node.insert(i);
                    let ghost below = self.rest();
                    let ghost mid = *node;
                    proof {
                        assert(rest =~= seq![c] + below);
                        assert(rest.drop_first() =~= below);
                    }
                    let word = match &mut node.nodes[i] {
                        Some(next) => {
                            let c = self.tail.next();
                            proof {
                                if self.i < text.len() {
                                    assert(text.skip(self.i as int).drop_first() =~= text.skip(
                                        self.i + 1,
                                    ));
                                } else {
                                    assert(text.skip(self.i as int) =~= Seq::<char>::empty());
                                }
                            }
                            self.insert(c, next)
                        },
                        None => vstd::pervasive::unreached(),
                    };
                    proof {
                        assert forall|path: Seq<char>|
                            node.count_at(path) == old(node).count_at(path) + if path == rest {
                                1nat
                            } else {
                                0nat
                            } by {
                            if path.len() > 0 && slot(path[0]) == i {
                                assert(path =~= seq![c] + path.drop_first());
                                assert(node.count_at(path) == node.nodes@[i as int]->0.count_at(
                                    path.drop_first(),
                                ));
                            }
                        }
                        assert forall|path: Seq<char>|
                            #![trigger node.has_node(path)]
                            node.has_node(path) <==> old(node).has_node(path)
                                || path.is_prefix_of(rest) by {
                            if path.len() > 0 {
                                let tail = path.drop_first();
                                assert(path =~= seq![path[0]] + tail);
                                if slot(path[0]) == i {
                                    assert(node.has_node(path) == node.nodes@[i as int]->0.has_node(
                                        tail,
                                    ));
                                    assert(tail.is_prefix_of(below) <==> path.is_prefix_of(rest));
                                } else {
                                    assert(!path.is_prefix_of(rest));
                                }
                            }
                        }
                    }
                    word
                }
            },
            None => {
                node.increment();
                let word = self.sentence.substring_ascii(self.start, self.i);
                assert(forall|path: Seq<char>| path.is_prefix_of(rest) <==> path.len() == 0);
                PopularWord { word: Some(word), count: node.count }
            },
        }
    }
}

/// A trie together with the scan that fills it.
struct WordRadix<'a> {
    root: Node,
    state: RadixState<'a>,
}

impl<'a> WordRadix<'a> {
    /// The words that have been counted so far, in their order.
    spec fn done(&self) -> Seq<Seq<char>> {
        let pieces = split(self.state.sentence@.take(self.state.i as int));
        if self.state.start < self.state.i {
            pieces
        } else {
            pieces.drop_last()
        }
    }

    /// The scan stands at the start of a word or at the end of the text. The
    /// trie holds for each word the number of its occurrences among the
    /// words counted so far, and it has a node for just the beginnings of
    /// those words.
    spec fn wf(&self) -> bool {
        &&& self.state.wf()
        &&& self.root.wf()
        &&& self.state.i == self.state.start || self.state.i == self.state.sentence@.len()
        &&& words(self.state.sentence@).len() <= u32::MAX
        &&& forall|w: Seq<char>| self.root.count_at(w) == occurrences(self.done(), w)
        &&& forall|path: Seq<char>|
            #![trigger self.root.has_node(path)]
            self.root.has_node(path) <==> path.len() == 0 || begins_a_word(self.done(), path)
    }

    /// Counts the next word of the text and returns it with the number of
    /// its occurrences so far; returns `None` once every word is counted.
    fn insert(&mut self) -> (next: Option<PopularWord<'a>>)
        requires
            old(self).wf(),
            old(self).state.tail.remaining() == old(self).state.sentence@.skip(
                old(self).state.i as int,
            ),
        ensures
            final(self).wf(),
            final(self).state.sentence == old(self).state.sentence,
            final(self).state.tail.remaining() == final(self).state.sentence@.skip(
                final(self).state.i as int,
            ),
            match next {
                Some(word) => {
                    &&& word.word is Some
                    &&& final(self).done() == old(self).done().push(word@.word->0)
                    &&& word@.count == occurrences(final(self).done(), word@.word->0)
                    &&& final(self).state.i > old(self).state.i
                },
                None => {
                    &&& old(self).done() == words(old(self).state.sentence@)
                    &&& final(self).done() == old(self).done()
                },
            },
    {
        broadcast use vstd::string::group_string_axioms;

        let ghost text = self.state.sentence@;
        let ghost start = self.state.start as int;
        let ghost done = self.done();
        let oc = self.state.tail.next();
        if oc.is_some() {
            proof {
                let end = word_end(text, start);
                let word = text.subrange(start, end);
                assert(text.skip(start).drop_first() =~= text.skip(start + 1));
                lemma_word_end(text, start);
                lemma_split_prefix_len(text, start);
                lemma_occurrences_bound(done, word);
            }
            let word = self.state.insert(oc, &mut self.root);
            proof {
                let end = word_end(text, start);
                let w = text.subrange(start, end);
                lemma_split_within_word(text, start, end);
                if end < text.len() {
                    lemma_split_step(text, end);
                }
                assert(self.done() == done.push(w));
                assert forall|p: Seq<char>| self.root.count_at(p) == occurrences(
                    self.done(),
                    p,
                ) by {
                    lemma_occurrences_push(done, w, p);
                }
                assert forall|p: Seq<char>|
                    self.root.has_node(p) <==> p.len() == 0 || begins_a_word(self.done(), p) by {
                    lemma_begins_push(done, w, p);
                }
            }
            Some(word)
        } else {
            proof {
                assert(text.take(text.len() as int) =~= text);
            }
            None
        }
    }
}

/// The most frequent word of `sentence` with the number of its occurrences;
/// among several words of the highest count, the one that reached that
/// count first. For the empty text it is no word, with count zero.
pub fn wpop(sentence: &str) -> (popular: PopularWord)
    requires
        admissible(sentence@),
    ensures
        popular@ == leader(words(sentence@)),
        popular.word is None <==> sentence@.len() == 0,
        popular.word matches Some(word) ==> popular.count == occurrences(
            words(sentence@),
            word@,
        ),
        forall|w: Seq<char>| occurrences(words(sentence@), w) <= popular.count,
{
    broadcast use vstd::string::group_string_axioms;

    proof {
        lemma_leader_is_most_frequent(words(sentence@));
    }
    // The positions of the scan are counted in `usize`: the text has one
    // byte for each character, so its length fits.
    ascii_len(sentence);
    let mut radix = WordRadix {
        root: *mknode(),
        state: RadixState { sentence: sentence, tail: sentence.chars(), i: 0, start: 0 },
    };
    let mut state = PopularState::new();
    loop
        invariant
            radix.wf(),
            radix.state.sentence == sentence,
            radix.state.tail.remaining() == sentence@.skip(radix.state.i as int),
            state.leader()@ == leader(radix.done()),
        ensures
            state.leader()@ == leader(words(sentence@)),
        decreases sentence@.len() - radix.state.i,
    {
        let ghost done = radix.done();
        match radix.insert() {
            Some(word) => {
                proof {
                    lemma_leader_push(done, word@.word->0);
                }
                state.update(word);
            },
            None => {
                break ;
            },
        }
    }
    state.first()
}

} // verus!
