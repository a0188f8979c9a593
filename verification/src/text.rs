//! The shape of the texts that the counters accept, and the words they are
//! made of.
use vstd::prelude::*;
use vstd::std_specs::iter::IteratorSpec;

verus! {

/// The character that separates two words.
pub const SEPARATOR: char = ' ';

/// The letters that a word may be made of.
pub open spec fn is_letter(c: char) -> bool {
    'a' <= c <= 'z'
}

/// A text is well formed when every character is a lower-case letter, or a
/// separator that stands between two letters: words are not empty, and the
/// text neither starts nor ends with a separator.
pub open spec fn well_formed(text: Seq<char>) -> bool {
    forall|i: int|
        0 <= i < text.len() ==> if #[trigger] text[i] == SEPARATOR {
            0 < i < text.len() - 1 && is_letter(text[i - 1]) && is_letter(text[i + 1])
        } else {
            is_letter(text[i])
        }
}

/// The pieces that `text` falls into when it is cut at every separator. A
/// text without a separator is one piece; the empty text is one empty piece.
pub open spec fn split(text: Seq<char>) -> Seq<Seq<char>>
    decreases text.len(),
{
    if text.len() == 0 {
        seq![Seq::empty()]
    } else {
        let before = split(text.drop_last());
        if text.last() == SEPARATOR {
            before.push(Seq::empty())
        } else {
            before.drop_last().push(before.last().push(text.last()))
        }
    }
}

/// The words of a text, in the order in which they stand. The empty text
/// has no word.
pub open spec fn words(text: Seq<char>) -> Seq<Seq<char>> {
    if text.len() == 0 {
        Seq::empty()
    } else {
        split(text)
    }
}

/// A text is admissible when it is well formed and the number of its words
/// fits the counters.
pub open spec fn admissible(text: Seq<char>) -> bool {
    well_formed(text) && words(text).len() <= u32::MAX
}

/// Cutting always leaves at least one piece.
pub proof fn lemma_split_nonempty(text: Seq<char>)
    ensures
        split(text).len() >= 1,
{
}

/// What one more character does to the pieces of a prefix: a separator
/// opens a new, empty piece, and any other character goes to the end of the
/// last piece.
pub proof fn lemma_split_step(text: Seq<char>, i: int)
    requires
        0 <= i < text.len(),
    ensures
        split(text.take(i)).len() >= 1,
        text[i] == SEPARATOR ==> split(text.take(i + 1)) == split(text.take(i)).push(Seq::empty()),
        text[i] != SEPARATOR ==> split(text.take(i + 1)) == split(text.take(i)).drop_last().push(
            split(text.take(i)).last().push(text[i]),
        ),
{
    assert(text.take(i + 1).drop_last() =~= text.take(i));
}

/// A prefix has at most as many pieces as the whole text.
pub proof fn lemma_split_prefix_len(text: Seq<char>, i: int)
    requires
        0 <= i <= text.len(),
    ensures
        1 <= split(text.take(i)).len() <= split(text).len(),
    decreases text.len() - i,
{
    if i == text.len() {
        assert(text.take(i) =~= text);
    } else {
        lemma_split_step(text, i);
        lemma_split_prefix_len(text, i + 1);
    }
}

/// Where the word that holds position `i` ends: the position of the first
/// separator at or after `i`, or the end of the text.
pub open spec fn word_end(text: Seq<char>, i: int) -> int
    decreases text.len() - i,
{
    if 0 <= i < text.len() && text[i] != SEPARATOR {
        word_end(text, i + 1)
    } else {
        i
    }
}

/// The end of a word lies in the text, at a separator or at the end of the
/// text, and no separator stands before it in the word.
pub proof fn lemma_word_end(text: Seq<char>, i: int)
    requires
        0 <= i <= text.len(),
    ensures
        i <= word_end(text, i) <= text.len(),
        word_end(text, i) < text.len() ==> text[word_end(text, i)] == SEPARATOR,
        forall|j: int| i <= j < word_end(text, i) ==> text[j] != SEPARATOR,
    decreases text.len() - i,
{
    if i < text.len() && text[i] != SEPARATOR {
        lemma_word_end(text, i + 1);
    }
}

/// The characters from `from` up to `to` are the end of the last piece of
/// the prefix that ends at `to`, when none of them is a separator.
pub proof fn lemma_split_within_word(text: Seq<char>, from: int, to: int)
    requires
        0 <= from <= to <= text.len(),
        forall|j: int| from <= j < to ==> text[j] != SEPARATOR,
    ensures
        split(text.take(from)).len() >= 1,
        split(text.take(to)) == split(text.take(from)).drop_last().push(
            split(text.take(from)).last() + text.subrange(from, to),
        ),
    decreases to - from,
{
    if from < to {
        lemma_split_within_word(text, from, to - 1);
        lemma_split_step(text, to - 1);
        assert(split(text.take(to - 1)).last().push(text[to - 1]) =~= split(
            text.take(from),
        ).last() + text.subrange(from, to));
    }
}

/// In a well-formed text every character is an ASCII character.
pub proof fn lemma_well_formed_is_ascii(text: Seq<char>)
    requires
        well_formed(text),
    ensures
        vstd::utf8::is_ascii_chars(text),
{
    assert forall|i: int| 0 <= i < text.len() implies '\0' <= #[trigger] text[i] <= '\u{7f}' by {
        assert(text[i] == SEPARATOR || is_letter(text[i]));
    }
}

/// The pieces joined again, with one separator between neighbours.
pub open spec fn join(pieces: Seq<Seq<char>>) -> Seq<char>
    decreases pieces.len(),
{
    if pieces.len() == 0 {
        Seq::empty()
    } else if pieces.len() == 1 {
        pieces[0]
    } else {
        join(pieces.drop_last()).push(SEPARATOR) + pieces.last()
    }
}

/// Cutting loses nothing: the pieces of a text, joined again, are the text.
pub proof fn lemma_join_split(text: Seq<char>)
    ensures
        join(split(text)) == text,
    decreases text.len(),
{
    if text.len() > 0 {
        let before = split(text.drop_last());
        lemma_join_split(text.drop_last());
        if text.last() == SEPARATOR {
            assert(before.push(Seq::empty()).drop_last() =~= before);
        } else {
            let grown = before.last().push(text.last());
            let after = before.drop_last().push(grown);
            if before.len() > 1 {
                assert(after.drop_last() =~= before.drop_last());
                assert(join(before.drop_last()).push(SEPARATOR) + grown =~= (join(
                    before.drop_last(),
                ).push(SEPARATOR) + before.last()).push(text.last()));
            }
        }
    }
}

/// Whether no piece holds a separator.
pub open spec fn separator_free(pieces: Seq<Seq<char>>) -> bool {
    forall|k: int, j: int|
        0 <= k < pieces.len() && 0 <= j < pieces[k].len() ==> #[trigger] pieces[k][j]
            != SEPARATOR
}

/// No piece of a text holds a separator.
pub proof fn lemma_split_pieces(text: Seq<char>)
    ensures
        separator_free(split(text)),
    decreases text.len(),
{
    if text.len() > 0 {
        lemma_split_pieces(text.drop_last());
    }
}

/// There is one way only to cut a text at its separators: pieces without a
/// separator that give the text when joined are the pieces of the text.
pub proof fn lemma_split_is_unique(text: Seq<char>, pieces: Seq<Seq<char>>)
    requires
        pieces.len() >= 1,
        separator_free(pieces),
        join(pieces) == text,
    ensures
        pieces == split(text),
    decreases text.len(),
{
    let init = pieces.drop_last();
    let last = pieces.last();
    if text.len() == 0 {
        // More than one piece would leave a separator in the text.
        assert(pieces[0] =~= Seq::<char>::empty());
    } else if pieces.len() == 1 {
        // The one piece is the text, and the text without its last
        // character is one piece too.
        let shorter = seq![text.drop_last()];
        assert(separator_free(shorter));
        lemma_split_is_unique(text.drop_last(), shorter);
        assert(text.drop_last().push(text.last()) =~= text);
    } else if text.last() == SEPARATOR {
        // The last piece is empty, and the others are the pieces of the
        // text before its last separator.
        assert(last.len() == 0);
        assert(separator_free(init));
        assert(join(init) =~= text.drop_last());
        lemma_split_is_unique(text.drop_last(), init);
        assert(last =~= Seq::<char>::empty());
    } else {
        // The last piece ends with the last character of the text.
        let shorter = init.push(last.drop_last());
        assert(shorter.drop_last() =~= init);
        assert(separator_free(shorter));
        assert(join(shorter) =~= text.drop_last());
        lemma_split_is_unique(text.drop_last(), shorter);
        assert(last.drop_last().push(text.last()) =~= last);
    }
}

/// The words of a well-formed text are not empty and made of letters.
pub proof fn lemma_words_of_well_formed(text: Seq<char>)
    requires
        well_formed(text),
    ensures
        forall|k: int| 0 <= k < words(text).len() ==> (#[trigger] words(text)[k]).len() > 0,
        forall|k: int, j: int|
            0 <= k < words(text).len() && 0 <= j < words(text)[k].len() ==> is_letter(
                #[trigger] words(text)[k][j],
            ),
{
    if text.len() > 0 {
        lemma_pieces_of_prefix(text, text.len() as int);
        assert(text.take(text.len() as int) =~= text);
    }
}

/// In a well-formed text, the pieces of a prefix are made of letters, and
/// all of them but the last are not empty. The last one is empty just when
/// the prefix is empty or ends with a separator.
proof fn lemma_pieces_of_prefix(text: Seq<char>, n: int)
    requires
        well_formed(text),
        0 <= n <= text.len(),
    ensures
        split(text.take(n)).len() >= 1,
        forall|k: int|
            0 <= k < split(text.take(n)).len() - 1 ==> (#[trigger] split(text.take(n))[k]).len()
                > 0,
        split(text.take(n)).last().len() == 0 <==> (n == 0 || text[n - 1] == SEPARATOR),
        forall|k: int, j: int|
            0 <= k < split(text.take(n)).len() && 0 <= j < split(text.take(n))[k].len()
                ==> is_letter(#[trigger] split(text.take(n))[k][j]),
    decreases n,
{
    if n > 0 {
        lemma_pieces_of_prefix(text, n - 1);
        lemma_split_step(text, n - 1);
    }
}

/// Cutting gives at most one piece more than there are characters.
pub proof fn lemma_split_len_bound(text: Seq<char>)
    ensures
        split(text).len() <= text.len() + 1,
    decreases text.len(),
{
    if text.len() > 0 {
        lemma_split_len_bound(text.drop_last());
    }
}

/// A well-formed text of fewer than `u32::MAX` characters is admissible.
pub proof fn lemma_short_text_is_admissible(text: Seq<char>)
    requires
        well_formed(text),
        text.len() < u32::MAX,
    ensures
        admissible(text),
{
    lemma_split_len_bound(text);
}

/// The number of characters of a well-formed text. Such a text is made of
/// ASCII characters, so it holds one byte for each of them.
pub(crate) fn ascii_len(sentence: &str) -> (len: usize)
    requires
        well_formed(sentence@),
    ensures
        len == sentence@.len(),
        sentence.is_ascii(),
{
    let bytes = sentence.as_bytes();
    proof {
        lemma_well_formed_is_ascii(sentence@);
        vstd::string::is_ascii_spec_bytes(sentence);
    }
    bytes.len()
}

/// The characters before position `n` can begin a well-formed text: each is
/// a letter, or a separator that follows a letter.
spec fn scanned(text: Seq<char>, n: int) -> bool {
    forall|j: int|
        0 <= j < n ==> if #[trigger] text[j] == SEPARATOR {
            0 < j && is_letter(text[j - 1])
        } else {
            is_letter(text[j])
        }
}

/// Says whether `sentence` is admissible, which is what the counters ask
/// of their input.
pub fn is_admissible(sentence: &str) -> (ok: bool)
    ensures
        ok == admissible(sentence@),
{
    broadcast use vstd::string::group_string_axioms;

    let ghost text = sentence@;
    let ghost mut i: int = 0;
    let mut tail = sentence.chars();
    let mut separators: u32 = 0;
    let mut after_letter = false;
    loop
        invariant
            sentence@ == text,
            0 <= i <= text.len(),
            tail.remaining() == text.skip(i),
            after_letter == (i > 0 && is_letter(text[i - 1])),
            scanned(text, i),
            split(text.take(i)).len() == separators + 1,
            i > 0 ==> separators + 1 <= u32::MAX,
        ensures
            i == text.len(),
            after_letter == (i > 0 && is_letter(text[i - 1])),
            scanned(text, i),
            split(text).len() == separators + 1,
            i > 0 ==> separators + 1 <= u32::MAX,
        decreases text.len() - i,
    {
        match tail.next() {
            Some(c) => {
                proof {
                    lemma_split_step(text, i);
                    lemma_split_prefix_len(text, i + 1);
                }
                if c == SEPARATOR {
                    if !after_letter || separators >= u32::MAX - 1 {
                        return false;
                    }
                    separators += 1;
                    after_letter = false;
                } else if 'a' <= c && c <= 'z' {
                    after_letter = true;
                } else {
                    return false;
                }
                proof {
                    i = i + 1;
                }
            },
            None => {
                proof {
                    assert(text.take(i) =~= text);
                }
                break ;
            },
        }
    }
    let ok = after_letter || sentence.is_empty();
    proof {
        if ok {
            assert forall|j: int| 0 <= j < text.len() implies if #[trigger] text[j]
                == SEPARATOR {
                0 < j < text.len() - 1 && is_letter(text[j - 1]) && is_letter(text[j + 1])
            } else {
                is_letter(text[j])
            } by {
                if text[j] == SEPARATOR && j + 1 < text.len() {
                    assert(text[j + 1] != SEPARATOR);
                }
            }
        }
    }
    ok
}

} // verus!
