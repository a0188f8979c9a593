use wpop::hash;
use wpop::radix;
use wpop::PopularWord;

fn both(sentence: &str) -> (PopularWord<'_>, PopularWord<'_>) {
    (radix::wpop(sentence), hash::wpop(sentence))
}

fn assert_both(sentence: &str, word: Option<&str>, count: u32) {
    let (by_trie, by_map) = both(sentence);
    assert_eq!(by_trie.word, word, "trie, word of {:?}", sentence);
    assert_eq!(by_trie.count, count, "trie, count of {:?}", sentence);
    assert_eq!(by_map.word, word, "map, word of {:?}", sentence);
    assert_eq!(by_map.count, count, "map, count of {:?}", sentence);
}

#[test]
fn empty_text_has_no_word() {
    assert_both("", None, 0);
}

#[test]
fn single_word_is_counted_once() {
    assert_both("hello", Some("hello"), 1);
}

#[test]
fn single_letter_word() {
    assert_both("x", Some("x"), 1);
}

#[test]
fn identical_words_are_all_counted() {
    assert_both("x x x x", Some("x"), 4);
}

#[test]
fn repeated_word_wins() {
    assert_both("apples bananas oranges peaches bananas", Some("bananas"), 2);
}

#[test]
fn all_distinct_words_give_the_first() {
    assert_both("one two three four", Some("one"), 1);
}

#[test]
fn tie_goes_to_the_word_that_got_there_first() {
    assert_both("a b a b", Some("a"), 2);
    assert_both("b a b a", Some("b"), 2);
    assert_both("a b b a", Some("b"), 2);
    assert_both("a b c c b a", Some("c"), 2);
}

#[test]
fn later_word_overtakes() {
    assert_both("a a b b b", Some("b"), 3);
    assert_both("a b b a a", Some("a"), 3);
}

#[test]
fn words_that_begin_alike_are_told_apart() {
    assert_both("ab a ab abc ab abc a", Some("ab"), 3);
    assert_both("abc ab a a", Some("a"), 2);
    assert_both("a ab abc abc", Some("abc"), 2);
    assert_both("abc abd abc abd abd", Some("abd"), 3);
}

#[test]
fn every_letter_has_its_branch() {
    assert_both(
        "a b c d e f g h i j k l m n o p q r s t u v w x y z z",
        Some("z"),
        2,
    );
    assert_both("az za az za za", Some("za"), 3);
}

#[test]
fn long_words() {
    let long = "abcdefghijklmnopqrstuvwxyz".repeat(40);
    let sentence = format!("{} short {} short {}", long, long, long);
    let (by_trie, by_map) = both(&sentence);
    assert_eq!(by_trie.word, Some(long.as_str()));
    assert_eq!(by_trie.count, 3);
    assert_eq!(by_map.word, Some(long.as_str()));
    assert_eq!(by_map.count, 3);
}

#[test]
fn many_words() {
    let mut sentence = String::new();
    for round in 0..500 {
        for word in ["red", "green", "blue", "re", "gree"] {
            if !sentence.is_empty() {
                sentence.push(' ');
            }
            sentence.push_str(word);
        }
        if round % 2 == 0 {
            sentence.push_str(" green");
        }
    }
    let (by_trie, by_map) = both(&sentence);
    assert_eq!(by_trie.word, Some("green"));
    assert_eq!(by_trie.count, 750);
    assert_eq!(by_map.word, Some("green"));
    assert_eq!(by_map.count, 750);
}

#[test]
fn trie_and_map_agree() {
    let sentences = [
        "",
        "a",
        "a a",
        "a b",
        "b a",
        "the quick brown fox jumps over the lazy dog",
        "to be or not to be that is the question",
        "x y z x y z z y x",
        "ab abc abcd abc ab abcd abcd",
        "apples bananas oranges peaches bananas",
    ];
    for sentence in sentences {
        let (by_trie, by_map) = both(sentence);
        assert_eq!(by_trie.word, by_map.word, "word of {:?}", sentence);
        assert_eq!(by_trie.count, by_map.count, "count of {:?}", sentence);
    }
}

#[test]
fn known_answers() {
    assert_both("the quick brown fox jumps over the lazy dog", Some("the"), 2);
    assert_both("to be or not to be that is the question", Some("to"), 2);
    assert_both("x y z x y z z y x", Some("z"), 3);
    assert_both("ab abc abcd abc ab abcd abcd", Some("abcd"), 3);
}

#[test]
fn counting_again_gives_the_same() {
    let sentence = "apples bananas oranges peaches bananas";
    let once = radix::wpop(sentence);
    let again = radix::wpop(sentence);
    assert_eq!(once.word, again.word);
    assert_eq!(once.count, again.count);
    let once = hash::wpop(sentence);
    let again = hash::wpop(sentence);
    assert_eq!(once.word, again.word);
    assert_eq!(once.count, again.count);
    let other = sentence.to_string();
    let elsewhere = radix::wpop(&other);
    assert_eq!(once.word, elsewhere.word);
    assert_eq!(once.count, elsewhere.count);
}

fn lies_within(word: &str, sentence: &str) -> bool {
    let from = sentence.as_ptr() as usize;
    let at = word.as_ptr() as usize;
    from <= at && at + word.len() <= from + sentence.len()
}

#[test]
fn word_is_borrowed_from_the_text() {
    let sentence = String::from("pear plum pear fig");
    let by_trie = radix::wpop(&sentence);
    let by_map = hash::wpop(&sentence);
    let word = by_trie.word.unwrap();
    assert_eq!(word, "pear");
    assert!(lies_within(word, &sentence));
    assert_eq!(word.as_ptr(), sentence[10..].as_ptr());
    let word = by_map.word.unwrap();
    assert_eq!(word, "pear");
    assert!(lies_within(word, &sentence));
    assert_eq!(word.as_ptr(), sentence[10..].as_ptr());
}

#[test]
fn last_word_is_counted() {
    assert_both("a b b", Some("b"), 2);
    assert_both("b a a", Some("a"), 2);
}

#[test]
fn popular_word_can_be_copied_and_shown() {
    let popular = radix::wpop("fig fig");
    let copy = popular;
    assert_eq!(popular.word, copy.word);
    assert_eq!(popular.count, copy.count);
    let shown = format!("{:?}", copy.clone());
    assert!(shown.contains("fig"));
    assert!(shown.contains('2'));
}
