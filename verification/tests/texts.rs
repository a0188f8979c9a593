use wpop::text::is_admissible;

#[test]
fn words_and_single_spaces_are_admissible() {
    assert!(is_admissible(""));
    assert!(is_admissible("a"));
    assert!(is_admissible("hello"));
    assert!(is_admissible("a b"));
    assert!(is_admissible("apples bananas oranges peaches bananas"));
    assert!(is_admissible("abcdefghijklmnopqrstuvwxyz z a"));
}

#[test]
fn leading_space_is_refused() {
    assert!(!is_admissible(" a"));
    assert!(!is_admissible(" "));
}

#[test]
fn trailing_space_is_refused() {
    assert!(!is_admissible("a "));
    assert!(!is_admissible("a b "));
}

#[test]
fn doubled_space_is_refused() {
    assert!(!is_admissible("a  b"));
    assert!(!is_admissible("a b  c"));
}

#[test]
fn other_characters_are_refused() {
    assert!(!is_admissible("Hello"));
    assert!(!is_admissible("a B"));
    assert!(!is_admissible("a1"));
    assert!(!is_admissible("a,b"));
    assert!(!is_admissible("a\tb"));
    assert!(!is_admissible("a\nb"));
    assert!(!is_admissible("`"));
    assert!(!is_admissible("{"));
    assert!(!is_admissible("caf\u{e9}"));
    assert!(!is_admissible("a\u{a0}b"));
}
