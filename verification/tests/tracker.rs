use wpop::PopularState;
use wpop::PopularWord;

fn seen(word: &str, count: u32) -> PopularWord<'_> {
    PopularWord { word: Some(word), count }
}

#[test]
fn new_ranking_holds_no_word() {
    let state = PopularState::new();
    assert_eq!(state.first().word, None);
    assert_eq!(state.first().count, 0);
    assert_eq!(state.second().word, None);
    assert_eq!(state.second().count, 0);
}

#[test]
fn first_word_takes_the_lead() {
    let mut state = PopularState::new();
    state.update(seen("a", 1));
    assert_eq!(state.first().word, Some("a"));
    assert_eq!(state.first().count, 1);
    assert_eq!(state.second().word, None);
    assert_eq!(state.second().count, 0);
}

#[test]
fn higher_count_moves_the_leader_down() {
    let mut state = PopularState::new();
    state.update(seen("a", 1));
    state.update(seen("b", 2));
    assert_eq!(state.first().word, Some("b"));
    assert_eq!(state.first().count, 2);
    assert_eq!(state.second().word, Some("a"));
    assert_eq!(state.second().count, 1);
}

#[test]
fn count_between_the_two_replaces_the_runner_up() {
    let mut state = PopularState::new();
    state.update(seen("a", 1));
    state.update(seen("b", 5));
    state.update(seen("c", 3));
    assert_eq!(state.first().word, Some("b"));
    assert_eq!(state.first().count, 5);
    assert_eq!(state.second().word, Some("c"));
    assert_eq!(state.second().count, 3);
}

#[test]
fn low_count_changes_nothing() {
    let mut state = PopularState::new();
    state.update(seen("a", 4));
    state.update(seen("b", 6));
    state.update(seen("c", 2));
    assert_eq!(state.first().word, Some("b"));
    assert_eq!(state.first().count, 6);
    assert_eq!(state.second().word, Some("a"));
    assert_eq!(state.second().count, 4);
}

#[test]
fn equal_count_does_not_displace_the_leader() {
    let mut state = PopularState::new();
    state.update(seen("a", 2));
    state.update(seen("b", 2));
    assert_eq!(state.first().word, Some("a"));
    assert_eq!(state.first().count, 2);
    assert_eq!(state.second().word, Some("b"));
    assert_eq!(state.second().count, 2);
    state.update(seen("c", 2));
    assert_eq!(state.first().word, Some("a"));
    assert_eq!(state.second().word, Some("b"));
}

#[test]
fn equal_count_does_not_displace_the_runner_up() {
    let mut state = PopularState::new();
    state.update(seen("a", 2));
    state.update(seen("b", 3));
    state.update(seen("c", 2));
    assert_eq!(state.first().word, Some("b"));
    assert_eq!(state.second().word, Some("a"));
    assert_eq!(state.second().count, 2);
}

#[test]
fn count_zero_is_never_taken() {
    let mut state = PopularState::new();
    state.update(seen("a", 0));
    assert_eq!(state.first().word, None);
    assert_eq!(state.second().word, None);
}

#[test]
fn leader_is_never_below_the_runner_up() {
    let counts = [3u32, 1, 4, 1, 5, 9, 2, 6, 5, 3, 5, 8, 9, 7, 9, 0, 10, 10];
    let mut state = PopularState::new();
    let mut highest = 0;
    for count in counts {
        state.update(seen("w", count));
        highest = highest.max(count);
        assert!(state.first().count >= state.second().count);
        assert_eq!(state.first().count, highest);
    }
    assert_eq!(state.second().count, 10);
}
