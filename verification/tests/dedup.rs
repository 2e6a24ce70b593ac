use kindle_notes_core::{clean, overlaps};

#[test]
fn earlier_shorter_highlight_is_absorbed() {
    let notes = ["The quick", "The quick brown fox", "Unrelated line"];
    assert_eq!(clean(&notes), vec!["The quick brown fox", "Unrelated line"]);
}

#[test]
fn duplicates_apart_are_both_kept() {
    let notes = ["A", "B", "A"];
    assert_eq!(clean(&notes), vec!["A", "B", "A"]);
}

#[test]
fn single_highlight_is_kept() {
    let notes = ["Only one"];
    assert_eq!(clean(&notes), vec!["Only one"]);
}

#[test]
fn no_highlights_give_none() {
    let notes: [&str; 0] = [];
    assert!(clean(&notes).is_empty());
}

#[test]
fn kept_highlights_keep_their_order() {
    let notes = ["one", "two", "three", "four"];
    assert_eq!(clean(&notes), vec!["one", "two", "three", "four"]);
}

#[test]
fn later_shorter_highlight_absorbs_too() {
    let notes = ["The quick brown fox", "quick brown"];
    assert_eq!(clean(&notes), vec!["quick brown"]);
}

#[test]
fn chain_of_extensions_leaves_the_last() {
    let notes = ["It was", "It was the best", "It was the best of times", "Call me Ishmael"];
    assert_eq!(clean(&notes), vec!["It was the best of times", "Call me Ishmael"]);
}

#[test]
fn dropped_highlight_is_still_compared_with() {
    // "b" is dropped for "abc", yet "a" is held against "b", not against "abc".
    let notes = ["a", "b", "abc"];
    assert_eq!(clean(&notes), vec!["a", "abc"]);
}

#[test]
fn whitespace_is_ignored_when_comparing() {
    let notes = ["The qui\nck  brown", "Thequick brown\tfox"];
    assert_eq!(clean(&notes), vec!["Thequick brown\tfox"]);
}

#[test]
fn case_is_not_ignored_when_comparing() {
    let notes = ["the quick", "The quick brown fox"];
    assert_eq!(clean(&notes), vec!["the quick", "The quick brown fox"]);
}

#[test]
fn kept_highlights_come_back_trimmed() {
    let notes = ["  first \n", "\tsecond\u{a0}"];
    assert_eq!(clean(&notes), vec!["first", "second"]);
}

#[test]
fn blank_highlight_is_absorbed_by_its_successor() {
    let notes = ["   ", "text"];
    assert_eq!(clean(&notes), vec!["text"]);
}

#[test]
fn equal_neighbours_leave_one() {
    let notes = ["same", "same", "same"];
    assert_eq!(clean(&notes), vec!["same"]);
}

#[test]
fn overlaps_holds_either_way() {
    assert!(overlaps("The quick", "The quick brown fox"));
    assert!(overlaps("The quick brown fox", "The quick"));
    assert!(overlaps("brown fox", "The quick brown fox"));
    assert!(overlaps("quick  brown", "The quick\nbrown fox"));
    assert!(overlaps("", "anything"));
}

#[test]
fn overlaps_fails_for_unrelated_texts() {
    assert!(!overlaps("A", "B"));
    assert!(!overlaps("The quick brown fox", "Unrelated line"));
    assert!(!overlaps("quick fox", "The quick brown fox"));
}
