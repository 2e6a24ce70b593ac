use kindle_notes_core::{split_between, split_notes, SEPARATOR};

#[test]
fn split_contents_to_two() {
    let items = split_notes("==========\nDesigning Data-Intensive Applications");
    println!("{:?}", items);
    assert_eq!(1, items.len());
}

#[test]
fn separator_is_ten_equals_signs() {
    assert_eq!(SEPARATOR, "==========");
    assert_eq!(SEPARATOR.len(), 10);
}

#[test]
fn split_keeps_records_as_they_are_and_in_order() {
    let items = split_notes("first\n==========\nsecond\n==========\nthird");
    assert_eq!(items, vec!["first\n", "\nsecond\n", "\nthird"]);
}

#[test]
fn split_drops_empty_and_blank_records() {
    let items = split_notes("==========\n \t\n====================\r\nkept\r\n==========\n");
    assert_eq!(items, vec!["\r\nkept\r\n"]);
}

#[test]
fn split_of_empty_input_is_empty() {
    assert!(split_notes("").is_empty());
}

#[test]
fn split_of_blank_input_is_empty() {
    assert!(split_notes(" \n\t ").is_empty());
}

#[test]
fn split_without_separator_gives_the_whole_input() {
    assert_eq!(split_notes("no separator here"), vec!["no separator here"]);
}

#[test]
fn split_of_separator_alone_is_empty() {
    assert!(split_notes("==========").is_empty());
}

#[test]
fn split_needs_all_ten_signs() {
    assert_eq!(split_notes("a=========b"), vec!["a=========b"]);
}

#[test]
fn split_takes_the_leftmost_ten_of_eleven_signs() {
    assert_eq!(split_notes("a===========b"), vec!["a", "=b"]);
}

#[test]
fn split_matches_do_not_overlap() {
    assert_eq!(split_notes("a=========================b"), vec!["a", "=====b"]);
}

#[test]
fn split_counts_characters_not_bytes() {
    let items = split_notes("caf\u{e9} \u{2014} na\u{ef}ve==========\u{65e5}\u{672c}\u{8a9e}==========z");
    assert_eq!(items, vec!["caf\u{e9} \u{2014} na\u{ef}ve", "\u{65e5}\u{672c}\u{8a9e}", "z"]);
}

#[test]
fn split_treats_unicode_spaces_as_blank() {
    let items = split_notes("\u{a0}\u{2003}==========x");
    assert_eq!(items, vec!["x"]);
}

#[test]
fn split_again_gives_the_same_records() {
    let input = "\nBook A\nmeta\n\nfirst\n==========\n  \n==========\nBook B\nmeta\n\nsecond\n==========\n";
    let once = split_notes(input);
    assert_eq!(once, vec!["\nBook A\nmeta\n\nfirst\n", "\nBook B\nmeta\n\nsecond\n"]);
    let joined = once.join(SEPARATOR);
    let twice = split_notes(&joined);
    assert_eq!(once, twice);
}

#[test]
fn split_again_gives_the_same_records_with_stray_signs() {
    let input = "=a===========b==========  ===========c";
    let once = split_notes(input);
    assert_eq!(once, vec!["=a", "=b", "=c"]);
    let joined = once.join(SEPARATOR);
    assert_eq!(split_notes(&joined), once);
}

#[test]
fn split_between_takes_another_separator() {
    assert_eq!(split_between("a--b-- --c-", "--"), vec!["a", "b", "c-"]);
    assert_eq!(split_between("one\n***\ntwo", "\n***\n"), vec!["one", "two"]);
}

#[test]
fn split_between_takes_the_leftmost_match() {
    assert_eq!(split_between("aaab", "aab"), vec!["a"]);
    assert_eq!(split_between("xababay", "aba"), vec!["x", "bay"]);
}

#[test]
fn split_between_with_the_usual_separator_is_split_notes() {
    let input = "x==========y\n==========\n";
    assert_eq!(split_between(input, SEPARATOR), split_notes(input));
}

#[test]
fn split_between_cuts_nowhere_with_an_empty_separator() {
    assert_eq!(split_between("a==========b", ""), vec!["a==========b"]);
    assert!(split_between("  ", "").is_empty());
    assert!(split_between("", "").is_empty());
}

#[test]
fn split_between_takes_a_separator_outside_ascii() {
    assert_eq!(split_between("un\u{2014}deux\u{2014}\u{2014}trois", "\u{2014}"), vec!["un", "deux", "trois"]);
}
