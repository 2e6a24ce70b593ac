use kindle_notes_core::text::{contains_chars, matches_at, remove_whitespace, to_chars};

fn chars(s: &str) -> Vec<char> {
    s.chars().collect()
}

#[test]
fn to_chars_gives_every_character() {
    assert_eq!(to_chars("a\u{e9}\u{65e5}\n"), vec!['a', '\u{e9}', '\u{65e5}', '\n']);
    assert!(to_chars("").is_empty());
}

#[test]
fn matches_at_looks_at_one_place() {
    let hay = chars("abcabc");
    assert!(matches_at(&hay, &chars("abc"), 0));
    assert!(matches_at(&hay, &chars("abc"), 3));
    assert!(matches_at(&hay, &chars("bc"), 4));
    assert!(!matches_at(&hay, &chars("abc"), 1));
    assert!(!matches_at(&hay, &chars("abc"), 4));
    assert!(!matches_at(&hay, &chars("abc"), 7));
}

#[test]
fn matches_at_finds_the_empty_text_up_to_the_end() {
    let hay = chars("ab");
    assert!(matches_at(&hay, &[], 0));
    assert!(matches_at(&hay, &[], 2));
    assert!(!matches_at(&hay, &[], 3));
}

#[test]
fn contains_chars_finds_a_part_anywhere() {
    let hay = chars("The quick brown fox");
    assert!(contains_chars(&hay, &chars("The")));
    assert!(contains_chars(&hay, &chars("quick b")));
    assert!(contains_chars(&hay, &chars("fox")));
    assert!(contains_chars(&hay, &hay));
    assert!(contains_chars(&hay, &[]));
    assert!(contains_chars(&[], &[]));
}

#[test]
fn contains_chars_misses_what_is_not_there() {
    let hay = chars("The quick brown fox");
    assert!(!contains_chars(&hay, &chars("the")));
    assert!(!contains_chars(&hay, &chars("foxy")));
    assert!(!contains_chars(&hay, &chars("quickbrown")));
    assert!(!contains_chars(&[], &chars("a")));
    assert!(!contains_chars(&chars("aab"), &chars("aba")));
}

#[test]
fn contains_chars_finds_a_match_after_a_false_start() {
    assert!(contains_chars(&chars("aaab"), &chars("aab")));
    assert!(contains_chars(&chars("==a==========="), &chars("==========")));
}

#[test]
fn remove_whitespace_takes_out_every_kind() {
    let squeezed = remove_whitespace(&chars(" a\tb\r\nc\u{a0}d\u{2003}e\u{3000} "));
    assert_eq!(squeezed, chars("abcde"));
}

#[test]
fn remove_whitespace_keeps_other_characters() {
    assert_eq!(remove_whitespace(&chars("a-b_c\u{feff}\u{200b}")), chars("a-b_c\u{feff}\u{200b}"));
    assert!(remove_whitespace(&chars(" \n ")).is_empty());
    assert!(remove_whitespace(&[]).is_empty());
}

#[test]
fn whitespace_is_the_unicode_set_and_nothing_else() {
    let listed = |code: u32| {
        (0x0009..=0x000d).contains(&code)
            || code == 0x0020
            || code == 0x0085
            || code == 0x00a0
            || code == 0x1680
            || (0x2000..=0x200a).contains(&code)
            || code == 0x2028
            || code == 0x2029
            || code == 0x202f
            || code == 0x205f
            || code == 0x3000
    };
    let every: Vec<char> = (0..=0x10ffff_u32).filter_map(char::from_u32).collect();
    let expected: Vec<char> = every.iter().copied().filter(|c| !listed(*c as u32)).collect();
    assert_eq!(every.len() - expected.len(), 25);
    assert_eq!(remove_whitespace(&every), expected);
}
