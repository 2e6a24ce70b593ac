use kindle_notes_core::{
    classify, compile, file_name, organize, organize_between, BookGroup, BookNotes,
};

#[test]
fn file_name_drops_what_a_file_name_may_not_hold() {
    assert_eq!(file_name("a/b?c"), "abc");
    assert_eq!(file_name("What If? Serious Answers"), "What If Serious Answers");
}

#[test]
fn file_name_keeps_a_safe_title() {
    assert_eq!(file_name("Clean Code"), "Clean Code");
}

#[test]
fn file_name_drops_trailing_dots_and_spaces() {
    assert_eq!(file_name("The End..."), "The End");
}

#[test]
fn file_name_empties_reserved_names() {
    assert_eq!(file_name("con"), "");
    assert_eq!(file_name(".."), "");
}

#[test]
fn file_name_is_cut_to_255_bytes() {
    let long = "a".repeat(300);
    assert_eq!(file_name(&long), "a".repeat(255));
}

#[test]
fn compile_names_and_deduplicates() {
    let group = BookGroup {
        title: String::from("Who? Me"),
        highlights: vec!["The quick", "The quick brown fox", "Unrelated line"],
    };
    let book = compile(&group);
    assert_eq!(book.title, "Who? Me");
    assert_eq!(book.file_name, "Who Me");
    assert_eq!(book.notes, vec!["The quick brown fox", "Unrelated line"]);
    assert!(book.is_renamed());
}

#[test]
fn named_takes_the_name_it_is_given() {
    let group = BookGroup { title: String::from("Title"), highlights: vec!["A", "B", "A"] };
    let book = BookNotes::named(&group, String::from("elsewhere"));
    assert_eq!(book.title, "Title");
    assert_eq!(book.file_name, "elsewhere");
    assert_eq!(book.notes, vec!["A", "B", "A"]);
    assert!(book.is_renamed());
}

#[test]
fn safe_title_is_not_renamed() {
    let group = BookGroup { title: String::from("Dune"), highlights: vec!["Fear is the mind-killer"] };
    let book = compile(&group);
    assert_eq!(book.file_name, "Dune");
    assert!(!book.is_renamed());
}

#[test]
fn document_puts_an_empty_line_after_every_note() {
    let book = BookNotes {
        title: String::from("T"),
        file_name: String::from("T"),
        notes: vec!["first", "second\nline"],
    };
    assert_eq!(book.document(), "first\n\nsecond\nline\n\n");
}

#[test]
fn document_of_no_notes_is_empty() {
    let book = BookNotes { title: String::from("T"), file_name: String::from("T"), notes: vec![] };
    assert_eq!(book.document(), "");
}

#[test]
fn organize_of_empty_export_is_empty() {
    assert!(organize("").is_empty());
    assert!(organize("==========\n==========\n").is_empty());
}

#[test]
fn organize_runs_every_stage() {
    let export = "\u{feff}Dune (Frank Herbert)\r\n\
- Your Highlight on page 12 | Location 100-101 | Added on Monday\r\n\
\r\n\
Fear is the\r\n\
==========\r\n\
Clean Code: A Handbook (Robert C. Martin)\r\n\
- Your Highlight on page 3 | Location 40-41 | Added on Monday\r\n\
\r\n\
Leave the campground cleaner than you found it.\r\n\
==========\r\n\
Dune (Frank Herbert)\r\n\
- Your Highlight on page 12 | Location 100-102 | Added on Monday\r\n\
\r\n\
Fear is the mind-killer.\r\n\
==========\r\n\
Dune (Frank Herbert)\r\n\
- Your Bookmark on page 20 | Location 200 | Added on Tuesday\r\n\
\r\n\
\r\n\
==========\r\n\
Dune (Frank Herbert)\r\n\
- Your Highlight on page 30 | Location 300-301 | Added on Tuesday\r\n\
\r\n\
The spice must flow.\r\n\
==========\r\n";
    let books = organize(export);
    assert_eq!(books.len(), 2);
    assert_eq!(books[0].title, "Dune (Frank Herbert)");
    assert_eq!(books[0].file_name, "Dune (Frank Herbert)");
    assert_eq!(books[0].notes, vec!["Fear is the mind-killer.", "The spice must flow."]);
    assert!(!books[0].is_renamed());
    assert_eq!(books[1].title, "Clean Code - A Handbook (Robert C. Martin)");
    assert_eq!(books[1].file_name, "Clean Code - A Handbook (Robert C. Martin)");
    assert_eq!(books[1].notes, vec!["Leave the campground cleaner than you found it."]);
}

#[test]
fn organize_agrees_with_its_stages() {
    let export = "A?\nmeta\none\n==========\nB\nmeta\ntwo\n==========\nA?\nmeta\none more\n";
    let records = kindle_notes_core::split_notes(export);
    let groups = classify(&records);
    let books = organize(export);
    assert_eq!(books.len(), groups.len());
    for (book, group) in books.iter().zip(groups.iter()) {
        let alone = compile(group);
        assert_eq!(book.title, alone.title);
        assert_eq!(book.file_name, alone.file_name);
        assert_eq!(book.notes, alone.notes);
    }
    assert_eq!(books[0].title, "A?");
    assert_eq!(books[0].file_name, "A");
    assert_eq!(books[0].notes, vec!["one more"]);
    assert_eq!(books[1].notes, vec!["two"]);
}

#[test]
fn organize_handles_a_long_export() {
    let mut export = String::new();
    for i in 0..3000 {
        export.push_str(&format!("Book {} (Author \u{e9})\r\n", i % 40));
        export.push_str("- Your Highlight on page 1 | Location 1-2 | Added on Monday\r\n\r\n");
        export.push_str(&format!("Passage number {} \u{2014} {}\r\n", i, "lorem ipsum ".repeat(20)));
        export.push_str("==========\r\n");
    }
    let books = organize(&export);
    assert_eq!(books.len(), 40);
    assert_eq!(books[0].title, "Book 0 (Author )");
    assert_eq!(books[39].title, "Book 39 (Author )");
    let notes: usize = books.iter().map(|book| book.notes.len()).sum();
    assert_eq!(notes, 3000);
    assert!(books[7].notes[0].starts_with("Passage number 7 \u{2014} lorem"));
    assert!(books[7].notes[74].starts_with("Passage number 2967 "));
}

#[test]
fn organize_between_takes_another_separator() {
    let books = organize_between("A\nmeta\none\n----\nA\nmeta\none and more\n----\nB\nmeta\ntwo", "----");
    assert_eq!(books.len(), 2);
    assert_eq!(books[0].title, "A");
    assert_eq!(books[0].notes, vec!["one and more"]);
    assert_eq!(books[1].title, "B");
    assert_eq!(books[1].notes, vec!["two"]);
}

#[test]
fn organize_drops_records_that_end_with_their_metadata() {
    let books = organize("A\nLocation 1-2\n==========\nB\nLocation 3\nkept\n==========\nC\n==========\n");
    assert_eq!(books.len(), 1);
    assert_eq!(books[0].title, "B");
    assert_eq!(books[0].notes, vec!["kept"]);
}
