//! The whole way from an export to the documents: split, extract, group,
//! deduplicate, and name the file of every book.

use crate::dedup::{
    clean, dedup, lemma_dedup_keeps_order, lemma_single_highlight_is_kept, survives, survivors,
};
use crate::group::{
    classified, classify, clippings_of, lemma_filed_highlights_are_trimmed,
    lemma_no_group_is_empty, BookGroup, GroupText,
};
use crate::split::{
    lemma_empty_export_has_no_records, note_records, records_between, split_between, SEPARATOR,
};
use vstd::prelude::*;
use vstd::string::StringExecFns;

verus! {

/// The name that `sanitize_filename::sanitize_with_options` makes of `name`
/// under the given options.
pub uninterp spec fn sanitized_file_name(
    name: Seq<char>,
    windows: bool,
    truncate: bool,
    replacement: Seq<char>,
) -> Seq<char>;

/// Calls `sanitize_filename::sanitize_with_options`, which puts `replacement`
/// in place of what a file name may not hold, rewrites names that are
/// reserved (on Windows too, if `windows` is set) and, if `truncate` is set,
/// cuts the result to 255 bytes. It depends on its arguments alone and does
/// not fail; the contract names its result and states nothing else of it.
#[verifier::external_body]
fn sanitize_with_options(name: &str, windows: bool, truncate: bool, replacement: &str) -> (cleaned:
    String)
    ensures
        cleaned@ == sanitized_file_name(name@, windows, truncate, replacement@),
{
    sanitize_filename::sanitize_with_options(
        name,
        sanitize_filename::Options { windows, truncate, replacement },
    )
}

/// The notes of one book, ready to be written.
#[derive(Debug, PartialEq, Eq)]
pub struct BookNotes<'a> {
    /// The normalized title of the book.
    pub title: String,
    /// The name of its document, without directory and extension.
    pub file_name: String,
    /// Its highlights without duplicates, in the order of the export.
    pub notes: Vec<&'a str>,
}

/// What the notes of a book say, as plain text.
pub struct NotesText {
    /// The normalized title of the book.
    pub title: Seq<char>,
    /// The name of its document.
    pub file_name: Seq<char>,
    /// Its highlights without duplicates.
    pub notes: Seq<Seq<char>>,
}

impl<'a> DeepView for BookNotes<'a> {
    type V = NotesText;

    open spec fn deep_view(&self) -> NotesText {
        NotesText {
            title: self.title@,
            file_name: self.file_name@,
            notes: self.notes.deep_view(),
        }
    }
}

/// The name of the document of the book with this title: the title made safe
/// for any file system, unsafe characters dropped, cut to a length that fits.
pub open spec fn file_name_for(title: Seq<char>) -> Seq<char> {
    sanitized_file_name(title, true, true, Seq::empty())
}

/// The notes of a book whose document has the given name.
pub open spec fn notes_named(group: GroupText, file_name: Seq<char>) -> NotesText {
    NotesText { title: group.title, file_name, notes: dedup(group.highlights) }
}

/// The notes of a book.
pub open spec fn compiled(group: GroupText) -> NotesText {
    notes_named(group, file_name_for(group.title))
}

/// The notes of every book of a text whose records `sep` separates.
pub open spec fn organized_between(contents: Seq<char>, sep: Seq<char>) -> Seq<NotesText> {
    classified(records_between(contents, sep)).map_values(|group: GroupText| compiled(group))
}

/// The notes of every book of an export.
pub open spec fn organized(contents: Seq<char>) -> Seq<NotesText> {
    organized_between(contents, SEPARATOR@)
}

/// The text of a document: every note followed by an empty line.
pub open spec fn document_text(notes: Seq<Seq<char>>) -> Seq<char>
    decreases notes.len(),
{
    if notes.len() == 0 {
        Seq::empty()
    } else {
        document_text(notes.drop_last()) + notes.last() + seq!['\n', '\n']
    }
}

impl<'a> BookNotes<'a> {
    /// Puts the notes of a book together, given the name of its document.
    pub fn named(group: &BookGroup<'a>, file_name: String) -> (book: BookNotes<'a>)
        ensures
            book.deep_view() == notes_named(group.deep_view(), file_name@),
    {
        BookNotes {
            title: group.title.clone(),
            file_name,
            notes: clean(group.highlights.as_slice()),
        }
    }

    /// Whether the document's name differs from the title.
    pub fn is_renamed(&self) -> (renamed: bool)
        ensures
            renamed == (self.file_name@ != self.title@),
    {
        !(self.file_name == self.title)
    }

    /// The text of the document.
    pub fn document(&self) -> (text: String)
        ensures
            text@ == document_text(self.notes.deep_view()),
    {
        let ghost notes = self.notes.deep_view();
        let mut text = String::new();
        let mut i: usize = 0;
        while i < self.notes.len()
            invariant
                notes == self.notes.deep_view(),
                i <= self.notes@.len(),
                text@ == document_text(notes.take(i as int)),
            decreases self.notes@.len() - i,
        {
            proof {
                reveal_strlit("\n\n");
                assert(notes.take(i + 1).drop_last() =~= notes.take(i as int));
            }
            text.append(self.notes[i]);
            text.append("\n\n");
            i += 1;
        }
        assert(notes.take(i as int) =~= notes);
        text
    }
}

/// The name of the document of the book with this title.
pub fn file_name(title: &str) -> (name: String)
    ensures
        name@ == file_name_for(title@),
{
    proof {
        reveal_strlit("");
        assert(""@ =~= Seq::<char>::empty());
    }
    sanitize_with_options(title, true, true, "")
}

/// Deduplicates the highlights of one book and names its document.
pub fn compile<'a>(group: &BookGroup<'a>) -> (book: BookNotes<'a>)
    ensures
        book.deep_view() == compiled(group.deep_view()),
{
    let name = file_name(group.title.as_str());
    BookNotes::named(group, name)
}

/// Turns an export into the notes of its books: the books in the order in
/// which they first occur, each with its highlights in the order of the
/// export, duplicates dropped.
pub fn organize<'a>(contents: &'a str) -> (books: Vec<BookNotes<'a>>)
    ensures
        books.deep_view() == organized(contents@),
{
    organize_between(contents, SEPARATOR)
}

/// The same for a text whose records end with another separator.
pub fn organize_between<'a>(contents: &'a str, separator: &str) -> (books: Vec<BookNotes<'a>>)
    ensures
        books.deep_view() == organized_between(contents@, separator@),
{
    let records = split_between(contents, separator);
    let groups = classify(records.as_slice());
    let ghost texts = groups.deep_view();
    let mut books: Vec<BookNotes<'a>> = Vec::new();
    let mut i: usize = 0;
    while i < groups.len()
        invariant
            texts == groups.deep_view(),
            i <= groups@.len(),
            books@.len() == i,
            forall|k: int| 0 <= k < i ==> (#[trigger] books@[k]).deep_view() == compiled(texts[k]),
        decreases groups@.len() - i,
    {
        let book = compile(&groups[i]);
        books.push(book);
        i += 1;
    }
    books
}

/// An empty export gives no books.
pub proof fn lemma_empty_export_gives_nothing()
    ensures
        organized(Seq::<char>::empty()).len() == 0,
{
    lemma_empty_export_has_no_records();
    assert(note_records(Seq::<char>::empty()) =~= Seq::<Seq<char>>::empty());
}

/// A book with a single highlight comes through unaltered: its notes are
/// that one highlight, as it was filed.
pub proof fn lemma_single_highlight_book_is_unaltered(records: Seq<Seq<char>>, g: int)
    requires
        0 <= g < classified(records).len(),
        classified(records)[g].highlights.len() == 1,
    ensures
        compiled(classified(records)[g]).notes == classified(records)[g].highlights,
{
    let highlights = classified(records)[g].highlights;
    lemma_filed_highlights_are_trimmed(records, g, 0);
    lemma_single_highlight_is_kept(highlights[0]);
    assert(highlights =~= seq![highlights[0]]);
}

/// Every book of an export has its notes: there are as many books as groups,
/// in the same order and under the same titles, and none is without a note.
pub proof fn lemma_every_book_has_notes(contents: Seq<char>, g: int)
    requires
        0 <= g < organized(contents).len(),
    ensures
        organized(contents).len() == classified(note_records(contents)).len(),
        organized(contents)[g].title == classified(note_records(contents))[g].title,
        organized(contents)[g].notes.len() > 0,
{
    let group = classified(note_records(contents))[g];
    lemma_no_group_is_empty(clippings_of(note_records(contents)), g);
    lemma_dedup_keeps_order(group.highlights);
    let last = group.highlights.len() - 1;
    assert(survives(group.highlights, last));
    assert(survivors(group.highlights).contains(last));
}

} // verus!
