//! The record extractor: reads the book title and the highlight out of one
//! record of the export.
//!
//! A record has a title line, a line of metadata and then the highlight,
//! which may itself run over several lines. Only what follows the second
//! line break is the highlight: a record that ends with its metadata line
//! holds none.

use crate::text::{
    find, first_occurrence, is_blank, lemma_trim_is_idempotent, lemma_trim_of_blank, skip_blanks,
    to_chars, trim, trim_bounds, trim_start,
};
use vstd::prelude::*;

verus! {

/// What a clipping says, as plain text.
pub struct ClippingText {
    /// The normalized title of the book.
    pub title: Seq<char>,
    /// The highlighted passage, trimmed.
    pub highlight: Seq<char>,
}

/// One highlight of one book.
#[derive(Debug, PartialEq, Eq)]
pub struct Clipping<'a> {
    /// The normalized title of the book.
    pub book_title: String,
    /// The highlighted passage, trimmed; a slice of the record.
    pub highlight_text: &'a str,
}

impl<'a> View for Clipping<'a> {
    type V = ClippingText;

    open spec fn view(&self) -> ClippingText {
        ClippingText { title: self.book_title@, highlight: self.highlight_text@ }
    }
}

/// What ends a line.
pub open spec fn line_break() -> Seq<char> {
    seq!['\n']
}

/// Whether `c` is an ASCII character.
pub open spec fn ascii(c: char) -> bool {
    c as u32 <= 0x7f
}

/// `s` without the characters outside ASCII.
pub open spec fn ascii_only(s: Seq<char>) -> Seq<char> {
    s.filter(|c: char| ascii(c))
}

/// `s` with a space and a hyphen in place of every colon.
pub open spec fn hyphenate_colons(s: Seq<char>) -> Seq<char>
    decreases s.len(),
{
    if s.len() == 0 {
        Seq::empty()
    } else if s.last() == ':' {
        hyphenate_colons(s.drop_last()) + seq![' ', '-']
    } else {
        hyphenate_colons(s.drop_last()).push(s.last())
    }
}

/// The title under which a book is filed: the title line trimmed, reduced to
/// ASCII, its colons replaced.
pub open spec fn normalized_title(line: Seq<char>) -> Seq<char> {
    hyphenate_colons(ascii_only(trim(line)))
}

/// The first line of a record, leading whitespace aside; `None` where the
/// record is a single line.
pub open spec fn title_line(record: Seq<char>) -> Option<Seq<char>> {
    let body = trim_start(record);
    match first_occurrence(body, line_break()) {
        Some(i) => Some(body.take(i)),
        None => None,
    }
}

/// The part of a record that holds the highlight: all that follows the
/// second line break, leading whitespace of the record aside. A record with
/// fewer than two line breaks has none: its second line, if it has one, is
/// metadata.
pub open spec fn highlight_part(record: Seq<char>) -> Option<Seq<char>> {
    let body = trim_start(record);
    match first_occurrence(body, line_break()) {
        Some(i) => {
            let below = body.skip(i + 1);
            match first_occurrence(below, line_break()) {
                Some(j) => Some(below.skip(j + 1)),
                None => None,
            }
        },
        None => None,
    }
}

/// The clipping that a record holds, if it holds a highlight.
pub open spec fn extract(record: Seq<char>) -> Option<ClippingText> {
    match (title_line(record), highlight_part(record)) {
        (Some(line), Some(part)) => if trim(part).len() > 0 {
            Some(ClippingText { title: normalized_title(line), highlight: trim(part) })
        } else {
            None
        },
        _ => None,
    }
}

/// Whether `c` is an ASCII character.
fn is_ascii_char(c: char) -> (ok: bool)
    ensures
        ok == ascii(c),
{
    c as u32 <= 0x7f
}

/// The normalized title read from the line `from..to`.
fn title_between(chars: &[char], from: usize, to: usize) -> (title: String)
    requires
        from <= to <= chars@.len(),
    ensures
        title@ == normalized_title(chars@.subrange(from as int, to as int)),
{
    let (start, end) = trim_bounds(chars, from, to);
    let ghost line = chars@.subrange(start as int, end as int);
    let mut title = String::new();
    let mut i: usize = start;
    proof {
        reveal(Seq::filter);
    }
    while i < end
        invariant
            start <= i <= end <= chars@.len(),
            line == chars@.subrange(start as int, end as int),
            title@ == hyphenate_colons(ascii_only(line.take(i - start))),
        decreases end - i,
    {
        let c = chars[i];
        proof {
            let seen = line.take(i - start);
            assert(line.take(i + 1 - start) =~= seen.push(c));
            seen.lemma_filter_push(c, |c: char| ascii(c));
            if ascii(c) {
                assert(ascii_only(seen).push(c).drop_last() =~= ascii_only(seen));
            }
        }
        if is_ascii_char(c) {
            if c == ':' {
                title.push(' ');
                title.push('-');
            } else {
                title.push(c);
            }
        }
        i += 1;
    }
    assert(line.take(end - start) =~= line);
    title
}

/// The title under which the book of this title line is filed.
pub fn normalize_title(line: &str) -> (title: String)
    ensures
        title@ == normalized_title(line@),
{
    let chars = to_chars(line);
    assert(chars@.subrange(0, chars@.len() as int) =~= chars@);
    title_between(chars.as_slice(), 0, chars.len())
}

/// Where the lines of a record lie: the title line is `bounds.0..bounds.1`
/// and the highlight part runs from `bounds.2` to the end. A record with
/// fewer than two line breaks has no highlight part and gives nothing.
fn line_bounds(chars: &[char]) -> (bounds: Option<(usize, usize, usize)>)
    ensures
        match bounds {
            Some((start, end, below)) => {
                &&& start <= end <= below <= chars@.len()
                &&& title_line(chars@) == Some(chars@.subrange(start as int, end as int))
                &&& highlight_part(chars@) == Some(
                    chars@.subrange(below as int, chars@.len() as int),
                )
            },
            None => highlight_part(chars@) is None,
        },
{
    let n = chars.len();
    let break_chars: Vec<char> = vec!['\n'];
    assert(break_chars@ =~= line_break());
    assert(chars@.subrange(0, n as int) =~= chars@);
    let start = skip_blanks(chars, 0, n);
    let ghost body = chars@.skip(start as int);
    match find(chars, break_chars.as_slice(), start) {
        None => None,
        Some(end) => {
            let ghost rest = body.skip(end - start + 1);
            assert(body.take(end - start) =~= chars@.subrange(start as int, end as int));
            assert(rest =~= chars@.skip(end + 1));
            match find(chars, break_chars.as_slice(), end + 1) {
                Some(second) => Some((start, end, second + 1)),
                None => None,
            }
        },
    }
}

/// Reads one record. A record of fewer than three lines, and one whose
/// highlight is empty or blank, gives nothing.
pub fn extract_clipping<'a>(record: &'a str) -> (clipping: Option<Clipping<'a>>)
    ensures
        match clipping {
            Some(c) => extract(record@) == Some(c@),
            None => extract(record@) is None,
        },
{
    let chars = to_chars(record);
    match line_bounds(chars.as_slice()) {
        None => None,
        Some((start, end, below)) => {
            let (from, to) = trim_bounds(chars.as_slice(), below, chars.len());
            if from == to {
                None
            } else {
                Some(
                    Clipping {
                        book_title: title_between(chars.as_slice(), start, end),
                        highlight_text: record.substring_char(from, to),
                    },
                )
            }
        },
    }
}

/// A record gives a clipping exactly when it has a highlight part and that
/// part is not blank.
pub proof fn lemma_blank_highlight_is_dropped(record: Seq<char>)
    ensures
        extract(record) is Some <==> (highlight_part(record) matches Some(part) && !is_blank(part)),
{
    if let Some(part) = highlight_part(record) {
        lemma_trim_of_blank(part);
    }
}

/// A record that holds metadata only gives nothing: without a second line
/// break after its title line there is no highlight.
pub proof fn lemma_metadata_only_record_is_dropped(record: Seq<char>)
    requires
        match first_occurrence(trim_start(record), line_break()) {
            Some(i) => first_occurrence(trim_start(record).skip(i + 1), line_break()) is None,
            None => true,
        },
    ensures
        extract(record) is None,
{
}

/// The highlight of a clipping is never empty and carries no whitespace at
/// either end.
pub proof fn lemma_extracted_highlight_is_trimmed(record: Seq<char>)
    ensures
        extract(record) matches Some(clipping) ==> clipping.highlight.len() > 0 && trim(
            clipping.highlight,
        ) == clipping.highlight,
{
    if let Some(part) = highlight_part(record) {
        lemma_trim_is_idempotent(part);
    }
}

/// Replacing the colons of ASCII text leaves ASCII text without a
/// colon.
proof fn lemma_hyphenated_is_ascii(s: Seq<char>)
    requires
        forall|i: int| 0 <= i < s.len() ==> ascii(#[trigger] s[i]),
    ensures
        forall|i: int|
            0 <= i < hyphenate_colons(s).len() ==> {
                let c = #[trigger] hyphenate_colons(s)[i];
                ascii(c) && c != ':'
            },
    decreases s.len(),
{
    if s.len() > 0 {
        let before = hyphenate_colons(s.drop_last());
        assert forall|i: int| 0 <= i < s.drop_last().len() implies ascii(
            #[trigger] s.drop_last()[i],
        ) by {
            assert(ascii(s[i]));
        }
        lemma_hyphenated_is_ascii(s.drop_last());
        assert(ascii(s.last()));
        assert forall|i: int| 0 <= i < hyphenate_colons(s).len() implies {
            let c = #[trigger] hyphenate_colons(s)[i];
            ascii(c) && c != ':'
        } by {
            if i < before.len() {
                assert(hyphenate_colons(s)[i] == before[i]);
            }
        }
    }
}

/// A normalized title holds ASCII characters only, and no colon.
pub proof fn lemma_normalized_title_is_ascii(line: Seq<char>)
    ensures
        forall|i: int|
            0 <= i < normalized_title(line).len() ==> {
                let c = #[trigger] normalized_title(line)[i];
                ascii(c) && c != ':'
            },
{
    let kept = ascii_only(trim(line));
    assert forall|i: int| 0 <= i < kept.len() implies ascii(#[trigger] kept[i]) by {
        trim(line).lemma_filter_pred(|c: char| ascii(c), i);
    }
    lemma_hyphenated_is_ascii(kept);
}

} // verus!
