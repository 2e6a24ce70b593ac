//! The record splitter: cuts the export at every separator line and keeps
//! the pieces that hold more than whitespace.

use crate::text::{
    contains, find, first_occurrence, is_blank, is_blank_range, is_first_occurrence,
    lemma_first_occurrence, lemma_no_occurrence, lemma_occurs_in_prefix, occurs_at,
    split_at_char, to_chars,
};
use vstd::prelude::*;

verus! {

/// The marker that ends every clipping in an export: ten equals signs.
pub const SEPARATOR: &'static str = "==========";

/// The texts between the occurrences of `sep` in `s`, scanning from the left
/// and never letting two occurrences overlap. There is always at least one
/// piece; the last one is what follows the last occurrence. An empty `sep`
/// cuts nowhere.
pub open spec fn pieces(s: Seq<char>, sep: Seq<char>) -> Seq<Seq<char>>
    decreases s.len(),
{
    match first_occurrence(s, sep) {
        Some(i) => if sep.len() > 0 {
            seq![s.take(i)] + pieces(s.skip(i + sep.len()), sep)
        } else {
            seq![s]
        },
        None => seq![s],
    }
}

/// The pieces that are not blank, in order.
pub open spec fn substantial(pieces: Seq<Seq<char>>) -> Seq<Seq<char>> {
    pieces.filter(|piece: Seq<char>| !is_blank(piece))
}

/// The records of `s` when `sep` separates them.
pub open spec fn records_between(s: Seq<char>, sep: Seq<char>) -> Seq<Seq<char>> {
    substantial(pieces(s, sep))
}

/// The records of an export.
pub open spec fn note_records(contents: Seq<char>) -> Seq<Seq<char>> {
    records_between(contents, SEPARATOR@)
}

/// Slices the export into its records: the texts between separators, left as
/// they are, without those that are empty or blank.
pub fn split_notes(contents: &str) -> (records: Vec<&str>)
    ensures
        records.deep_view() == note_records(contents@),
{
    split_between(contents, SEPARATOR)
}

/// Slices `contents` into the records that `separator` separates. With an
/// empty separator nothing is cut: the whole text is the one piece.
pub fn split_between<'a>(contents: &'a str, separator: &str) -> (records: Vec<&'a str>)
    ensures
        records.deep_view() == records_between(contents@, separator@),
{
    let chars = to_chars(contents);
    let sep = to_chars(separator);
    let n = chars.len();
    let m = sep.len();
    let mut records: Vec<&'a str> = Vec::new();
    let mut rest: &'a str = contents;
    let mut start: usize = 0;
    let mut more = true;
    let ghost mut done: Seq<Seq<char>> = Seq::empty();
    assert(contents@.skip(0) =~= contents@);
    proof {
        reveal(Seq::filter);
    }
    while more
        invariant
            chars@ == contents@,
            sep@ == separator@,
            n == chars@.len(),
            m == sep@.len(),
            start <= n,
            more ==> rest@ == contents@.skip(start as int),
            more ==> pieces(contents@, sep@) == done + pieces(contents@.skip(start as int), sep@),
            !more ==> pieces(contents@, sep@) == done,
            records.deep_view() == substantial(done),
        decreases n - start + if more { 1int } else { 0int },
    {
        let hit = if m > 0 {
            find(chars.as_slice(), sep.as_slice(), start)
        } else {
            None
        };
        let end = match hit {
            Some(at) => at,
            None => n,
        };
        let ghost tail = contents@.skip(start as int);
        let ghost piece = contents@.subrange(start as int, end as int);
        let (head, after) = split_at_char(rest, end - start);
        assert(piece =~= tail.take(end - start));
        if !is_blank_range(chars.as_slice(), start, end) {
            records.push(head);
        }
        proof {
            done.lemma_filter_push(piece, |piece: Seq<char>| !is_blank(piece));
            done = done.push(piece);
        }
        match hit {
            Some(at) => {
                assert(tail.skip(at - start + m) =~= contents@.skip(at + m));
                rest = split_at_char(after, m).1;
                start = at + m;
            },
            None => {
                more = false;
            },
        }
    }
    records
}

/// The texts of `parts` in a row, with `sep` between each two of them.
pub open spec fn joined(parts: Seq<Seq<char>>, sep: Seq<char>) -> Seq<char>
    decreases parts.len(),
{
    if parts.len() == 0 {
        Seq::empty()
    } else if parts.len() == 1 {
        parts[0]
    } else {
        parts[0] + sep + joined(parts.drop_first(), sep)
    }
}

/// `sep` stands nowhere in `piece`, and where `sep` follows `piece` it begins
/// nowhere inside `piece` either.
pub open spec fn closed_by(piece: Seq<char>, sep: Seq<char>) -> bool {
    &&& !contains(piece, sep)
    &&& forall|j: int| 0 <= j < piece.len() ==> !occurs_at(piece + sep, sep, j)
}

/// What holds of the pieces of any text: none holds `sep`, and each but the
/// last is closed by the `sep` that followed it.
pub open spec fn cleanly_cut(parts: Seq<Seq<char>>, sep: Seq<char>) -> bool {
    &&& forall|i: int| 0 <= i < parts.len() ==> !contains(#[trigger] parts[i], sep)
    &&& forall|i: int| 0 <= i < parts.len() - 1 ==> closed_by(#[trigger] parts[i], sep)
}

/// Splitting loses nothing and keeps the order: the pieces, joined by the
/// separator, are the text.
pub proof fn lemma_pieces_rejoin(s: Seq<char>, sep: Seq<char>)
    ensures
        pieces(s, sep).len() > 0,
        joined(pieces(s, sep), sep) == s,
    decreases s.len(),
{
    if let Some(i) = first_occurrence(s, sep) {
        if sep.len() > 0 {
            assert(is_first_occurrence(s, sep, i));
            let tail = s.skip(i + sep.len());
            lemma_pieces_rejoin(tail, sep);
            assert(pieces(s, sep).drop_first() =~= pieces(tail, sep));
            assert(s =~= s.take(i) + sep + tail);
        }
    }
}

/// What stands before the first separator is closed by it.
proof fn lemma_head_is_closed(s: Seq<char>, sep: Seq<char>, i: int)
    requires
        sep.len() > 0,
        is_first_occurrence(s, sep, i),
    ensures
        closed_by(s.take(i), sep),
{
    let head = s.take(i);
    assert(head + sep =~= s.take(i + sep.len()));
    assert forall|j: int| 0 <= j < head.len() implies !occurs_at(head + sep, sep, j) by {
        lemma_occurs_in_prefix(s, sep, i + sep.len(), j);
    }
    assert forall|j: int| !occurs_at(head, sep, j) by {
        lemma_occurs_in_prefix(s, sep, i, j);
    }
}

/// A closed piece in front of cleanly cut parts leaves them cleanly cut.
proof fn lemma_cleanly_cut_after(head: Seq<char>, others: Seq<Seq<char>>, sep: Seq<char>)
    requires
        closed_by(head, sep),
        cleanly_cut(others, sep),
    ensures
        cleanly_cut(seq![head] + others, sep),
{
    let all = seq![head] + others;
    assert forall|k: int| 0 <= k < all.len() implies !contains(#[trigger] all[k], sep) by {
        if k > 0 {
            assert(all[k] == others[k - 1]);
        }
    }
    assert forall|k: int| 0 <= k < all.len() - 1 implies closed_by(#[trigger] all[k], sep) by {
        if k > 0 {
            assert(all[k] == others[k - 1]);
        }
    }
}

/// The pieces of a text are cleanly cut.
pub proof fn lemma_pieces_are_cleanly_cut(s: Seq<char>, sep: Seq<char>)
    requires
        sep.len() > 0,
    ensures
        cleanly_cut(pieces(s, sep), sep),
    decreases s.len(),
{
    match first_occurrence(s, sep) {
        Some(i) => {
            assert(is_first_occurrence(s, sep, i));
            let tail = s.skip(i + sep.len());
            lemma_head_is_closed(s, sep, i);
            lemma_pieces_are_cleanly_cut(tail, sep);
            lemma_cleanly_cut_after(s.take(i), pieces(tail, sep), sep);
        },
        None => {
            lemma_no_occurrence(s, sep);
        },
    }
}

/// Leaving pieces out keeps the rest cleanly cut.
pub proof fn lemma_substantial_is_cleanly_cut(parts: Seq<Seq<char>>, sep: Seq<char>)
    requires
        cleanly_cut(parts, sep),
    ensures
        cleanly_cut(substantial(parts), sep),
    decreases parts.len(),
{
    reveal(Seq::filter);
    if parts.len() > 0 {
        let before = parts.drop_last();
        let kept = substantial(before);
        assert forall|i: int| 0 <= i < before.len() implies closed_by(
            #[trigger] before[i],
            sep,
        ) by {
            assert(before[i] == parts[i]);
        }
        assert forall|i: int| 0 <= i < kept.len() implies closed_by(#[trigger] kept[i], sep) by {
            assert(kept.contains(kept[i]));
            before.lemma_filter_contains_rev(|piece: Seq<char>| !is_blank(piece), kept[i]);
            let k = choose|k: int| 0 <= k < before.len() && before[k] == kept[i];
            assert(closed_by(before[k], sep));
        }
        assert(!contains(parts[parts.len() - 1], sep));
    }
}

/// Cleanly cut parts, joined and split again, are the same parts.
pub proof fn lemma_pieces_of_joined(parts: Seq<Seq<char>>, sep: Seq<char>)
    requires
        sep.len() > 0,
        parts.len() > 0,
        cleanly_cut(parts, sep),
    ensures
        pieces(joined(parts, sep), sep) == parts,
    decreases parts.len(),
{
    let whole = joined(parts, sep);
    if parts.len() == 1 {
        lemma_no_occurrence(parts[0], sep);
        assert(pieces(whole, sep) =~= parts);
    } else {
        let head = parts[0];
        let others = parts.drop_first();
        let at = head.len() as int;
        assert(closed_by(head, sep));
        assert(whole.subrange(at, at + sep.len()) =~= sep);
        assert forall|j: int| 0 <= j < at implies !occurs_at(whole, sep, j) by {
            if occurs_at(whole, sep, j) {
                assert((head + sep).subrange(j, j + sep.len()) =~= whole.subrange(
                    j,
                    j + sep.len(),
                ));
                assert(occurs_at(head + sep, sep, j));
            }
        }
        lemma_first_occurrence(whole, sep, at);
        assert(whole.take(at) =~= head);
        assert(whole.skip(at + sep.len()) =~= joined(others, sep));
        assert forall|i: int| 0 <= i < others.len() implies !contains(
            #[trigger] others[i],
            sep,
        ) by {
            assert(others[i] == parts[i + 1]);
        }
        assert forall|i: int| 0 <= i < others.len() - 1 implies closed_by(
            #[trigger] others[i],
            sep,
        ) by {
            assert(others[i] == parts[i + 1]);
        }
        lemma_pieces_of_joined(others, sep);
        assert(pieces(whole, sep) =~= parts);
    }
}

/// Among substantial pieces every one is substantial.
pub proof fn lemma_substantial_twice(parts: Seq<Seq<char>>)
    ensures
        substantial(substantial(parts)) == substantial(parts),
    decreases parts.len(),
{
    reveal(Seq::filter);
    if parts.len() > 0 {
        let keep = |piece: Seq<char>| !is_blank(piece);
        lemma_substantial_twice(parts.drop_last());
        if keep(parts.last()) {
            substantial(parts.drop_last()).lemma_filter_push(parts.last(), keep);
        }
    }
}

/// Splitting is idempotent: the records of a text, joined by the separator
/// and split again, are the same records in the same order.
pub proof fn lemma_resplit_gives_same_records(contents: Seq<char>, sep: Seq<char>)
    ensures
        records_between(joined(records_between(contents, sep), sep), sep) == records_between(
            contents,
            sep,
        ),
{
    let records = records_between(contents, sep);
    let nothing = Seq::<char>::empty();
    reveal_with_fuel(Seq::filter, 2);
    if records.len() == 0 {
        assert(joined(records, sep) == nothing);
        assert(is_blank(nothing));
        if sep.len() > 0 {
            assert(!contains(nothing, sep));
            lemma_no_occurrence(nothing, sep);
        }
        assert(pieces(nothing, sep) =~= seq![nothing]);
        assert(substantial(seq![nothing]) =~= Seq::<Seq<char>>::empty());
    } else if sep.len() > 0 {
        lemma_pieces_are_cleanly_cut(contents, sep);
        lemma_substantial_is_cleanly_cut(pieces(contents, sep), sep);
        lemma_substantial_twice(pieces(contents, sep));
        lemma_pieces_of_joined(records, sep);
    } else {
        assert(pieces(contents, sep) =~= seq![contents]);
        assert(records =~= seq![contents]);
        assert(pieces(joined(records, sep), sep) =~= seq![contents]);
    }
}

/// A text in which the separator does not occur is one record, or none if
/// it is blank.
pub proof fn lemma_unseparated_text(s: Seq<char>, sep: Seq<char>)
    requires
        !contains(s, sep),
    ensures
        records_between(s, sep) == if is_blank(s) {
            Seq::<Seq<char>>::empty()
        } else {
            seq![s]
        },
{
    lemma_no_occurrence(s, sep);
    reveal_with_fuel(Seq::filter, 2);
    assert(pieces(s, sep) =~= seq![s]);
    assert(seq![s].drop_last() =~= Seq::<Seq<char>>::empty());
    assert(substantial(seq![s]) =~= if is_blank(s) {
        Seq::<Seq<char>>::empty()
    } else {
        seq![s]
    });
}

/// An empty export has no records.
pub proof fn lemma_empty_export_has_no_records()
    ensures
        note_records(Seq::<char>::empty()).len() == 0,
{
    let nothing = Seq::<char>::empty();
    reveal_strlit("==========");
    assert(is_blank(nothing));
    assert(!contains(nothing, SEPARATOR@));
    lemma_unseparated_text(nothing, SEPARATOR@);
}

/// Splitting an export is idempotent: its records, joined by the separator
/// line and split again, are the same records in the same order.
pub proof fn lemma_split_is_idempotent(contents: Seq<char>)
    ensures
        note_records(joined(note_records(contents), SEPARATOR@)) == note_records(contents),
{
    lemma_resplit_gives_same_records(contents, SEPARATOR@);
}

} // verus!
