//! The highlight deduplicator: within one book, a highlight that overlaps the
//! one that follows it in the export is an earlier version of it and is
//! dropped.

use crate::text::{
    contains, contains_chars, remove_whitespace, squeeze, to_chars, trim, trim_bounds,
};
use vstd::prelude::*;

verus! {

/// Whitespace-insensitive containment: with all whitespace taken out, one of
/// the two texts stands inside the other.
pub open spec fn overlapping(a: Seq<char>, b: Seq<char>) -> bool {
    contains(squeeze(a), squeeze(b)) || contains(squeeze(b), squeeze(a))
}

/// The highlight at `i` stays: it is the last one, or it and the one after it
/// do not overlap.
pub open spec fn survives(notes: Seq<Seq<char>>, i: int) -> bool {
    i + 1 >= notes.len() || !overlapping(notes[i], notes[i + 1])
}

/// The highlights from position `from` on that stay, trimmed, in the order of
/// the export.
pub open spec fn dedup_from(notes: Seq<Seq<char>>, from: int) -> Seq<Seq<char>>
    decreases notes.len() - from,
{
    if from < 0 || from >= notes.len() {
        Seq::empty()
    } else if survives(notes, from) {
        seq![trim(notes[from])] + dedup_from(notes, from + 1)
    } else {
        dedup_from(notes, from + 1)
    }
}

/// The highlights of one book without those that a later version supersedes.
pub open spec fn dedup(notes: Seq<Seq<char>>) -> Seq<Seq<char>> {
    dedup_from(notes, 0)
}

/// Whether two highlights overlap, whitespace aside.
pub fn overlaps(a: &str, b: &str) -> (duplicate: bool)
    ensures
        duplicate == overlapping(a@, b@),
{
    let side_a = remove_whitespace(to_chars(a).as_slice());
    let side_b = remove_whitespace(to_chars(b).as_slice());
    contains_chars(side_a.as_slice(), side_b.as_slice()) || contains_chars(
        side_b.as_slice(),
        side_a.as_slice(),
    )
}

/// Collapses the highlights of one book.
///
/// The scan runs from the newest highlight to the oldest and compares each
/// with the one visited before it, whether that one was kept or not; what is
/// kept comes back trimmed and in the order of the export.
pub fn clean<'a>(notes: &[&'a str]) -> (kept: Vec<&'a str>)
    ensures
        kept.deep_view() == dedup(notes.deep_view()),
{
    let ghost texts = notes.deep_view();
    let mut newest_first: Vec<&'a str> = Vec::new();
    let mut reference: Option<Vec<char>> = None;
    let mut i: usize = notes.len();
    while i > 0
        invariant
            texts == notes.deep_view(),
            i <= notes@.len(),
            newest_first.deep_view().reverse() == dedup_from(texts, i as int),
            i == notes@.len() ==> reference is None,
            i < notes@.len() ==> (reference matches Some(r) && r@ == squeeze(texts[i as int])),
        decreases i,
    {
        i -= 1;
        let note: &'a str = notes[i];
        let chars = to_chars(note);
        let (from, to) = trim_bounds(chars.as_slice(), 0, chars.len());
        assert(chars@.subrange(0, chars@.len() as int) =~= chars@);
        let squeezed = remove_whitespace(chars.as_slice());
        let duplicate = match &reference {
            Some(r) => contains_chars(squeezed.as_slice(), r.as_slice()) || contains_chars(
                r.as_slice(),
                squeezed.as_slice(),
            ),
            None => false,
        };
        if !duplicate {
            newest_first.push(note.substring_char(from, to));
        }
        reference = Some(squeezed);
    }
    reversed(&newest_first)
}

/// The same slices, last one first.
fn reversed<'a>(items: &Vec<&'a str>) -> (turned: Vec<&'a str>)
    ensures
        turned.deep_view() == items.deep_view().reverse(),
{
    let mut turned: Vec<&'a str> = Vec::new();
    let mut i: usize = items.len();
    while i > 0
        invariant
            i <= items@.len(),
            turned@.len() == items@.len() - i,
            forall|k: int| 0 <= k < turned@.len() ==> turned@[k] == items@[items@.len() - 1 - k],
        decreases i,
    {
        i -= 1;
        turned.push(items[i]);
    }
    turned
}

/// The positions from `from` on whose highlights stay, ascending.
pub open spec fn survivors_from(notes: Seq<Seq<char>>, from: int) -> Seq<int>
    decreases notes.len() - from,
{
    if from < 0 || from >= notes.len() {
        Seq::empty()
    } else if survives(notes, from) {
        seq![from] + survivors_from(notes, from + 1)
    } else {
        survivors_from(notes, from + 1)
    }
}

/// The positions whose highlights stay, ascending.
pub open spec fn survivors(notes: Seq<Seq<char>>) -> Seq<int> {
    survivors_from(notes, 0)
}

/// From any position on, what is kept are the trimmed highlights at the
/// surviving positions, which ascend and leave no surviving position out.
pub proof fn lemma_dedup_from_keeps_order(notes: Seq<Seq<char>>, from: int)
    requires
        0 <= from <= notes.len(),
    ensures
        dedup_from(notes, from).len() == survivors_from(notes, from).len(),
        forall|k: int|
            0 <= k < survivors_from(notes, from).len() ==> {
                let i = #[trigger] survivors_from(notes, from)[k];
                &&& from <= i < notes.len()
                &&& survives(notes, i)
                &&& dedup_from(notes, from)[k] == trim(notes[i])
            },
        forall|k: int, l: int|
            0 <= k < l < survivors_from(notes, from).len() ==> survivors_from(notes, from)[k]
                < survivors_from(notes, from)[l],
        forall|i: int|
            from <= i < notes.len() && survives(notes, i) ==> survivors_from(notes, from).contains(
                i,
            ),
    decreases notes.len() - from,
{
    if from < notes.len() {
        let here = survivors_from(notes, from);
        let later = survivors_from(notes, from + 1);
        lemma_dedup_from_keeps_order(notes, from + 1);
        let shift: int = if survives(notes, from) {
            1
        } else {
            0
        };
        assert forall|k: int| shift <= k < here.len() implies here[k] == later[k - shift] by {}
        assert forall|i: int| from <= i < notes.len() && survives(notes, i) implies here.contains(
            i,
        ) by {
            if i == from {
                assert(here[0] == i);
            } else {
                let k = choose|k: int| 0 <= k < later.len() && later[k] == i;
                assert(here[k + shift] == i);
            }
        }
        assert forall|k: int, l: int| 0 <= k < l < here.len() implies here[k] < here[l] by {
            if k >= shift {
                assert(here[k] == later[k - shift]);
                assert(here[l] == later[l - shift]);
            } else {
                assert(here[l] == later[l - shift]);
            }
        }
    }
}

/// Deduplication keeps the order of what it keeps: the result holds the
/// trimmed highlights at the surviving positions, in ascending order of
/// position, and every surviving position is among them.
pub proof fn lemma_dedup_keeps_order(notes: Seq<Seq<char>>)
    ensures
        dedup(notes).len() == survivors(notes).len(),
        forall|k: int|
            0 <= k < survivors(notes).len() ==> {
                let i = #[trigger] survivors(notes)[k];
                &&& 0 <= i < notes.len()
                &&& survives(notes, i)
                &&& dedup(notes)[k] == trim(notes[i])
            },
        forall|k: int, l: int|
            0 <= k < l < survivors(notes).len() ==> survivors(notes)[k] < survivors(notes)[l],
        forall|i: int| 0 <= i < notes.len() && survives(notes, i) ==> survivors(notes).contains(i),
{
    lemma_dedup_from_keeps_order(notes, 0);
}

/// Of no highlights none is kept.
pub proof fn lemma_dedup_of_nothing()
    ensures
        dedup(Seq::<Seq<char>>::empty()).len() == 0,
{
}

/// A single highlight is never dropped: it comes back, trimmed.
pub proof fn lemma_single_highlight_comes_back_trimmed(highlight: Seq<char>)
    ensures
        dedup(seq![highlight]) == seq![trim(highlight)],
{
    let notes = seq![highlight];
    assert(survives(notes, 0));
    assert(dedup_from(notes, 1) =~= Seq::<Seq<char>>::empty());
    assert(dedup(notes) =~= seq![trim(highlight)]);
}

/// A single highlight that carries no whitespace at either end is not
/// altered.
pub proof fn lemma_single_highlight_is_kept(highlight: Seq<char>)
    requires
        trim(highlight) == highlight,
    ensures
        dedup(seq![highlight]) == seq![highlight],
{
    lemma_single_highlight_comes_back_trimmed(highlight);
}

/// Whether a highlight stays is decided by it and its successor alone: it
/// is among the survivors exactly when it is the last one or does not
/// overlap the one after it, whatever stands further away.
pub proof fn lemma_neighbours_decide(notes: Seq<Seq<char>>, i: int)
    requires
        0 <= i < notes.len(),
    ensures
        survivors(notes).contains(i) <==> survives(notes, i),
{
    lemma_dedup_keeps_order(notes);
    if survivors(notes).contains(i) {
        let k = choose|k: int| 0 <= k < survivors(notes).len() && survivors(notes)[k] == i;
        assert(survives(notes, survivors(notes)[k]));
    }
}

} // verus!
