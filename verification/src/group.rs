//! The book grouper: files every highlight under the title of its book.
//!
//! The groups stand in a vector, in the order in which the books were first
//! met, so that walking them gives the same order every time. A hash map
//! from titles to places in that vector finds the group of a title.

use crate::extract::{
    extract, extract_clipping, lemma_extracted_highlight_is_trimmed, ClippingText,
};
use crate::text::trim;
use vstd::hash_map::StringHashMap;
use vstd::prelude::*;

verus! {

/// The highlights of one book, in the order of the export.
#[derive(Debug, PartialEq, Eq)]
pub struct BookGroup<'a> {
    /// The normalized title of the book.
    pub title: String,
    /// Its highlights, first one first.
    pub highlights: Vec<&'a str>,
}

/// What a group says, as plain text.
pub struct GroupText {
    /// The normalized title of the book.
    pub title: Seq<char>,
    /// Its highlights, first one first.
    pub highlights: Seq<Seq<char>>,
}

impl<'a> DeepView for BookGroup<'a> {
    type V = GroupText;

    open spec fn deep_view(&self) -> GroupText {
        GroupText { title: self.title@, highlights: self.highlights.deep_view() }
    }
}

/// The clippings that a sequence of records holds, in order.
pub open spec fn clippings_of(records: Seq<Seq<char>>) -> Seq<ClippingText> {
    records.filter_map(|record: Seq<char>| extract(record))
}

/// The titles that occur among `clippings`, each once, in the order in which
/// they first occur.
pub open spec fn titles(clippings: Seq<ClippingText>) -> Seq<Seq<char>>
    decreases clippings.len(),
{
    if clippings.len() == 0 {
        Seq::empty()
    } else {
        let before = titles(clippings.drop_last());
        if before.contains(clippings.last().title) {
            before
        } else {
            before.push(clippings.last().title)
        }
    }
}

/// The highlights that `clippings` files under `title`, in order.
pub open spec fn highlights_under(clippings: Seq<ClippingText>, title: Seq<char>) -> Seq<
    Seq<char>,
> {
    clippings.filter(|c: ClippingText| c.title == title).map_values(|c: ClippingText| c.highlight)
}

/// One group for every title, in the order in which the titles first occur,
/// each with all the highlights of its title.
pub open spec fn grouped(clippings: Seq<ClippingText>) -> Seq<GroupText> {
    titles(clippings).map_values(
        |title: Seq<char>|
            GroupText { title, highlights: highlights_under(clippings, title) },
    )
}

/// The groups that a sequence of records makes.
pub open spec fn classified(records: Seq<Seq<char>>) -> Seq<GroupText> {
    grouped(clippings_of(records))
}

/// Every title that a clipping carries is among the titles.
pub proof fn lemma_titles_cover(clippings: Seq<ClippingText>, i: int)
    requires
        0 <= i < clippings.len(),
    ensures
        titles(clippings).contains(clippings[i].title),
    decreases clippings.len(),
{
    let before = titles(clippings.drop_last());
    if i < clippings.len() - 1 {
        lemma_titles_cover(clippings.drop_last(), i);
        let k = choose|k: int| 0 <= k < before.len() && before[k] == clippings[i].title;
        assert(titles(clippings)[k] == clippings[i].title);
    } else if !before.contains(clippings.last().title) {
        assert(titles(clippings)[before.len() as int] == clippings[i].title);
    }
}

/// No title is listed twice.
pub proof fn lemma_titles_are_distinct(clippings: Seq<ClippingText>)
    ensures
        titles(clippings).no_duplicates(),
    decreases clippings.len(),
{
    if clippings.len() > 0 {
        lemma_titles_are_distinct(clippings.drop_last());
    }
}

/// What one more clipping adds to the highlights under a title: its
/// highlight, at the end, if the title is its own.
pub proof fn lemma_highlights_under_push(
    clippings: Seq<ClippingText>,
    next: ClippingText,
    title: Seq<char>,
)
    ensures
        highlights_under(clippings.push(next), title) == if next.title == title {
            highlights_under(clippings, title).push(next.highlight)
        } else {
            highlights_under(clippings, title)
        },
{
    let under = |c: ClippingText| c.title == title;
    clippings.lemma_filter_push(next, under);
    if next.title == title {
        assert(clippings.filter(under).push(next).map_values(|c: ClippingText| c.highlight)
            =~= highlights_under(clippings, title).push(next.highlight));
    }
}

/// A clipping of a book that has its group goes to the end of that group;
/// the other groups stay as they are.
pub proof fn lemma_filed_under_known_title(clippings: Seq<ClippingText>, next: ClippingText, g: int)
    requires
        0 <= g < grouped(clippings).len(),
        grouped(clippings)[g].title == next.title,
    ensures
        grouped(clippings.push(next)) == grouped(clippings).update(
            g,
            GroupText {
                title: next.title,
                highlights: grouped(clippings)[g].highlights.push(next.highlight),
            },
        ),
{
    let before = grouped(clippings);
    let after = grouped(clippings.push(next));
    lemma_titles_are_distinct(clippings);
    assert(titles(clippings)[g] == next.title);
    assert(clippings.push(next).drop_last() =~= clippings);
    assert(titles(clippings.push(next)) == titles(clippings));
    assert forall|k: int| 0 <= k < after.len() implies after[k] == before.update(
        g,
        GroupText { title: next.title, highlights: before[g].highlights.push(next.highlight) },
    )[k] by {
        lemma_highlights_under_push(clippings, next, titles(clippings)[k]);
        if k != g {
            assert(titles(clippings)[k] != titles(clippings)[g]);
        }
    }
    assert(after =~= before.update(
        g,
        GroupText { title: next.title, highlights: before[g].highlights.push(next.highlight) },
    ));
}

/// A clipping of a book that has no group yet opens one, after all the
/// others.
pub proof fn lemma_filed_under_new_title(clippings: Seq<ClippingText>, next: ClippingText)
    requires
        forall|g: int|
            0 <= g < grouped(clippings).len() ==> grouped(clippings)[g].title != next.title,
    ensures
        grouped(clippings.push(next)) == grouped(clippings).push(
            GroupText { title: next.title, highlights: seq![next.highlight] },
        ),
{
    let before = grouped(clippings);
    let after = grouped(clippings.push(next));
    let under = |c: ClippingText| c.title == next.title;
    if titles(clippings).contains(next.title) {
        let k = choose|k: int|
            0 <= k < titles(clippings).len() && titles(clippings)[k] == next.title;
        assert(before[k].title == next.title);
    }
    assert(clippings.push(next).drop_last() =~= clippings);
    assert(titles(clippings.push(next)) == titles(clippings).push(next.title));
    assert forall|i: int| 0 <= i < clippings.len() implies !under(clippings[i]) by {
        lemma_titles_cover(clippings, i);
    }
    clippings.lemma_all_neg_filter_empty(under);
    lemma_highlights_under_push(clippings, next, next.title);
    assert(highlights_under(clippings.push(next), next.title) =~= seq![next.highlight]);
    assert forall|k: int| 0 <= k < before.len() implies after[k] == before[k] by {
        lemma_highlights_under_push(clippings, next, titles(clippings)[k]);
        assert(titles(clippings).contains(titles(clippings)[k]));
    }
    assert(after =~= before.push(
        GroupText { title: next.title, highlights: seq![next.highlight] },
    ));
}

/// Filtering keeps the order: of two kept elements, the earlier one comes
/// out earlier.
proof fn lemma_filter_keeps_order<A>(s: Seq<A>, pred: spec_fn(A) -> bool, i: int, j: int)
    requires
        0 <= i < j < s.len(),
        pred(s[i]),
        pred(s[j]),
    ensures
        exists|a: int, b: int|
            0 <= a < b < s.filter(pred).len() && s.filter(pred)[a] == s[i] && s.filter(pred)[b]
                == s[j],
    decreases s.len(),
{
    reveal(Seq::filter);
    let before = s.drop_last();
    let kept = before.filter(pred);
    if j == s.len() - 1 {
        before.lemma_filter_contains(pred, i);
        let a = choose|a: int| 0 <= a < kept.len() && kept[a] == before[i];
        let b = kept.len() as int;
        assert(s.filter(pred)[a] == s[i] && s.filter(pred)[b] == s[j]);
    } else {
        lemma_filter_keeps_order(before, pred, i, j);
        let (a, b): (int, int) = choose|a: int, b: int|
            0 <= a < b < kept.len() && kept[a] == before[i] && kept[b] == before[j];
        assert(s.filter(pred)[a] == s[i] && s.filter(pred)[b] == s[j]);
    }
}

/// There is one group for each title: no two groups share a title, and the
/// title of every clipping has its group.
pub proof fn lemma_one_group_per_title(clippings: Seq<ClippingText>)
    ensures
        forall|g: int, h: int|
            0 <= g < h < grouped(clippings).len() ==> grouped(clippings)[g].title != grouped(
                clippings,
            )[h].title,
        forall|i: int|
            0 <= i < clippings.len() ==> exists|g: int|
                0 <= g < grouped(clippings).len() && grouped(clippings)[g].title
                    == #[trigger] clippings[i].title,
{
    lemma_titles_are_distinct(clippings);
    assert forall|i: int| 0 <= i < clippings.len() implies exists|g: int|
        0 <= g < grouped(clippings).len() && grouped(clippings)[g].title
            == #[trigger] clippings[i].title by {
        lemma_titles_cover(clippings, i);
        let g = choose|g: int|
            0 <= g < titles(clippings).len() && titles(clippings)[g] == clippings[i].title;
        assert(grouped(clippings)[g].title == clippings[i].title);
    }
}

/// Two clippings of one title land in the same group, the earlier one
/// first: every group holds the highlights of its title in the order of the
/// clippings.
pub proof fn lemma_same_title_same_group(clippings: Seq<ClippingText>, i: int, j: int)
    requires
        0 <= i < j < clippings.len(),
        clippings[i].title == clippings[j].title,
    ensures
        exists|g: int, a: int, b: int|
            {
                &&& 0 <= g < grouped(clippings).len()
                &&& grouped(clippings)[g].title == clippings[i].title
                &&& 0 <= a < b < grouped(clippings)[g].highlights.len()
                &&& grouped(clippings)[g].highlights[a] == clippings[i].highlight
                &&& grouped(clippings)[g].highlights[b] == clippings[j].highlight
            },
{
    let title = clippings[i].title;
    let under = |c: ClippingText| c.title == title;
    lemma_titles_cover(clippings, i);
    let g = choose|g: int| 0 <= g < titles(clippings).len() && titles(clippings)[g] == title;
    lemma_filter_keeps_order(clippings, under, i, j);
    let (a, b): (int, int) = choose|a: int, b: int|
        0 <= a < b < clippings.filter(under).len() && clippings.filter(under)[a] == clippings[i]
            && clippings.filter(under)[b] == clippings[j];
    let group = grouped(clippings)[g];
    assert(group.title == title);
    assert(group.highlights[a] == clippings[i].highlight);
    assert(group.highlights[b] == clippings[j].highlight);
}

/// Every title that is listed is the title of a clipping.
pub proof fn lemma_titles_come_from_clippings(clippings: Seq<ClippingText>, k: int)
    requires
        0 <= k < titles(clippings).len(),
    ensures
        exists|i: int| 0 <= i < clippings.len() && clippings[i].title == titles(clippings)[k],
    decreases clippings.len(),
{
    let before = titles(clippings.drop_last());
    if k < before.len() {
        lemma_titles_come_from_clippings(clippings.drop_last(), k);
        let i = choose|i: int|
            0 <= i < clippings.drop_last().len() && clippings.drop_last()[i].title == before[k];
        assert(clippings[i].title == titles(clippings)[k]);
    } else {
        assert(clippings[clippings.len() - 1].title == titles(clippings)[k]);
    }
}

/// Every highlight of a group is the highlight of a clipping with the
/// group's title.
pub proof fn lemma_filed_highlight_has_a_clipping(clippings: Seq<ClippingText>, g: int, k: int)
    requires
        0 <= g < grouped(clippings).len(),
        0 <= k < grouped(clippings)[g].highlights.len(),
    ensures
        exists|i: int|
            {
                &&& 0 <= i < clippings.len()
                &&& clippings[i].title == grouped(clippings)[g].title
                &&& clippings[i].highlight == grouped(clippings)[g].highlights[k]
            },
{
    let title = titles(clippings)[g];
    let under = |c: ClippingText| c.title == title;
    let filed = clippings.filter(under);
    assert(grouped(clippings)[g].highlights[k] == filed[k].highlight);
    clippings.lemma_filter_pred(under, k);
    assert(filed.contains(filed[k]));
    clippings.lemma_filter_contains_rev(under, filed[k]);
    let i = choose|i: int| 0 <= i < clippings.len() && clippings[i] == filed[k];
    assert(clippings[i].title == grouped(clippings)[g].title);
}

/// No group is empty.
pub proof fn lemma_no_group_is_empty(clippings: Seq<ClippingText>, g: int)
    requires
        0 <= g < grouped(clippings).len(),
    ensures
        grouped(clippings)[g].highlights.len() > 0,
{
    let title = titles(clippings)[g];
    let under = |c: ClippingText| c.title == title;
    lemma_titles_come_from_clippings(clippings, g);
    let i = choose|i: int| 0 <= i < clippings.len() && clippings[i].title == title;
    clippings.lemma_filter_contains(under, i);
}

/// The highlights that the records file are never empty and carry no
/// whitespace at either end.
pub proof fn lemma_filed_highlights_are_trimmed(records: Seq<Seq<char>>, g: int, k: int)
    requires
        0 <= g < classified(records).len(),
        0 <= k < classified(records)[g].highlights.len(),
    ensures
        classified(records)[g].highlights[k].len() > 0,
        trim(classified(records)[g].highlights[k]) == classified(records)[g].highlights[k],
{
    let clippings = clippings_of(records);
    let reader = |record: Seq<char>| extract(record);
    lemma_filed_highlight_has_a_clipping(clippings, g, k);
    let i = choose|i: int|
        0 <= i < clippings.len() && clippings[i].highlight == grouped(clippings)[g].highlights[k];
    assert(clippings.contains(clippings[i]));
    records.lemma_filter_map_contains(reader, clippings[i]);
    let record = choose|record: Seq<char>|
        #[trigger] records.contains(record) && reader(record) == Some(clippings[i]);
    lemma_extracted_highlight_is_trimmed(record);
}

/// The groups read as a mapping from title to highlights.
pub open spec fn by_title(groups: Seq<GroupText>) -> Map<Seq<char>, Seq<Seq<char>>> {
    Map::new(
        |title: Seq<char>| exists|g: int| 0 <= g < groups.len() && groups[g].title == title,
        |title: Seq<char>|
            groups[choose|g: int| 0 <= g < groups.len() && groups[g].title == title].highlights,
    )
}

/// Read as a mapping, the groups map exactly the titles of the clippings,
/// each to the highlights under that title, in order.
pub proof fn lemma_grouped_by_title(clippings: Seq<ClippingText>, title: Seq<char>)
    ensures
        by_title(grouped(clippings)).contains_key(title) <==> exists|i: int|
            0 <= i < clippings.len() && clippings[i].title == title,
        by_title(grouped(clippings)).contains_key(title) ==> by_title(grouped(clippings))[title]
            == highlights_under(clippings, title),
{
    let groups = grouped(clippings);
    if exists|i: int| 0 <= i < clippings.len() && clippings[i].title == title {
        let i = choose|i: int| 0 <= i < clippings.len() && clippings[i].title == title;
        lemma_titles_cover(clippings, i);
        let g = choose|g: int| 0 <= g < titles(clippings).len() && titles(clippings)[g] == title;
        assert(groups[g].title == title);
    }
    if by_title(groups).contains_key(title) {
        let g = choose|g: int| 0 <= g < groups.len() && groups[g].title == title;
        lemma_titles_come_from_clippings(clippings, g);
        assert(groups[g].highlights == highlights_under(clippings, title));
    }
}

/// The index knows every group by its title: a title is a key exactly when
/// a group carries it, and its value is that group's place.
pub open spec fn indexes(index: Map<Seq<char>, usize>, titles: Seq<Seq<char>>) -> bool {
    &&& forall|g: int|
        0 <= g < titles.len() ==> index.contains_key(#[trigger] titles[g]) && index[titles[g]] == g
    &&& forall|title: Seq<char>| #[trigger]
        index.contains_key(title) ==> index[title] < titles.len() && titles[index[title] as int]
            == title
}

/// Reads every record and files each highlight under the title of its book.
///
/// A book's highlights keep the order of the records, and the books come in
/// the order in which their first highlight was met. Records without a
/// highlight add nothing. The group of a title is found through a hash map
/// from titles to places.
pub fn classify<'a>(items: &[&'a str]) -> (books: Vec<BookGroup<'a>>)
    ensures
        books.deep_view() == classified(items.deep_view()),
{
    let ghost records = items.deep_view();
    let mut books: Vec<BookGroup<'a>> = Vec::new();
    let mut index: StringHashMap<usize> = StringHashMap::new();
    let mut i: usize = 0;
    while i < items.len()
        invariant
            records == items.deep_view(),
            i <= items@.len(),
            books.deep_view() == grouped(clippings_of(records.take(i as int))),
            indexes(index@, titles(clippings_of(records.take(i as int)))),
        decreases items@.len() - i,
    {
        let ghost seen = clippings_of(records.take(i as int));
        proof {
            records.lemma_filter_map_take_succ(|record: Seq<char>| extract(record), i as int);
        }
        if let Some(clipping) = extract_clipping(items[i]) {
            let ghost next = clipping@;
            let ghost before = books@;
            assert(clippings_of(records.take(i + 1)) =~= seen.push(next));
            assert(seen.push(next).drop_last() =~= seen);
            assert(books.deep_view().len() == titles(seen).len());
            match index.get(clipping.book_title.as_str()) {
                Some(place) => {
                    let g = *place;
                    proof {
                        lemma_filed_under_known_title(seen, next, g as int);
                    }
                    books[g].highlights.push(clipping.highlight_text);
                    assert(books@[g as int].highlights.deep_view()
                        =~= before[g as int].highlights.deep_view().push(next.highlight));
                },
                None => {
                    proof {
                        lemma_filed_under_new_title(seen, next);
                    }
                    let mut highlights: Vec<&'a str> = Vec::new();
                    highlights.push(clipping.highlight_text);
                    assert(highlights.deep_view() =~= seq![next.highlight]);
                    index.insert(clipping.book_title.clone(), books.len());
                    books.push(BookGroup { title: clipping.book_title, highlights });
                },
            }
        }
        i += 1;
    }
    assert(records.take(i as int) =~= records);
    books
}

} // verus!
