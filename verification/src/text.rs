//! Character-level vocabulary shared by every stage: whitespace, trimming,
//! and occurrences of one text inside another.
//!
//! Texts are modelled as `Seq<char>`, the view of `str` and `String`. The
//! executable helpers work on a `&[char]` so that every position is reached
//! in constant time.

use vstd::prelude::*;
use vstd::string::StringSliceAdditionalSpecFns;
use vstd::utf8::{
    encode_scalar, encode_utf8, encode_utf8_decode_utf8, encode_utf8_first_scalar,
    encode_utf8_valid_utf8, is_char_boundary, pop_first_scalar,
};

verus! {

/// Whether `c` carries the Unicode `White_Space` property: the controls from
/// tab to carriage return, the space, next line, the no-break spaces, the
/// Ogham space mark, the spaces of fixed width, the line and paragraph
/// separators, the medium mathematical space and the ideographic space.
pub open spec fn white_space(c: char) -> bool {
    let code = c as u32;
    ||| 0x0009 <= code <= 0x000d
    ||| code == 0x0020
    ||| code == 0x0085
    ||| code == 0x00a0
    ||| code == 0x1680
    ||| 0x2000 <= code <= 0x200a
    ||| code == 0x2028
    ||| code == 0x2029
    ||| code == 0x202f
    ||| code == 0x205f
    ||| code == 0x3000
}

/// `char::is_whitespace` is true exactly of the characters with the Unicode
/// `White_Space` property, which `white_space` lists.
pub assume_specification[ char::is_whitespace ](c: char) -> (b: bool)
    ensures
        b == white_space(c),
;

/// `String::push` appends one character to the end of the string.
pub assume_specification[ String::push ](s: &mut String, ch: char)
    ensures
        final(s)@ == old(s)@.push(ch),
;

/// Every character of `s` is whitespace (so the empty text is blank).
pub open spec fn is_blank(s: Seq<char>) -> bool {
    forall|i: int| 0 <= i < s.len() ==> white_space(#[trigger] s[i])
}

/// How many whitespace characters `s` starts with.
pub open spec fn leading_blanks(s: Seq<char>) -> nat
    decreases s.len(),
{
    if s.len() > 0 && white_space(s.first()) {
        1 + leading_blanks(s.drop_first())
    } else {
        0
    }
}

/// How many whitespace characters `s` ends with.
pub open spec fn trailing_blanks(s: Seq<char>) -> nat
    decreases s.len(),
{
    if s.len() > 0 && white_space(s.last()) {
        1 + trailing_blanks(s.drop_last())
    } else {
        0
    }
}

/// `s` without its leading whitespace.
pub open spec fn trim_start(s: Seq<char>) -> Seq<char> {
    s.skip(leading_blanks(s) as int)
}

/// `s` without its trailing whitespace.
pub open spec fn trim_end(s: Seq<char>) -> Seq<char> {
    s.take(s.len() - trailing_blanks(s))
}

/// `s` without leading and trailing whitespace.
pub open spec fn trim(s: Seq<char>) -> Seq<char> {
    trim_end(trim_start(s))
}

/// The whitespace-insensitive form of `s`: its characters that are not
/// whitespace, in order.
pub open spec fn squeeze(s: Seq<char>) -> Seq<char> {
    s.filter(|c: char| !white_space(c))
}

/// `pat` stands in `s` at position `i`.
pub open spec fn occurs_at(s: Seq<char>, pat: Seq<char>, i: int) -> bool {
    &&& 0 <= i
    &&& i + pat.len() <= s.len()
    &&& s.subrange(i, i + pat.len()) == pat
}

/// `pat` stands somewhere in `s`.
pub open spec fn contains(s: Seq<char>, pat: Seq<char>) -> bool {
    exists|i: int| occurs_at(s, pat, i)
}

/// `pat` stands in `s` at `i` and nowhere before.
pub open spec fn is_first_occurrence(s: Seq<char>, pat: Seq<char>, i: int) -> bool {
    &&& occurs_at(s, pat, i)
    &&& forall|j: int| 0 <= j < i ==> !occurs_at(s, pat, j)
}

/// The leftmost position at which `pat` stands in `s`, if there is one.
pub open spec fn first_occurrence(s: Seq<char>, pat: Seq<char>) -> Option<int> {
    if exists|i: int| is_first_occurrence(s, pat, i) {
        Some(choose|i: int| is_first_occurrence(s, pat, i))
    } else {
        None
    }
}

/// The characters of `s`, one per element.
pub fn to_chars(s: &str) -> (chars: Vec<char>)
    ensures
        chars@ == s@,
{
    let mut chars: Vec<char> = Vec::new();
    for c in it: s.chars()
        invariant
            it.seq() == s@,
            chars@ == it.seq().take(it.index()),
    {
        chars.push(c);
    }
    chars
}

/// Cuts `s` in two after its first `k` characters, in time that grows with
/// `k` and not with what follows.
pub(crate) fn split_at_char<'a>(s: &'a str, k: usize) -> (parts: (&'a str, &'a str))
    requires
        k <= s@.len(),
    ensures
        parts.0@ == s@.take(k as int),
        parts.1@ == s@.skip(k as int),
{
    let head = s.substring_char(0, k);
    let mid = head.as_bytes().len();
    let ghost before = s@.take(k as int);
    let ghost after = s@.skip(k as int);
    proof {
        assert(s@ == before + after);
        lemma_encoding_of_concat(before, after);
        lemma_boundary_after_prefix(before, after);
    }
    let (_, tail) = s.split_at(mid);
    proof {
        assert(tail.spec_bytes() =~= encode_utf8(after));
        encode_utf8_decode_utf8(tail@);
        encode_utf8_decode_utf8(after);
    }
    (head, tail)
}

/// The first position in `from..to` that holds no whitespace, or `to`.
pub(crate) fn skip_blanks(chars: &[char], from: usize, to: usize) -> (at: usize)
    requires
        from <= to <= chars@.len(),
    ensures
        from <= at <= to,
        at - from == leading_blanks(chars@.subrange(from as int, to as int)),
{
    let mut at: usize = from;
    while at < to && chars[at].is_whitespace()
        invariant
            from <= at <= to <= chars@.len(),
            forall|j: int| from <= j < at ==> white_space(#[trigger] chars@[j]),
        decreases to - at,
    {
        at += 1;
    }
    proof {
        lemma_leading_blanks(chars@.subrange(from as int, to as int), at - from);
    }
    at
}

/// The end of the part of `from..to` that is left when trailing whitespace
/// is cut off.
pub(crate) fn skip_blanks_back(chars: &[char], from: usize, to: usize) -> (end: usize)
    requires
        from <= to <= chars@.len(),
    ensures
        from <= end <= to,
        to - end == trailing_blanks(chars@.subrange(from as int, to as int)),
{
    let mut end: usize = to;
    while end > from && chars[end - 1].is_whitespace()
        invariant
            from <= end <= to <= chars@.len(),
            forall|j: int| end <= j < to ==> white_space(#[trigger] chars@[j]),
        decreases end - from,
    {
        end -= 1;
    }
    proof {
        lemma_trailing_blanks(chars@.subrange(from as int, to as int), to - end);
    }
    end
}

/// Whether `from..to` holds nothing but whitespace.
pub(crate) fn is_blank_range(chars: &[char], from: usize, to: usize) -> (blank: bool)
    requires
        from <= to <= chars@.len(),
    ensures
        blank == is_blank(chars@.subrange(from as int, to as int)),
{
    let at = skip_blanks(chars, from, to);
    proof {
        lemma_blank_is_all_leading(chars@.subrange(from as int, to as int));
    }
    at == to
}

/// The bounds of `from..to` once whitespace is trimmed from both ends.
pub(crate) fn trim_bounds(chars: &[char], from: usize, to: usize) -> (bounds: (usize, usize))
    requires
        from <= to <= chars@.len(),
    ensures
        from <= bounds.0 <= bounds.1 <= to,
        chars@.subrange(bounds.0 as int, bounds.1 as int) == trim(
            chars@.subrange(from as int, to as int),
        ),
{
    let start = skip_blanks(chars, from, to);
    let end = skip_blanks_back(chars, start, to);
    proof {
        let whole = chars@.subrange(from as int, to as int);
        assert(trim_start(whole) =~= chars@.subrange(start as int, to as int));
    }
    (start, end)
}

/// Whether `pat` stands in `hay` at `at`.
pub fn matches_at(hay: &[char], pat: &[char], at: usize) -> (found: bool)
    ensures
        found == occurs_at(hay@, pat@, at as int),
{
    let n = hay.len();
    let m = pat.len();
    if at > n || m > n - at {
        return false;
    }
    let mut k: usize = 0;
    while k < m
        invariant
            n == hay@.len(),
            m == pat@.len(),
            at + m <= n,
            k <= m,
            forall|j: int| 0 <= j < k ==> hay@[at + j] == pat@[j],
        decreases m - k,
    {
        if hay[at + k] != pat[k] {
            return false;
        }
        k += 1;
    }
    assert(hay@.subrange(at as int, at + m) =~= pat@);
    true
}

/// The leftmost place at or after `from` where `pat` stands in `hay`.
///
/// The answer is a position in `hay`; the contract states it against the part
/// of `hay` that starts at `from`.
pub(crate) fn find(hay: &[char], pat: &[char], from: usize) -> (hit: Option<usize>)
    requires
        from <= hay@.len(),
    ensures
        match hit {
            Some(at) => {
                &&& from <= at
                &&& at + pat@.len() <= hay@.len()
                &&& first_occurrence(hay@.skip(from as int), pat@) == Some(at - from)
            },
            None => first_occurrence(hay@.skip(from as int), pat@) is None,
        },
{
    let n = hay.len();
    let m = pat.len();
    let ghost rest = hay@.skip(from as int);
    if m > n - from {
        proof {
            assert forall|j: int| !occurs_at(rest, pat@, j) by {}
            lemma_no_occurrence(rest, pat@);
        }
        return None;
    }
    let last = n - m;
    let mut at: usize = from;
    while at <= last
        invariant
            n == hay@.len(),
            m == pat@.len(),
            last == n - m,
            rest == hay@.skip(from as int),
            from <= at <= last + 1,
            forall|j: int| from <= j < at ==> !occurs_at(hay@, pat@, j),
        decreases last + 1 - at,
    {
        if matches_at(hay, pat, at) {
            proof {
                assert forall|j: int| 0 <= j < at - from implies !occurs_at(rest, pat@, j) by {
                    lemma_occurs_in_suffix(hay@, pat@, from as int, j);
                }
                lemma_occurs_in_suffix(hay@, pat@, from as int, at - from);
                lemma_first_occurrence(rest, pat@, at - from);
            }
            return Some(at);
        }
        proof {
            if m == 0 {
                assert(hay@.subrange(at as int, at + m) =~= pat@);
            }
        }
        at += 1;
    }
    proof {
        assert forall|j: int| !occurs_at(rest, pat@, j) by {
            lemma_occurs_in_suffix(hay@, pat@, from as int, j);
        }
        lemma_no_occurrence(rest, pat@);
    }
    None
}

/// Whether `pat` stands somewhere in `hay`.
pub fn contains_chars(hay: &[char], pat: &[char]) -> (found: bool)
    ensures
        found == contains(hay@, pat@),
{
    let hit = find(hay, pat, 0);
    proof {
        assert(hay@.skip(0) =~= hay@);
        lemma_no_occurrence(hay@, pat@);
    }
    hit.is_some()
}

/// The characters of `chars` that are not whitespace, in order.
pub fn remove_whitespace(chars: &[char]) -> (kept: Vec<char>)
    ensures
        kept@ == squeeze(chars@),
{
    let mut kept: Vec<char> = Vec::new();
    let mut i: usize = 0;
    proof {
        reveal(Seq::filter);
    }
    while i < chars.len()
        invariant
            i <= chars@.len(),
            kept@ == squeeze(chars@.take(i as int)),
        decreases chars@.len() - i,
    {
        let c = chars[i];
        proof {
            let pred = |c: char| !white_space(c);
            chars@.take(i as int).lemma_filter_push(c, pred);
            assert(chars@.take(i as int).push(c) =~= chars@.take(i + 1));
        }
        if !c.is_whitespace() {
            kept.push(c);
        }
        i += 1;
    }
    assert(chars@.take(i as int) =~= chars@);
    kept
}

/// Two texts in a row are encoded as the first, then the second.
proof fn lemma_encoding_of_concat(a: Seq<char>, b: Seq<char>)
    ensures
        encode_utf8(a + b) == encode_utf8(a) + encode_utf8(b),
    decreases a.len(),
{
    if a.len() == 0 {
        assert(a + b =~= b);
        assert(encode_utf8(a) + encode_utf8(b) =~= encode_utf8(b));
    } else {
        assert((a + b).drop_first() =~= a.drop_first() + b);
        lemma_encoding_of_concat(a.drop_first(), b);
        assert(encode_utf8(a + b) =~= encode_utf8(a) + encode_utf8(b));
    }
}

/// In the encoding of two texts in a row, a character begins where the
/// encoding of the first ends.
proof fn lemma_boundary_after_prefix(a: Seq<char>, b: Seq<char>)
    ensures
        is_char_boundary(encode_utf8(a + b), encode_utf8(a).len() as int),
    decreases a.len(),
{
    let bytes = encode_utf8(a + b);
    encode_utf8_valid_utf8(a + b);
    if a.len() > 0 {
        let rest = a.drop_first() + b;
        assert((a + b).drop_first() =~= rest);
        encode_utf8_first_scalar(a + b);
        lemma_encoding_of_concat(a, b);
        lemma_boundary_after_prefix(a.drop_first(), b);
        assert(pop_first_scalar(bytes) =~= encode_utf8(rest));
        assert(encode_utf8(a).len() == encode_scalar(a[0] as u32).len() + encode_utf8(
            a.drop_first(),
        ).len());
    }
}

/// Where the leading whitespace ends: everything before is whitespace, and
/// the character there, if there is one, is not.
pub proof fn lemma_leading_stops(s: Seq<char>)
    ensures
        leading_blanks(s) <= s.len(),
        leading_blanks(s) < s.len() ==> !white_space(s[leading_blanks(s) as int]),
        forall|j: int| 0 <= j < leading_blanks(s) ==> white_space(#[trigger] s[j]),
    decreases s.len(),
{
    if s.len() > 0 && white_space(s.first()) {
        let rest = s.drop_first();
        lemma_leading_stops(rest);
        assert forall|j: int| 0 <= j < leading_blanks(s) implies white_space(#[trigger] s[j]) by {
            if j > 0 {
                assert(white_space(rest[j - 1]));
            }
        }
    }
}

/// Where the trailing whitespace begins: everything after is whitespace, and
/// the character before, if there is one, is not.
pub proof fn lemma_trailing_stops(s: Seq<char>)
    ensures
        trailing_blanks(s) <= s.len(),
        trailing_blanks(s) < s.len() ==> !white_space(s[s.len() - trailing_blanks(s) - 1]),
        forall|j: int| s.len() - trailing_blanks(s) <= j < s.len() ==> white_space(#[trigger] s[j]),
    decreases s.len(),
{
    if s.len() > 0 && white_space(s.last()) {
        let rest = s.drop_last();
        lemma_trailing_stops(rest);
        assert forall|j: int| s.len() - trailing_blanks(s) <= j < s.len() implies white_space(
            #[trigger] s[j],
        ) by {
            if j < s.len() - 1 {
                assert(white_space(rest[j]));
            }
        }
    }
}

/// A run of `k` whitespace characters at the start that ends the text, or
/// ends before a character that is none, is the leading whitespace.
pub proof fn lemma_leading_blanks(s: Seq<char>, k: int)
    requires
        0 <= k <= s.len(),
        forall|j: int| 0 <= j < k ==> white_space(#[trigger] s[j]),
        k < s.len() ==> !white_space(s[k]),
    ensures
        leading_blanks(s) == k,
{
    lemma_leading_stops(s);
    let found = leading_blanks(s) as int;
    if found < k {
        assert(white_space(s[found]));
    } else if k < found {
        assert(white_space(s[k]));
    }
}

/// A run of `k` whitespace characters at the end that begins the text, or
/// begins after a character that is none, is the trailing whitespace.
pub proof fn lemma_trailing_blanks(s: Seq<char>, k: int)
    requires
        0 <= k <= s.len(),
        forall|j: int| s.len() - k <= j < s.len() ==> white_space(#[trigger] s[j]),
        k < s.len() ==> !white_space(s[s.len() - k - 1]),
    ensures
        trailing_blanks(s) == k,
{
    lemma_trailing_stops(s);
    let found = trailing_blanks(s) as int;
    if found < k {
        assert(white_space(s[s.len() - found - 1]));
    } else if k < found {
        assert(white_space(s[s.len() - k - 1]));
    }
}

/// A text is blank exactly when all of it is leading whitespace.
pub proof fn lemma_blank_is_all_leading(s: Seq<char>)
    ensures
        is_blank(s) <==> leading_blanks(s) == s.len(),
{
    lemma_leading_stops(s);
    if is_blank(s) && leading_blanks(s) < s.len() {
        assert(white_space(s[leading_blanks(s) as int]));
    }
}

/// Trimming leaves nothing of a blank text, and something of every other.
pub proof fn lemma_trim_of_blank(s: Seq<char>)
    ensures
        trim(s).len() == 0 <==> is_blank(s),
{
    let t = trim_start(s);
    lemma_leading_stops(s);
    lemma_blank_is_all_leading(s);
    lemma_trailing_stops(t);
    if t.len() > 0 && trailing_blanks(t) == t.len() {
        assert(white_space(t[0]));
    }
}

/// Trimming a trimmed text changes nothing.
pub proof fn lemma_trim_is_idempotent(s: Seq<char>)
    ensures
        trim(trim(s)) == trim(s),
{
    let t = trim_start(s);
    let u = trim(s);
    lemma_leading_stops(s);
    lemma_trailing_stops(t);
    if u.len() > 0 {
        assert(u[0] == t[0]);
        assert(u.last() == t[t.len() - trailing_blanks(t) - 1]);
        lemma_leading_blanks(u, 0);
        lemma_trailing_blanks(u, 0);
    }
    assert(trim_start(u) =~= u);
    assert(trim_end(u) =~= u);
}

/// An occurrence in the part of `s` from `from` on is an occurrence in `s`,
/// `from` places further to the right.
pub proof fn lemma_occurs_in_suffix(s: Seq<char>, pat: Seq<char>, from: int, j: int)
    requires
        0 <= from <= s.len(),
    ensures
        occurs_at(s.skip(from), pat, j) <==> 0 <= j && occurs_at(s, pat, from + j),
{
    if 0 <= j && from + j + pat.len() <= s.len() {
        assert(s.skip(from).subrange(j, j + pat.len()) =~= s.subrange(
            from + j,
            from + j + pat.len(),
        ));
    }
}

/// An occurrence in the first `n` characters of `s` is an occurrence in `s`
/// that ends within them.
pub proof fn lemma_occurs_in_prefix(s: Seq<char>, pat: Seq<char>, n: int, j: int)
    requires
        0 <= n <= s.len(),
    ensures
        occurs_at(s.take(n), pat, j) <==> occurs_at(s, pat, j) && j + pat.len() <= n,
{
    if 0 <= j && j + pat.len() <= n {
        assert(s.take(n).subrange(j, j + pat.len()) =~= s.subrange(j, j + pat.len()));
    }
}

/// A position at which `pat` stands, with none before it, is the first
/// occurrence.
pub proof fn lemma_first_occurrence(s: Seq<char>, pat: Seq<char>, i: int)
    requires
        is_first_occurrence(s, pat, i),
    ensures
        first_occurrence(s, pat) == Some(i),
{
    let chosen = choose|k: int| is_first_occurrence(s, pat, k);
    if chosen < i {
        assert(!occurs_at(s, pat, chosen));
    } else if i < chosen {
        assert(!occurs_at(s, pat, i));
    }
}

/// At or below any occurrence there is a leftmost one.
pub proof fn lemma_leftmost_exists(s: Seq<char>, pat: Seq<char>, i: int)
    requires
        occurs_at(s, pat, i),
    ensures
        exists|k: int| 0 <= k <= i && is_first_occurrence(s, pat, k),
    decreases i,
{
    if exists|j: int| 0 <= j < i && occurs_at(s, pat, j) {
        let j = choose|j: int| 0 <= j < i && occurs_at(s, pat, j);
        lemma_leftmost_exists(s, pat, j);
        let k = choose|k: int| 0 <= k <= j && is_first_occurrence(s, pat, k);
        assert(0 <= k <= i && is_first_occurrence(s, pat, k));
    } else {
        assert(is_first_occurrence(s, pat, i));
    }
}

/// There is a first occurrence exactly where there is an occurrence.
pub proof fn lemma_no_occurrence(s: Seq<char>, pat: Seq<char>)
    ensures
        first_occurrence(s, pat) is None <==> !contains(s, pat),
{
    if contains(s, pat) {
        let i = choose|i: int| occurs_at(s, pat, i);
        lemma_leftmost_exists(s, pat, i);
    } else {
        assert forall|i: int| !is_first_occurrence(s, pat, i) by {
            assert(!occurs_at(s, pat, i));
        }
    }
}

} // verus!
