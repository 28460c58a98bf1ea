//! Texts as sequences of characters: whitespace and trimming, equality and
//! order, and the passage between strings and their characters.

use vstd::prelude::*;

verus! {

/// The views of the items of a sequence, in their order.
pub open spec fn views<T: View>(items: Seq<T>) -> Seq<T::V> {
    Seq::new(items.len(), |i: int| items[i]@)
}

/// The text of an optional string.
pub open spec fn text_of(s: Option<String>) -> Option<Seq<char>> {
    match s {
        Some(t) => Some(t@),
        None => None,
    }
}

/// The characters that carry the Unicode `White_Space` property.
pub open spec fn is_whitespace(c: char) -> bool {
    ||| '\u{9}' <= c <= '\u{D}'
    ||| c == ' '
    ||| c == '\u{85}'
    ||| c == '\u{A0}'
    ||| c == '\u{1680}'
    ||| '\u{2000}' <= c <= '\u{200A}'
    ||| c == '\u{2028}'
    ||| c == '\u{2029}'
    ||| c == '\u{202F}'
    ||| c == '\u{205F}'
    ||| c == '\u{3000}'
}

/// Decides whether `c` is a whitespace character.
pub fn char_is_whitespace(c: char) -> (b: bool)
    ensures
        b == is_whitespace(c),
{
    ('\u{9}' <= c && c <= '\u{D}') || c == ' ' || c == '\u{85}' || c == '\u{A0}' || c
        == '\u{1680}' || ('\u{2000}' <= c && c <= '\u{200A}') || c == '\u{2028}' || c
        == '\u{2029}' || c == '\u{202F}' || c == '\u{205F}' || c == '\u{3000}'
}

/// Copies the characters of `s` into a vector, so that they can be indexed.
pub fn to_chars(s: &str) -> (v: Vec<char>)
    ensures
        v@ == s@,
{
    let mut v: Vec<char> = Vec::new();
    for c in it: s.chars()
        invariant
            v@ == it.seq().take(it.index()),
            it.seq() == s@,
    {
        v.push(c);
    }
    v
}

/// `String::push` of the standard library: the string afterwards is the string
/// before with `c` added at its end.
pub assume_specification[ String::push ](s: &mut String, c: char)
    ensures
        final(s)@ == old(s)@.push(c),
;

/// Appends the characters `chars[from..to]` to `out`.
pub fn append_chars(out: &mut String, chars: &Vec<char>, from: usize, to: usize)
    requires
        from <= to <= chars@.len(),
    ensures
        final(out)@ == old(out)@ + chars@.subrange(from as int, to as int),
{
    let mut i: usize = from;
    while i < to
        invariant
            from <= i <= to <= chars@.len(),
            out@ == old(out)@ + chars@.subrange(from as int, i as int),
        decreases to - i,
    {
        out.push(chars[i]);
        i += 1;
        assert(out@ =~= old(out)@ + chars@.subrange(from as int, i as int));
    }
}

/// The index of the first character in `s[from..to]` that is not whitespace,
/// or `to` where there is none.
pub open spec fn skip_whitespace(s: Seq<char>, from: int, to: int) -> int
    decreases to - from,
{
    if from >= to || from < 0 || to > s.len() {
        to
    } else if is_whitespace(s[from]) {
        skip_whitespace(s, from + 1, to)
    } else {
        from
    }
}

/// The end of `s[from..to]` once its trailing whitespace is cut off.
pub open spec fn drop_trailing_whitespace(s: Seq<char>, from: int, to: int) -> int
    decreases to - from,
{
    if from >= to || from < 0 || to > s.len() {
        from
    } else if is_whitespace(s[to - 1]) {
        drop_trailing_whitespace(s, from, to - 1)
    } else {
        to
    }
}

/// `s[from..to]` without leading and trailing whitespace.
pub open spec fn trimmed_range(s: Seq<char>, from: int, to: int) -> Seq<char> {
    let a = skip_whitespace(s, from, to);
    s.subrange(a, drop_trailing_whitespace(s, a, to))
}

/// `s` without trailing whitespace.
pub open spec fn trim_end(s: Seq<char>) -> Seq<char> {
    s.subrange(0, drop_trailing_whitespace(s, 0, s.len() as int))
}

/// Skipping whitespace stops inside the range, behind whitespace alone, and
/// at a character that is none.
pub proof fn lemma_skip_whitespace(s: Seq<char>, from: int, to: int)
    requires
        0 <= from <= to <= s.len(),
    ensures
        from <= skip_whitespace(s, from, to) <= to,
        forall|k: int| from <= k < skip_whitespace(s, from, to) ==> is_whitespace(s[k]),
        skip_whitespace(s, from, to) < to ==> !is_whitespace(s[skip_whitespace(s, from, to)]),
    decreases to - from,
{
    if from < to && is_whitespace(s[from]) {
        lemma_skip_whitespace(s, from + 1, to);
    }
}

/// Dropping trailing whitespace stops inside the range, before whitespace
/// alone, and behind a character that is none.
pub proof fn lemma_drop_trailing_whitespace(s: Seq<char>, from: int, to: int)
    requires
        0 <= from <= to <= s.len(),
    ensures
        from <= drop_trailing_whitespace(s, from, to) <= to,
        forall|k: int| drop_trailing_whitespace(s, from, to) <= k < to ==> is_whitespace(s[k]),
        from < drop_trailing_whitespace(s, from, to) ==> !is_whitespace(
            s[drop_trailing_whitespace(s, from, to) - 1],
        ),
    decreases to - from,
{
    if from < to && is_whitespace(s[to - 1]) {
        lemma_drop_trailing_whitespace(s, from, to - 1);
    }
}

/// What trimming leaves neither begins nor ends with whitespace.
pub proof fn lemma_trimmed_range(s: Seq<char>, from: int, to: int)
    requires
        0 <= from <= to <= s.len(),
    ensures
        trimmed_range(s, from, to).len() > 0 ==> !is_whitespace(trimmed_range(s, from, to)[0])
            && !is_whitespace(trimmed_range(s, from, to).last()),
        forall|k: int|
            0 <= k < trimmed_range(s, from, to).len() ==> exists|i: int|
                from <= i < to && s[i] == #[trigger] trimmed_range(s, from, to)[k],
{
    lemma_skip_whitespace(s, from, to);
    let a = skip_whitespace(s, from, to);
    lemma_drop_trailing_whitespace(s, a, to);
    let b = drop_trailing_whitespace(s, a, to);
    let t = trimmed_range(s, from, to);
    assert forall|k: int| 0 <= k < t.len() implies exists|i: int|
        from <= i < to && s[i] == #[trigger] t[k] by {
        assert(s[a + k] == t[k]);
    }
}

/// Finds the bounds of `chars[from..to]` without its surrounding whitespace.
pub fn trim_bounds(chars: &Vec<char>, from: usize, to: usize) -> (bounds: (usize, usize))
    requires
        from <= to <= chars@.len(),
    ensures
        bounds.0 == skip_whitespace(chars@, from as int, to as int),
        bounds.1 == drop_trailing_whitespace(chars@, bounds.0 as int, to as int),
        from <= bounds.0 <= bounds.1 <= to,
{
    let mut a: usize = from;
    while a < to && char_is_whitespace(chars[a])
        invariant
            from <= a <= to <= chars@.len(),
            skip_whitespace(chars@, from as int, to as int) == skip_whitespace(
                chars@,
                a as int,
                to as int,
            ),
        decreases to - a,
    {
        a += 1;
    }
    let mut b: usize = to;
    while a < b && char_is_whitespace(chars[b - 1])
        invariant
            a <= b <= to <= chars@.len(),
            drop_trailing_whitespace(chars@, a as int, to as int) == drop_trailing_whitespace(
                chars@,
                a as int,
                b as int,
            ),
        decreases b - a,
    {
        b -= 1;
    }
    (a, b)
}

/// Writes `s` without its trailing whitespace at the end of `out`.
pub fn append_trim_end(out: &mut String, s: &str)
    ensures
        final(out)@ == old(out)@ + trim_end(s@),
{
    let chars = to_chars(s);
    let mut b: usize = chars.len();
    while 0 < b && char_is_whitespace(chars[b - 1])
        invariant
            b <= chars@.len(),
            drop_trailing_whitespace(chars@, 0, chars@.len() as int) == drop_trailing_whitespace(
                chars@,
                0,
                b as int,
            ),
        decreases b,
    {
        b -= 1;
    }
    append_chars(out, &chars, 0, b);
}

/// Decides whether two strings hold the same characters.
pub fn str_eq(a: &str, b: &str) -> (same: bool)
    ensures
        same == (a@ == b@),
{
    let x = to_chars(a);
    let y = to_chars(b);
    if x.len() != y.len() {
        return false;
    }
    let mut i: usize = 0;
    while i < x.len()
        invariant
            i <= x@.len(),
            x@.len() == y@.len(),
            x@ == a@,
            y@ == b@,
            forall|k: int| 0 <= k < i ==> x@[k] == y@[k],
        decreases x@.len() - i,
    {
        if x[i] != y[i] {
            return false;
        }
        i += 1;
    }
    assert(x@ =~= y@);
    true
}

/// `a` comes before `b` from position `from` on, given that they agree
/// before it: at the first position where they differ `a` holds the smaller
/// character, or `a` ends first.
pub open spec fn precedes_from(a: Seq<char>, b: Seq<char>, from: int) -> bool
    decreases a.len() - from,
{
    if from < 0 || from >= b.len() {
        false
    } else if from >= a.len() {
        true
    } else if a[from] != b[from] {
        a[from] < b[from]
    } else {
        precedes_from(a, b, from + 1)
    }
}

/// `a` comes strictly before `b` in lexicographic order of their characters.
pub open spec fn precedes(a: Seq<char>, b: Seq<char>) -> bool {
    precedes_from(a, b, 0)
}

/// Decides whether `a` comes strictly before `b` in lexicographic order.
pub fn str_precedes(a: &str, b: &str) -> (before: bool)
    ensures
        before == precedes(a@, b@),
{
    let x = to_chars(a);
    let y = to_chars(b);
    let mut i: usize = 0;
    while i < x.len() && i < y.len()
        invariant
            i <= x@.len(),
            i <= y@.len(),
            x@ == a@,
            y@ == b@,
            precedes(a@, b@) == precedes_from(a@, b@, i as int),
        decreases x@.len() - i,
    {
        if x[i] != y[i] {
            return x[i] < y[i];
        }
        i += 1;
    }
    i < y.len()
}

} // verus!
