//! Metadata extraction from the text of a component file.
//!
//! A file may begin with a block of metadata between two `---` lines. This
//! module finds that block and, for files whose metadata gives no description,
//! the first paragraph of the body.

use crate::text::{
    append_chars, is_whitespace, lemma_trimmed_range, text_of, to_chars, trim_bounds,
    trimmed_range,
};
use vstd::prelude::*;

verus! {

/// The metadata of one component file, as its front matter declares it.
#[derive(Debug, Clone, PartialEq, Eq)]
pub struct FrontMatter {
    /// What the component is; a file may leave it to its first paragraph.
    pub description: Option<String>,
    /// The category under which the component is listed.
    pub category: String,
}

/// What a `FrontMatter` holds, as texts.
pub struct FrontMatterView {
    pub description: Option<Seq<char>>,
    pub category: Seq<char>,
}

impl View for FrontMatter {
    type V = FrontMatterView;

    open spec fn view(&self) -> FrontMatterView {
        FrontMatterView { description: text_of(self.description), category: self.category@ }
    }
}

/// The text begins with `---` and a line terminator.
pub open spec fn has_opening(s: Seq<char>) -> bool {
    &&& s.len() >= 4
    &&& s[0] == '-'
    &&& s[1] == '-'
    &&& s[2] == '-'
    &&& (s[3] == '\n' || s[3] == '\r')
}

/// Where the block's content begins: behind the opening line's terminator.
pub open spec fn body_start(s: Seq<char>) -> int {
    if s.len() > 4 && s[3] == '\r' && s[4] == '\n' {
        5
    } else {
        4
    }
}

/// A closing delimiter stands at `q`: a line feed followed by `---`.
pub open spec fn closing_at(s: Seq<char>, q: int) -> bool {
    &&& 0 <= q
    &&& q + 3 < s.len()
    &&& s[q] == '\n'
    &&& s[q + 1] == '-'
    &&& s[q + 2] == '-'
    &&& s[q + 3] == '-'
}

/// The position of the first closing delimiter at or behind `from`.
pub open spec fn find_closing(s: Seq<char>, from: int) -> Option<int>
    decreases s.len() - from,
{
    if from < 0 || from + 3 >= s.len() {
        None
    } else if closing_at(s, from) {
        Some(from)
    } else {
        find_closing(s, from + 1)
    }
}

/// Where the block's content ends when its closing delimiter stands at `q`:
/// before the line terminator, which may be `\n` or `\r\n`.
pub open spec fn body_end(s: Seq<char>, q: int) -> int {
    if q > 3 && s[q - 1] == '\r' {
        q - 1
    } else {
        q
    }
}

/// The content between the delimiters when the closing one stands at `q`.
pub open spec fn body_between(s: Seq<char>, q: int) -> Seq<char> {
    if body_start(s) < body_end(s, q) {
        s.subrange(body_start(s), body_end(s, q))
    } else {
        Seq::empty()
    }
}

/// The front matter of a text: what stands between the opening delimiter at
/// the very start and the first closing delimiter, if both are there.
pub open spec fn front_matter(s: Seq<char>) -> Option<Seq<char>> {
    if !has_opening(s) {
        None
    } else {
        match find_closing(s, 3) {
            None => None,
            Some(q) => Some(body_between(s, q)),
        }
    }
}

/// What `find_closing` finds is a closing delimiter, and the first one.
pub proof fn lemma_find_closing(s: Seq<char>, from: int)
    requires
        0 <= from,
    ensures
        match find_closing(s, from) {
            Some(q) => from <= q && closing_at(s, q) && forall|j: int|
                from <= j < q ==> !closing_at(s, j),
            None => forall|j: int| from <= j ==> !closing_at(s, j),
        },
    decreases s.len() - from,
{
    if from + 3 < s.len() && !closing_at(s, from) {
        lemma_find_closing(s, from + 1);
    }
}

/// A text has front matter exactly where it opens with a delimiter and a
/// closing delimiter follows.
pub proof fn lemma_front_matter_found(s: Seq<char>)
    ensures
        front_matter(s) is Some <==> has_opening(s) && exists|q: int| 3 <= q && closing_at(s, q),
{
    lemma_find_closing(s, 3);
}

/// A text that is shorter than the opening delimiter and its line terminator
/// has no front matter; the empty text is one.
pub proof fn lemma_front_matter_of_short_text(s: Seq<char>)
    requires
        s.len() < 4,
    ensures
        front_matter(s) is None,
{
}

/// A text that holds `body` as its front matter: `---`, a line feed, `body`,
/// a line feed, `---`, and `rest` behind it.
pub open spec fn framed(body: Seq<char>, rest: Seq<char>) -> Seq<char> {
    seq!['-', '-', '-', '\n'] + body + seq!['\n', '-', '-', '-'] + rest
}

/// A text that can be framed and found again: no line of it begins with
/// `---`, which would close the block early, and it does not end in a
/// carriage return, which would count as part of the line terminator.
pub open spec fn can_be_framed(body: Seq<char>) -> bool {
    &&& forall|j: int| !closing_at(seq!['\n'] + body, j)
    &&& body.len() == 0 || body.last() != '\r'
}

/// Framing and extracting: the front matter of a text that frames `body` is
/// `body`, with no line terminator at either end.
pub proof fn lemma_front_matter_of_framed_body(body: Seq<char>, rest: Seq<char>)
    requires
        can_be_framed(body),
    ensures
        front_matter(framed(body, rest)) == Some(body),
{
    let s = framed(body, rest);
    let n = body.len() as int;
    let lead = seq!['\n'] + body;
    assert(s.len() == n + 8 + rest.len());
    assert forall|k: int| 0 <= k <= n implies s[3 + k] == lead[k] by {}
    assert(s[n + 4] == '\n' && s[n + 5] == '-' && s[n + 6] == '-' && s[n + 7] == '-');
    assert(closing_at(s, n + 4));
    assert forall|j: int| 3 <= j < n + 4 implies !closing_at(s, j) by {
        if closing_at(s, j) {
            if j + 3 <= n + 3 {
                assert(lead[j - 3] == s[j]);
                assert(lead[j - 2] == s[j + 1]);
                assert(lead[j - 1] == s[j + 2]);
                assert(lead[j] == s[j + 3]);
                assert(closing_at(lead, j - 3));
            }
        }
    }
    lemma_find_closing(s, 3);
    assert(find_closing(s, 3) == Some(n + 4));
    if n > 0 {
        assert(s[n + 3] == lead[n]);
        assert(lead[n] == body.last());
    }
    assert(body_end(s, n + 4) == n + 4);
    assert(body_start(s) == 4);
    assert(body_between(s, n + 4) =~= body);
}

/// Decides whether the text opens with a front-matter delimiter.
fn has_opening_delimiter(chars: &Vec<char>) -> (b: bool)
    ensures
        b == has_opening(chars@),
{
    chars.len() >= 4 && chars[0] == '-' && chars[1] == '-' && chars[2] == '-' && (chars[3] == '\n'
        || chars[3] == '\r')
}

/// Finds the first closing delimiter behind the opening one.
fn locate_closing(chars: &Vec<char>) -> (found: Option<usize>)
    ensures
        match found {
            Some(q) => find_closing(chars@, 3) == Some(q as int) && 3 <= q && q + 3 < chars@.len(),
            None => find_closing(chars@, 3) is None,
        },
{
    let n = chars.len();
    let mut q: usize = 3;
    while q < n && n - q > 3
        invariant
            3 <= q,
            n == chars@.len(),
            find_closing(chars@, 3) == find_closing(chars@, q as int),
        decreases n - q,
    {
        if chars[q] == '\n' && chars[q + 1] == '-' && chars[q + 2] == '-' && chars[q + 3] == '-' {
            return Some(q);
        }
        q += 1;
    }
    None
}

/// Returns the front matter of `content`: the text between the opening `---`
/// line at its start and the first line that begins with `---` behind it,
/// without the line terminators on either side. There is none where the
/// text does not begin with `---` and a line terminator, or where no closing
/// delimiter follows.
pub fn extract_front_matter(content: &str) -> (block: Option<&str>)
    ensures
        match block {
            Some(b) => front_matter(content@) == Some(b@),
            None => front_matter(content@) is None,
        },
        block is Some <==> has_opening(content@) && exists|q: int|
            3 <= q && closing_at(content@, q),
        content@.len() < 4 ==> block is None,
        forall|body: Seq<char>, rest: Seq<char>|
            content@ == #[trigger] framed(body, rest) && can_be_framed(body)
                ==> (block matches Some(found) && found@ == body),
{
    proof {
        lemma_front_matter_found(content@);
        assert forall|body: Seq<char>, rest: Seq<char>|
            content@ == #[trigger] framed(body, rest) && can_be_framed(body) implies front_matter(
            content@,
        ) == Some(body) by {
            lemma_front_matter_of_framed_body(body, rest);
        }
    }
    let chars = to_chars(content);
    if !has_opening_delimiter(&chars) {
        return None;
    }
    match locate_closing(&chars) {
        None => None,
        Some(q) => {
            let start: usize = if chars.len() > 4 && chars[3] == '\r' && chars[4] == '\n' {
                5
            } else {
                4
            };
            let end: usize = if q > 3 && chars[q - 1] == '\r' {
                q - 1
            } else {
                q
            };
            if start < end {
                Some(content.substring_char(start, end))
            } else {
                let empty = content.substring_char(start, start);
                assert(empty@ =~= Seq::<char>::empty());
                Some(empty)
            }
        },
    }
}

/// The index of the first line feed at or behind `from`, or the length of the
/// text where there is none: the end of the line that `from` stands in.
pub open spec fn line_end(s: Seq<char>, from: int) -> int
    decreases s.len() - from,
{
    if from < 0 || from >= s.len() {
        s.len() as int
    } else if s[from] == '\n' {
        from
    } else {
        line_end(s, from + 1)
    }
}

/// The end of a line lies at or behind its start, at a line feed or at the
/// end of the text, and no line feed stands before it.
pub proof fn lemma_line_end_bounds(s: Seq<char>, from: int)
    requires
        0 <= from <= s.len(),
    ensures
        from <= line_end(s, from) <= s.len(),
        line_end(s, from) < s.len() ==> s[line_end(s, from)] == '\n',
        forall|j: int| from <= j < line_end(s, from) ==> s[j] != '\n',
    decreases s.len() - from,
{
    if from < s.len() && s[from] != '\n' {
        lemma_line_end_bounds(s, from + 1);
    }
}

/// The line that begins at `from`, without its surrounding whitespace.
pub open spec fn trimmed_line(s: Seq<char>, from: int) -> Seq<char> {
    trimmed_range(s, from, line_end(s, from))
}

/// A trimmed line that cannot belong to a paragraph: it is empty or a heading.
pub open spec fn is_break(line: Seq<char>) -> bool {
    line.len() == 0 || line[0] == '#'
}

/// What the lines from `from` on add to a paragraph that has begun: each
/// trimmed line behind one space, up to the first empty or heading line.
pub open spec fn paragraph_rest(s: Seq<char>, from: int) -> Seq<char>
    decreases s.len() + 1 - from,
    when 0 <= from
    via paragraph_rest_decreases
{
    if from >= s.len() {
        Seq::empty()
    } else {
        let line = trimmed_line(s, from);
        if is_break(line) {
            Seq::empty()
        } else {
            seq![' '] + line + paragraph_rest(s, line_end(s, from) + 1)
        }
    }
}

#[via_fn]
proof fn paragraph_rest_decreases(s: Seq<char>, from: int) {
    if 0 <= from < s.len() {
        lemma_line_end_bounds(s, from);
    }
}

/// The first paragraph among the lines from `from` on: the first line that is
/// neither empty nor a heading, and the lines that continue it.
pub open spec fn paragraph_from(s: Seq<char>, from: int) -> Option<Seq<char>>
    decreases s.len() + 1 - from,
    when 0 <= from
    via paragraph_from_decreases
{
    if from >= s.len() {
        None
    } else {
        let line = trimmed_line(s, from);
        if is_break(line) {
            paragraph_from(s, line_end(s, from) + 1)
        } else {
            Some(line + paragraph_rest(s, line_end(s, from) + 1))
        }
    }
}

#[via_fn]
proof fn paragraph_from_decreases(s: Seq<char>, from: int) {
    if 0 <= from < s.len() {
        lemma_line_end_bounds(s, from);
    }
}

/// Where the body of a text begins: at its start, or behind the line of the
/// closing delimiter where the text opens with a front-matter delimiter. A
/// block that is never closed takes the whole text.
pub open spec fn content_start(s: Seq<char>) -> int {
    if !has_opening(s) {
        0
    } else {
        match find_closing(s, 3) {
            None => s.len() as int,
            Some(q) => line_end(s, q + 1) + 1,
        }
    }
}

/// The body of a text does not begin before the text.
pub proof fn lemma_content_start_bounds(s: Seq<char>)
    ensures
        0 <= content_start(s),
{
    if has_opening(s) {
        lemma_find_closing(s, 3);
        match find_closing(s, 3) {
            Some(q) => {
                lemma_line_end_bounds(s, q + 1);
            },
            None => {},
        }
    }
}

/// The first paragraph of a text's body, joined into one line.
pub open spec fn first_paragraph(s: Seq<char>) -> Option<Seq<char>> {
    paragraph_from(s, content_start(s))
}

/// Every line of the text from `from` on is empty or a heading; `from`
/// counts as the start of a line.
pub open spec fn only_breaks_from(s: Seq<char>, from: int) -> bool {
    forall|p: int|
        from <= p < s.len() && (p == from || s[p - 1] == '\n') ==> is_break(
            #[trigger] trimmed_line(s, p),
        )
}

/// Where every line from `from` on is empty or a heading, there is no
/// paragraph among them.
pub proof fn lemma_no_paragraph_among_breaks(s: Seq<char>, from: int)
    requires
        0 <= from,
        only_breaks_from(s, from),
    ensures
        paragraph_from(s, from) is None,
    decreases s.len() + 1 - from,
{
    if from < s.len() {
        lemma_line_end_bounds(s, from);
        assert(is_break(trimmed_line(s, from)));
        lemma_no_paragraph_among_breaks(s, line_end(s, from) + 1);
    }
}

/// A text of empty lines and headings alone, behind its front matter if it
/// has any, has no first paragraph.
pub proof fn lemma_no_first_paragraph_among_breaks(s: Seq<char>)
    requires
        only_breaks_from(s, content_start(s)),
    ensures
        first_paragraph(s) is None,
{
    lemma_content_start_bounds(s);
    lemma_no_paragraph_among_breaks(s, content_start(s));
}

/// What the following lines add to a paragraph holds no line feed and does
/// not end in whitespace.
pub proof fn lemma_paragraph_rest_shape(s: Seq<char>, from: int)
    requires
        0 <= from,
    ensures
        forall|k: int|
            0 <= k < paragraph_rest(s, from).len() ==> paragraph_rest(s, from)[k] != '\n',
        paragraph_rest(s, from).len() > 0 ==> !is_whitespace(paragraph_rest(s, from).last()),
    decreases s.len() + 1 - from,
{
    if from < s.len() {
        lemma_line_end_bounds(s, from);
        let end = line_end(s, from);
        let line = trimmed_line(s, from);
        if !is_break(line) {
            lemma_trimmed_range(s, from, end);
            lemma_paragraph_rest_shape(s, end + 1);
            let more = paragraph_rest(s, end + 1);
            let all = paragraph_rest(s, from);
            assert(all == seq![' '] + line + more);
            assert forall|k: int| 0 <= k < all.len() implies all[k] != '\n' by {
                if k == 0 {
                } else if k <= line.len() {
                    assert(all[k] == line[k - 1]);
                } else {
                    assert(all[k] == more[k - 1 - line.len()]);
                }
            }
            if more.len() > 0 {
                assert(all.last() == more.last());
            } else {
                assert(all.last() == line.last());
            }
        }
    }
}

/// A paragraph is one line of text: it is not empty, holds no line feed, and
/// neither begins nor ends with whitespace.
pub proof fn lemma_paragraph_shape(s: Seq<char>, from: int)
    requires
        0 <= from,
        paragraph_from(s, from) is Some,
    ensures
        paragraph_from(s, from)->0.len() > 0,
        forall|k: int|
            0 <= k < paragraph_from(s, from)->0.len() ==> paragraph_from(s, from)->0[k] != '\n',
        !is_whitespace(paragraph_from(s, from)->0[0]),
        !is_whitespace(paragraph_from(s, from)->0.last()),
    decreases s.len() + 1 - from,
{
    if from < s.len() {
        lemma_line_end_bounds(s, from);
        let end = line_end(s, from);
        let line = trimmed_line(s, from);
        if is_break(line) {
            lemma_paragraph_shape(s, end + 1);
        } else {
            lemma_trimmed_range(s, from, end);
            lemma_paragraph_rest_shape(s, end + 1);
            let more = paragraph_rest(s, end + 1);
            let all = line + more;
            assert(all[0] == line[0]);
            assert forall|k: int| 0 <= k < all.len() implies all[k] != '\n' by {
                if k < line.len() {
                    assert(all[k] == line[k]);
                } else {
                    assert(all[k] == more[k - line.len()]);
                }
            }
            if more.len() > 0 {
                assert(all.last() == more.last());
            } else {
                assert(all.last() == line.last());
            }
        }
    }
}

/// The first paragraph of a text is one line of text: it is not empty, holds
/// no line feed, and neither begins nor ends with whitespace.
pub proof fn lemma_first_paragraph_shape(s: Seq<char>)
    requires
        first_paragraph(s) is Some,
    ensures
        first_paragraph(s)->0.len() > 0,
        forall|k: int| 0 <= k < first_paragraph(s)->0.len() ==> first_paragraph(s)->0[k] != '\n',
        !is_whitespace(first_paragraph(s)->0[0]),
        !is_whitespace(first_paragraph(s)->0.last()),
{
    lemma_content_start_bounds(s);
    lemma_paragraph_shape(s, content_start(s));
}

/// Two lines that follow each other in a paragraph are joined by exactly one
/// space: where the line at `from` and the next are neither empty nor
/// headings, the paragraph is the first, a space, the second, and what the
/// lines behind them add.
pub proof fn lemma_paragraph_joins_lines(s: Seq<char>, from: int)
    requires
        0 <= from < s.len(),
        !is_break(trimmed_line(s, from)),
        line_end(s, from) + 1 < s.len(),
        !is_break(trimmed_line(s, line_end(s, from) + 1)),
    ensures
        paragraph_from(s, from) == Some(
            trimmed_line(s, from) + seq![' '] + trimmed_line(s, line_end(s, from) + 1)
                + paragraph_rest(s, line_end(s, line_end(s, from) + 1) + 1),
        ),
{
    lemma_line_end_bounds(s, from);
    let next = line_end(s, from) + 1;
    lemma_line_end_bounds(s, next);
    let a = trimmed_line(s, from);
    let b = trimmed_line(s, next);
    let tail = paragraph_rest(s, line_end(s, next) + 1);
    assert(paragraph_rest(s, next) == seq![' '] + b + tail);
    assert(a + (seq![' '] + b + tail) =~= a + seq![' '] + b + tail);
}

/// Finds the end of the line that begins at `from`.
fn find_line_end(chars: &Vec<char>, from: usize) -> (end: usize)
    requires
        from <= chars@.len(),
    ensures
        end == line_end(chars@, from as int),
        from <= end <= chars@.len(),
{
    let n = chars.len();
    let mut e: usize = from;
    while e < n && chars[e] != '\n'
        invariant
            from <= e <= n,
            n == chars@.len(),
            line_end(chars@, from as int) == line_end(chars@, e as int),
        decreases n - e,
    {
        e += 1;
    }
    e
}

/// Finds where the body of the text begins.
fn skip_front_matter(chars: &Vec<char>) -> (start: usize)
    ensures
        start <= chars@.len(),
        paragraph_from(chars@, start as int) == first_paragraph(chars@),
{
    let n = chars.len();
    if !has_opening_delimiter(chars) {
        return 0;
    }
    match locate_closing(chars) {
        None => n,
        Some(q) => {
            let e = find_line_end(chars, q + 1);
            proof {
                lemma_line_end_bounds(chars@, q + 1);
            }
            if e < n {
                e + 1
            } else {
                e
            }
        },
    }
}

/// Returns the first paragraph of the body of `content`, for use as a
/// description. A front-matter block at the start is passed over, then empty
/// lines and headings. The paragraph runs from the first other line to the
/// next empty line or heading; its lines are trimmed and joined by one space.
/// There is none where no such line exists. A paragraph is not empty, is
/// one line, and neither begins nor ends with whitespace.
pub fn extract_first_paragraph(content: &str) -> (paragraph: Option<String>)
    ensures
        match paragraph {
            Some(p) => first_paragraph(content@) == Some(p@),
            None => first_paragraph(content@) is None,
        },
        paragraph matches Some(p) ==> {
            &&& p@.len() > 0
            &&& forall|k: int| 0 <= k < p@.len() ==> p@[k] != '\n'
            &&& !is_whitespace(p@[0])
            &&& !is_whitespace(p@.last())
        },
        only_breaks_from(content@, content_start(content@)) ==> paragraph is None,
{
    proof {
        if first_paragraph(content@) is Some {
            lemma_first_paragraph_shape(content@);
        }
        if only_breaks_from(content@, content_start(content@)) {
            lemma_no_first_paragraph_among_breaks(content@);
        }
    }
    let chars = to_chars(content);
    let n = chars.len();
    let mut pos: usize = skip_front_matter(&chars);
    let mut out = String::new();
    let mut found = false;
    while pos < n && !found
        invariant
            pos <= n,
            n == chars@.len(),
            chars@ == content@,
            !found ==> paragraph_from(chars@, pos as int) == first_paragraph(chars@) && out@
                == Seq::<char>::empty(),
            found ==> first_paragraph(chars@) == Some(out@ + paragraph_rest(chars@, pos as int)),
        decreases n - pos + (if found { 0int } else { 1int }),
    {
        let e = find_line_end(&chars, pos);
        let (a, b) = trim_bounds(&chars, pos, e);
        let next: usize = if e < n { e + 1 } else { e };
        if a < b && chars[a] != '#' {
            append_chars(&mut out, &chars, a, b);
            found = true;
            assert(out@ =~= trimmed_line(chars@, pos as int));
        }
        pos = next;
    }
    if !found {
        return None;
    }
    let mut done = false;
    while pos < n && !done
        invariant
            pos <= n,
            n == chars@.len(),
            chars@ == content@,
            !done ==> first_paragraph(chars@) == Some(out@ + paragraph_rest(chars@, pos as int)),
            done ==> first_paragraph(chars@) == Some(out@),
        decreases n - pos + (if done { 0int } else { 1int }),
    {
        let e = find_line_end(&chars, pos);
        let (a, b) = trim_bounds(&chars, pos, e);
        let next: usize = if e < n { e + 1 } else { e };
        let ghost before = out@;
        let ghost line = trimmed_line(chars@, pos as int);
        assert(line =~= chars@.subrange(a as int, b as int));
        assert(a < b ==> line[0] == chars@[a as int]);
        if a < b && chars[a] != '#' {
            out.push(' ');
            append_chars(&mut out, &chars, a, b);
            assert(paragraph_rest(chars@, next as int) == paragraph_rest(chars@, e + 1));
            assert(paragraph_rest(chars@, pos as int) == seq![' '] + line + paragraph_rest(
                chars@,
                e + 1,
            ));
            assert(out@ + paragraph_rest(chars@, next as int) =~= before + paragraph_rest(
                chars@,
                pos as int,
            ));
            pos = next;
        } else {
            done = true;
            assert(out@ + Seq::<char>::empty() =~= out@);
        }
    }
    assert(out@ + Seq::<char>::empty() =~= out@);
    Some(out)
}

} // verus!
