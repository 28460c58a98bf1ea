//! The base directory of a glob pattern: the part of it that names a place
//! rather than a set of places.

use crate::text::{to_chars, views};
use vstd::prelude::*;

verus! {

/// The characters that make a glob pattern match more than one name.
pub open spec fn is_wildcard(c: char) -> bool {
    c == '*' || c == '?' || c == '['
}

/// The text holds a wildcard character.
pub open spec fn has_wildcard(s: Seq<char>) -> bool {
    exists|i: int| 0 <= i < s.len() && is_wildcard(#[trigger] s[i])
}

/// Decides whether `part` holds one of the characters `*`, `?` and `[`.
pub fn contains_wildcard(part: &str) -> (found: bool)
    ensures
        found == has_wildcard(part@),
{
    let chars = to_chars(part);
    let mut i: usize = 0;
    while i < chars.len()
        invariant
            i <= chars@.len(),
            chars@ == part@,
            forall|k: int| 0 <= k < i ==> !is_wildcard(#[trigger] chars@[k]),
        decreases chars@.len() - i,
    {
        let c = chars[i];
        if c == '*' || c == '?' || c == '[' {
            return true;
        }
        i += 1;
    }
    false
}

/// The index of the first part from `from` on that holds a wildcard, or the
/// number of parts where none does.
pub open spec fn first_wildcard_part(parts: Seq<Seq<char>>, from: int) -> int
    decreases parts.len() - from,
{
    if from < 0 || from >= parts.len() {
        parts.len() as int
    } else if has_wildcard(parts[from]) {
        from
    } else {
        first_wildcard_part(parts, from + 1)
    }
}

/// The first part with a wildcard lies among the parts, behind parts that
/// hold none.
pub proof fn lemma_first_wildcard_part(parts: Seq<Seq<char>>, from: int)
    requires
        0 <= from <= parts.len(),
    ensures
        from <= first_wildcard_part(parts, from) <= parts.len(),
        forall|k: int| from <= k < first_wildcard_part(parts, from) ==> !has_wildcard(parts[k]),
        first_wildcard_part(parts, from) < parts.len() ==> has_wildcard(
            parts[first_wildcard_part(parts, from)],
        ),
    decreases parts.len() - from,
{
    if from < parts.len() && !has_wildcard(parts[from]) {
        lemma_first_wildcard_part(parts, from + 1);
    }
}

/// Counts the parts at the front of `parts` that hold no wildcard: the
/// result is the index of the first part that holds one, or the number of
/// parts where none does.
pub fn wildcard_free_prefix(parts: &Vec<String>) -> (count: usize)
    ensures
        count == first_wildcard_part(views(parts@), 0),
        count <= parts@.len(),
        forall|k: int| 0 <= k < count ==> !has_wildcard(#[trigger] parts@[k]@),
        count < parts@.len() ==> has_wildcard(parts@[count as int]@),
{
    let mut i: usize = 0;
    while i < parts.len()
        invariant
            i <= parts@.len(),
            forall|k: int| 0 <= k < i ==> !has_wildcard(#[trigger] parts@[k]@),
            first_wildcard_part(views(parts@), 0) == first_wildcard_part(views(parts@), i as int),
        decreases parts@.len() - i,
    {
        if contains_wildcard(parts[i].as_str()) {
            return i;
        }
        i += 1;
    }
    i
}

/// The parts of a path given as text, each as text: what `Path::components`
/// of the standard library finds in it.
pub uninterp spec fn path_parts(path: Seq<char>) -> Seq<Seq<char>>;

/// The text of the path that `PathBuf::push` of the standard library makes
/// of the path with the text `base` and of `part`.
pub uninterp spec fn pushed_path(base: Seq<char>, part: Seq<char>) -> Seq<char>;

/// The text that a path of the standard library holds.
pub uninterp spec fn path_text(path: std::path::PathBuf) -> Seq<char>;

/// The text of the path that is made of `parts`: each part in turn is pushed
/// onto the path of the parts before it, from the empty path on.
pub open spec fn joined_path(parts: Seq<Seq<char>>) -> Seq<char>
    decreases parts.len(),
{
    if parts.len() == 0 {
        Seq::empty()
    } else {
        pushed_path(joined_path(parts.drop_last()), parts.last())
    }
}

/// The text of the base directory of a pattern with the parts `parts`: the
/// path made of the parts that stand before the first part with a wildcard.
pub open spec fn base_dir_of(parts: Seq<Seq<char>>) -> Seq<char> {
    joined_path(parts.take(first_wildcard_part(parts, 0)))
}

/// `Path::components` of the standard library, on a path given as text: the
/// parts of the path in their order, each as text. The contract names them
/// and claims nothing else of them.
#[verifier::external_body]
fn path_components(pattern: &str) -> (parts: Vec<String>)
    ensures
        views(parts@) == path_parts(pattern@),
{
    let mut parts: Vec<String> = Vec::new();
    for part in std::path::Path::new(pattern).components() {
        parts.push(part.as_os_str().to_string_lossy().into_owned());
    }
    parts
}

/// `PathBuf::push` of the standard library, on a path and a part given as
/// text: the text of the path extended by the part. The contract names it
/// and claims nothing else of it.
#[verifier::external_body]
fn push_part(base: &str, part: &str) -> (joined: String)
    ensures
        joined@ == pushed_path(base@, part@),
{
    let mut path = std::path::PathBuf::from(base);
    path.push(part);
    path.to_string_lossy().into_owned()
}

/// A path of the standard library.
#[verifier::external_type_specification]
#[verifier::external_body]
pub struct ExPathBuf(std::path::PathBuf);

/// `PathBuf::from` of the standard library, on a text: the path that holds
/// this text.
#[verifier::external_body]
fn path_from(text: &str) -> (path: std::path::PathBuf)
    ensures
        path_text(path) == text@,
{
    std::path::PathBuf::from(text)
}

/// Joins the first `count` parts into the text of one path.
pub fn join_parts(parts: &Vec<String>, count: usize) -> (joined: String)
    requires
        count <= parts@.len(),
    ensures
        joined@ == joined_path(views(parts@).take(count as int)),
{
    let ghost all = views(parts@);
    let mut joined = String::new();
    let mut i: usize = 0;
    proof {
        assert(all.take(0) =~= Seq::<Seq<char>>::empty());
    }
    while i < count
        invariant
            i <= count <= parts@.len(),
            all == views(parts@),
            joined@ == joined_path(all.take(i as int)),
        decreases count - i,
    {
        proof {
            assert(all.take(i + 1).drop_last() =~= all.take(i as int));
            assert(all.take(i + 1).last() == parts@[i as int]@);
        }
        joined = push_part(joined.as_str(), parts[i].as_str());
        i += 1;
    }
    joined
}

/// Returns the base directory of a glob pattern: the path made of the parts
/// of `pattern` that stand before its first part with a wildcard, which is
/// the whole pattern where no part holds one.
pub fn get_base_dir_from_pattern(pattern: &str) -> (base: std::path::PathBuf)
    ensures
        path_text(base) == base_dir_of(path_parts(pattern@)),
{
    let parts = path_components(pattern);
    let count = wildcard_free_prefix(&parts);
    let joined = join_parts(&parts, count);
    path_from(joined.as_str())
}

} // verus!
