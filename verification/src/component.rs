//! Components: the documented units, one for each file that declares one.

use crate::front_matter::{
    extract_first_paragraph, first_paragraph, lemma_first_paragraph_shape, FrontMatter,
    FrontMatterView,
};
use crate::text::{text_of, to_chars, views};
use vstd::prelude::*;

verus! {

/// One documented unit of a repository.
#[derive(Debug, Clone, PartialEq, Eq)]
pub struct Component {
    /// The path of the component's file, relative to the base directory
    /// where it lies below it, written with `/` between its parts.
    pub path: String,
    /// What the component is, in a sentence or two.
    pub description: String,
    /// The category under which the component is listed.
    pub category: String,
}

/// What a `Component` holds, as texts.
pub struct ComponentView {
    pub path: Seq<char>,
    pub description: Seq<char>,
    pub category: Seq<char>,
}

impl View for Component {
    type V = ComponentView;

    open spec fn view(&self) -> ComponentView {
        ComponentView {
            path: self.path@,
            description: self.description@,
            category: self.category@,
        }
    }
}

impl Component {
    /// Returns a copy of this component.
    pub fn duplicate(&self) -> (copy: Component)
        ensures
            copy@ == self@,
    {
        Component {
            path: self.path.clone(),
            description: self.description.clone(),
            category: self.category.clone(),
        }
    }
}

/// The description of a component: the one that its front matter declares,
/// else the first paragraph of its file.
pub open spec fn description_of(declared: Option<Seq<char>>, content: Seq<char>) -> Option<
    Seq<char>,
> {
    match declared {
        Some(d) => Some(d),
        None => first_paragraph(content),
    }
}

/// The component that a file declares: its path as given, the category of
/// its front matter, and its description, without which there is none.
pub open spec fn component_of(
    path: Seq<char>,
    front_matter: FrontMatterView,
    content: Seq<char>,
) -> Option<ComponentView> {
    match description_of(front_matter.description, content) {
        Some(d) => Some(
            ComponentView { path: path, description: d, category: front_matter.category },
        ),
        None => None,
    }
}

/// Chooses the description of a component whose file holds `content`: the
/// declared one as it stands where there is one, else the first paragraph
/// of the file. There is none where the file has neither.
pub fn choose_description(declared: Option<String>, content: &str) -> (chosen: Option<String>)
    ensures
        text_of(chosen) == description_of(text_of(declared), content@),
{
    match declared {
        Some(d) => Some(d),
        None => extract_first_paragraph(content),
    }
}

/// What is left of the path `path` once the path `base` is stripped from its
/// front, both given as text, where `base` is a prefix of `path` part by
/// part: what `Path::strip_prefix` of the standard library returns.
pub uninterp spec fn stripped_prefix(path: Seq<char>, base: Seq<char>) -> Option<Seq<char>>;

/// `Path::strip_prefix` of the standard library, on paths given as text: the
/// part of `path` below `base`, where `base` is a prefix of `path` part by
/// part. The contract names the result and claims nothing else of it.
#[verifier::external_body]
fn strip_base(path: &str, base: &str) -> (rest: Option<String>)
    ensures
        text_of(rest) == stripped_prefix(path@, base@),
{
    match std::path::Path::new(path).strip_prefix(std::path::Path::new(base)) {
        Ok(rest) => Some(rest.to_string_lossy().into_owned()),
        Err(_) => None,
    }
}

/// Returns `stripped` where a prefix could be stripped from `path`, else
/// `path` as it stands.
pub fn stripped_or_whole(stripped: Option<String>, path: &str) -> (shown: String)
    ensures
        shown@ == match stripped {
            Some(rest) => rest@,
            None => path@,
        },
{
    match stripped {
        Some(rest) => rest,
        None => String::from_str(path),
    }
}

/// `std::path::MAIN_SEPARATOR` of the standard library: the character that
/// separates the parts of a path on the platform at hand.
#[verifier::external_body]
fn main_separator() -> (separator: char) {
    std::path::MAIN_SEPARATOR
}

/// A path with `/` in place of each `separator`.
pub open spec fn with_slashes(path: Seq<char>, separator: char) -> Seq<char> {
    Seq::new(
        path.len(),
        |i: int|
            if path[i] == separator {
                '/'
            } else {
                path[i]
            },
    )
}

/// Writes `path` with `/` between its parts, whatever separates them on the
/// platform at hand, so that a document reads the same wherever it is made.
pub fn normalize_separators(path: &str, separator: char) -> (shown: String)
    ensures
        shown@ == with_slashes(path@, separator),
{
    let chars = to_chars(path);
    let mut shown = String::new();
    let mut i: usize = 0;
    while i < chars.len()
        invariant
            i <= chars@.len(),
            chars@ == path@,
            shown@ == with_slashes(path@, separator).take(i as int),
        decreases chars@.len() - i,
    {
        let c = chars[i];
        if c == separator {
            shown.push('/');
        } else {
            shown.push(c);
        }
        i += 1;
        assert(shown@ =~= with_slashes(path@, separator).take(i as int));
    }
    assert(shown@ =~= with_slashes(path@, separator));
    shown
}

/// The path `path` as a document shows it where `separator` separates the
/// parts of a path: what is left of it once `base` is stripped from its
/// front, or the whole of it where `base` is no prefix of it, with `/` in
/// place of each `separator`.
pub open spec fn shown_path(path: Seq<char>, base: Seq<char>, separator: char) -> Seq<char> {
    with_slashes(
        match stripped_prefix(path, base) {
            Some(rest) => rest,
            None => path,
        },
        separator,
    )
}

/// Returns `path` as a document shows it: relative to `base_dir` where it
/// lies below it, else whole, and with `/` in place of the character that
/// separates the parts of a path on the platform at hand.
pub fn relative_path(path: &str, base_dir: &str) -> (shown: String)
    ensures
        exists|separator: char| shown@ == #[trigger] shown_path(path@, base_dir@, separator),
{
    let below = stripped_or_whole(strip_base(path, base_dir), path);
    let separator = main_separator();
    let shown = normalize_separators(below.as_str(), separator);
    assert(shown@ == shown_path(path@, base_dir@, separator));
    shown
}

/// Builds the component that the file at `path` declares, from its front
/// matter and its whole text. There is none exactly where the front matter
/// declares no description and the text has no first paragraph. Neither the
/// category nor the description of the component is empty, unless the front
/// matter declares an empty one.
pub fn component_from(path: String, front_matter: FrontMatter, content: &str) -> (built: Option<
    Component,
>)
    ensures
        match built {
            Some(c) => component_of(path@, front_matter@, content@) == Some(c@),
            None => component_of(path@, front_matter@, content@) is None,
        },
        built matches Some(c) ==> {
            &&& front_matter@.category.len() > 0 ==> c@.category.len() > 0
            &&& (front_matter@.description matches Some(d) ==> d.len() > 0) ==> c@.description.len()
                > 0
        },
{
    proof {
        if front_matter@.description is None && first_paragraph(content@) is Some {
            lemma_first_paragraph_shape(content@);
        }
    }
    let FrontMatter { description, category } = front_matter;
    match choose_description(description, content) {
        Some(d) => Some(Component { path, description: d, category }),
        None => None,
    }
}

/// The components among the outcomes of reading files, in their order: a
/// file that declares no component contributes nothing.
pub open spec fn declared_components(outcomes: Seq<Option<Component>>) -> Seq<ComponentView>
    decreases outcomes.len(),
{
    if outcomes.len() == 0 {
        Seq::empty()
    } else {
        let earlier = declared_components(outcomes.drop_last());
        match outcomes.last() {
            Some(c) => earlier.push(c@),
            None => earlier,
        }
    }
}

/// Gathers the components of the files that declare one, in the order of
/// the files. A file that could not be read as a component is passed over:
/// a broad pattern matches files that take no part in the document.
pub fn keep_declared(outcomes: &Vec<Option<Component>>) -> (kept: Vec<Component>)
    ensures
        views(kept@) == declared_components(outcomes@),
{
    let mut kept: Vec<Component> = Vec::new();
    let mut i: usize = 0;
    proof {
        assert(outcomes@.take(0) =~= Seq::<Option<Component>>::empty());
        assert(views(kept@) =~= Seq::<ComponentView>::empty());
    }
    while i < outcomes.len()
        invariant
            i <= outcomes@.len(),
            views(kept@) == declared_components(outcomes@.take(i as int)),
        decreases outcomes@.len() - i,
    {
        let ghost earlier = views(kept@);
        proof {
            assert(outcomes@.take(i + 1).drop_last() =~= outcomes@.take(i as int));
            assert(outcomes@.take(i + 1).last() == outcomes@[i as int]);
        }
        match &outcomes[i] {
            Some(c) => {
                kept.push(c.duplicate());
                proof {
                    assert(views(kept@) =~= earlier.push(c@));
                }
            },
            None => {},
        }
        i += 1;
    }
    proof {
        assert(outcomes@.take(i as int) =~= outcomes@);
    }
    kept
}

/// A component has a category and a description that are not empty, given
/// that its front matter declares a category that is not empty and no empty
/// description.
pub proof fn lemma_component_fields_nonempty(
    path: Seq<char>,
    front_matter: FrontMatterView,
    content: Seq<char>,
)
    requires
        front_matter.category.len() > 0,
        front_matter.description matches Some(d) ==> d.len() > 0,
        component_of(path, front_matter, content) is Some,
    ensures
        component_of(path, front_matter, content)->0.category.len() > 0,
        component_of(path, front_matter, content)->0.description.len() > 0,
{
    if front_matter.description is None {
        lemma_first_paragraph_shape(content);
    }
}

} // verus!
