//! The configuration of a document: its title, its description and the
//! categories in the order in which they are to appear.

use crate::text::{str_eq, text_of, views};
use vstd::prelude::*;

verus! {

/// The title of a document whose configuration names none.
pub const DEFAULT_TITLE: &'static str = "Architecture Documentation";

/// What the configuration says of one category.
#[derive(Debug, Clone)]
pub struct CategoryConfig {
    /// The name by which components refer to the category.
    pub category: String,
    /// The heading to show in place of the name.
    pub title: Option<String>,
    /// A paragraph to show under the heading.
    pub description: Option<String>,
}

/// The configuration of a document.
#[derive(Debug, Clone)]
pub struct Config {
    /// The title of the document.
    pub title: Option<String>,
    /// A paragraph to show under the title.
    pub description: Option<String>,
    /// The categories, in the order in which their sections appear.
    pub categories: Vec<CategoryConfig>,
}

/// What a `CategoryConfig` holds, as texts.
pub struct CategoryConfigView {
    pub category: Seq<char>,
    pub title: Option<Seq<char>>,
    pub description: Option<Seq<char>>,
}

/// What a `Config` holds, as texts.
pub struct ConfigView {
    pub title: Option<Seq<char>>,
    pub description: Option<Seq<char>>,
    pub categories: Seq<CategoryConfigView>,
}

impl View for CategoryConfig {
    type V = CategoryConfigView;

    open spec fn view(&self) -> CategoryConfigView {
        CategoryConfigView {
            category: self.category@,
            title: text_of(self.title),
            description: text_of(self.description),
        }
    }
}

impl View for Config {
    type V = ConfigView;

    open spec fn view(&self) -> ConfigView {
        ConfigView {
            title: text_of(self.title),
            description: text_of(self.description),
            categories: views(self.categories@),
        }
    }
}

/// The index of the first entry from `from` on whose name is `name`.
pub open spec fn find_category(cats: Seq<CategoryConfigView>, name: Seq<char>, from: int) -> Option<
    int,
>
    decreases cats.len() - from,
{
    if from < 0 || from >= cats.len() {
        None
    } else if cats[from].category == name {
        Some(from)
    } else {
        find_category(cats, name, from + 1)
    }
}

/// What `find_category` finds is an entry of that name, and the first one.
pub proof fn lemma_find_category(cats: Seq<CategoryConfigView>, name: Seq<char>, from: int)
    requires
        0 <= from,
    ensures
        match find_category(cats, name, from) {
            Some(i) => from <= i < cats.len() && cats[i].category == name && forall|j: int|
                from <= j < i ==> cats[j].category != name,
            None => forall|j: int| from <= j < cats.len() ==> cats[j].category != name,
        },
    decreases cats.len() - from,
{
    if from < cats.len() && cats[from].category != name {
        lemma_find_category(cats, name, from + 1);
    }
}

impl ConfigView {
    /// The title that the document bears: the configured one, or the default.
    pub open spec fn title_text(self) -> Seq<char> {
        match self.title {
            Some(t) => t,
            None => DEFAULT_TITLE@,
        }
    }

    /// The names of the configured categories, in their order.
    pub open spec fn names(self) -> Seq<Seq<char>> {
        Seq::new(self.categories.len(), |i: int| self.categories[i].category)
    }

    /// The first entry for the category `name`, if there is one.
    pub open spec fn entry(self, name: Seq<char>) -> Option<CategoryConfigView> {
        match find_category(self.categories, name, 0) {
            Some(i) => Some(self.categories[i]),
            None => None,
        }
    }

    /// The heading under which the category `name` appears: the title of its
    /// first entry, or the name itself.
    pub open spec fn display_title(self, name: Seq<char>) -> Seq<char> {
        match self.entry(name) {
            Some(c) => match c.title {
                Some(t) => t,
                None => name,
            },
            None => name,
        }
    }

    /// The paragraph that the configuration gives for the category `name`.
    pub open spec fn category_description(self, name: Seq<char>) -> Option<Seq<char>> {
        match self.entry(name) {
            Some(c) => c.description,
            None => None,
        }
    }
}

impl Config {
    /// Returns the document's title: the configured one, or the default.
    pub fn title(&self) -> (t: &str)
        ensures
            t@ == self@.title_text(),
    {
        match &self.title {
            Some(t) => t.as_str(),
            None => DEFAULT_TITLE,
        }
    }

    /// Returns the first entry whose category is `name`.
    pub fn get_category(&self, name: &str) -> (found: Option<&CategoryConfig>)
        ensures
            match found {
                Some(c) => self@.entry(name@) == Some(c@),
                None => self@.entry(name@) is None,
            },
    {
        let mut i: usize = 0;
        while i < self.categories.len()
            invariant
                i <= self.categories@.len(),
                find_category(self@.categories, name@, 0) == find_category(
                    self@.categories,
                    name@,
                    i as int,
                ),
            decreases self.categories@.len() - i,
        {
            if str_eq(self.categories[i].category.as_str(), name) {
                return Some(&self.categories[i]);
            }
            i += 1;
        }
        None
    }

    /// Returns the heading for the category `category_name`: the title of its
    /// first entry where that entry has one, else the name as it was given.
    pub fn display_title_for<'a>(&'a self, category_name: &'a str) -> (t: &'a str)
        ensures
            t@ == self@.display_title(category_name@),
    {
        match self.get_category(category_name) {
            Some(c) => match &c.title {
                Some(t) => t.as_str(),
                None => category_name,
            },
            None => category_name,
        }
    }

    /// Returns the names of the configured categories, in their order.
    pub fn category_order(&self) -> (order: Vec<&str>)
        ensures
            order@.len() == self@.names().len(),
            forall|i: int| 0 <= i < order@.len() ==> order@[i]@ == #[trigger] self@.names()[i],
    {
        let mut order: Vec<&str> = Vec::new();
        let mut i: usize = 0;
        while i < self.categories.len()
            invariant
                i <= self.categories@.len(),
                order@.len() == i,
                forall|k: int| 0 <= k < i ==> order@[k]@ == #[trigger] self@.names()[k],
            decreases self.categories@.len() - i,
        {
            order.push(self.categories[i].category.as_str());
            i += 1;
        }
        order
    }
}

impl Default for Config {
    /// The configuration of a document for which nothing was configured.
    fn default() -> (c: Config)
        ensures
            c@ == (ConfigView { title: None, description: None, categories: Seq::empty() }),
    {
        let c = Config { title: None, description: None, categories: Vec::new() };
        assert(c@.categories =~= Seq::empty());
        c
    }
}

} // verus!
