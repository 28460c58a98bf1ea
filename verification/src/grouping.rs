//! Grouping of components by category, and the order of the categories.

use crate::component::{Component, ComponentView};
use crate::config::Config;
use crate::order::{
    ascending_by, lemma_filter_distinct, lemma_filter_keeps_order, lemma_filter_member,
    lemma_precedes_total, lemma_sort_by_ascending, lemma_sort_by_keeps_items,
    lemma_sort_by_stable, position_by, sort_by,
};
use crate::text::{precedes, str_eq, str_precedes, views};
use vstd::prelude::*;

verus! {

/// The components of one category, sorted by path.
#[derive(Debug, Clone)]
pub struct CategoryGroup {
    /// The category that the members share.
    pub category: String,
    /// The components of that category, ascending by path.
    pub members: Vec<Component>,
}

/// The key by which the members of a category are sorted: the path.
pub open spec fn by_path() -> spec_fn(ComponentView) -> Seq<char> {
    |c: ComponentView| c.path
}

/// The key by which names are sorted: the name itself.
pub open spec fn by_itself() -> spec_fn(Seq<char>) -> Seq<char> {
    |name: Seq<char>| name
}

/// The components of `cs` whose category is `category`, in the order of `cs`.
pub open spec fn in_category(cs: Seq<ComponentView>, category: Seq<char>) -> Seq<ComponentView> {
    cs.filter(|c: ComponentView| c.category == category)
}

/// The members of the category `category`: its components, sorted by path.
pub open spec fn members_of(cs: Seq<ComponentView>, category: Seq<char>) -> Seq<ComponentView> {
    sort_by(in_category(cs, category), by_path())
}

/// The categories that the components of `cs` name, each once, in the order
/// in which they first occur.
pub open spec fn categories_of(cs: Seq<ComponentView>) -> Seq<Seq<char>>
    decreases cs.len(),
{
    if cs.len() == 0 {
        Seq::empty()
    } else {
        let earlier = categories_of(cs.drop_last());
        if earlier.contains(cs.last().category) {
            earlier
        } else {
            earlier.push(cs.last().category)
        }
    }
}

/// The categories of a sequence of groups, in their order.
pub open spec fn group_names(groups: Seq<CategoryGroup>) -> Seq<Seq<char>> {
    Seq::new(groups.len(), |i: int| groups[i].category@)
}

/// The configured names that have components, in their configured order.
pub open spec fn listed_categories(present: Seq<Seq<char>>, configured: Seq<Seq<char>>) -> Seq<
    Seq<char>,
> {
    configured.filter(|name: Seq<char>| present.contains(name))
}

/// The categories with components that the configuration does not name, in
/// ascending order.
pub open spec fn unlisted_categories(present: Seq<Seq<char>>, configured: Seq<Seq<char>>) -> Seq<
    Seq<char>,
> {
    sort_by(present.filter(|name: Seq<char>| !configured.contains(name)), by_itself())
}

/// The categories in the order of their sections: the configured ones that
/// have components, then the others in ascending order.
pub open spec fn category_sequence(present: Seq<Seq<char>>, configured: Seq<Seq<char>>) -> Seq<
    Seq<char>,
> {
    listed_categories(present, configured) + unlisted_categories(present, configured)
}

/// Of two configured names that both have components, the one that the
/// configuration names first comes first in `order`.
pub open spec fn keeps_configured_order(
    order: Seq<Seq<char>>,
    present: Seq<Seq<char>>,
    configured: Seq<Seq<char>>,
) -> bool {
    forall|i: int, j: int|
        0 <= i < j < configured.len() && present.contains(#[trigger] configured[i])
            && present.contains(#[trigger] configured[j]) ==> exists|p: int, q: int|
            0 <= p < q < order.len() && order[p] == configured[i] && order[q] == configured[j]
}

/// The first `count` names of `order` are configured ones; the others are
/// not, and none of them comes before one that stands before it.
pub open spec fn unlisted_follow_listed(
    order: Seq<Seq<char>>,
    configured: Seq<Seq<char>>,
    count: int,
) -> bool {
    &&& 0 <= count <= order.len()
    &&& forall|k: int| 0 <= k < count ==> configured.contains(#[trigger] order[k])
    &&& forall|k: int| count <= k < order.len() ==> !configured.contains(#[trigger] order[k])
    &&& forall|a: int, b: int|
        count <= a < b < order.len() ==> !precedes(#[trigger] order[b], #[trigger] order[a])
}

/// Finds where a component with the path `path` goes into `sorted`.
fn find_member_position(sorted: &Vec<Component>, path: &str) -> (at: usize)
    ensures
        at == position_by(views(sorted@), by_path(), path@, 0),
        at <= sorted@.len(),
{
    let mut i: usize = 0;
    while i < sorted.len() && !str_precedes(path, sorted[i].path.as_str())
        invariant
            i <= sorted@.len(),
            position_by(views(sorted@), by_path(), path@, 0) == position_by(
                views(sorted@),
                by_path(),
                path@,
                i as int,
            ),
        decreases sorted@.len() - i,
    {
        i += 1;
    }
    i
}

/// Gathers the components of the category `category`, sorted by path.
fn collect_members(components: &[Component], category: &str) -> (members: Vec<Component>)
    ensures
        views(members@) == members_of(views(components@), category@),
{
    let ghost all = views(components@);
    let mut members: Vec<Component> = Vec::new();
    let mut i: usize = 0;
    proof {
        reveal(Seq::filter);
        assert(all.take(0) =~= Seq::<ComponentView>::empty());
        assert(views(members@) =~= Seq::<ComponentView>::empty());
    }
    while i < components.len()
        invariant
            i <= components@.len(),
            all == views(components@),
            views(members@) == members_of(all.take(i as int), category@),
        decreases components@.len() - i,
    {
        let ghost before = all.take(i as int);
        let ghost after = all.take(i + 1);
        let ghost earlier = views(members@);
        proof {
            reveal(Seq::filter);
            assert(after.drop_last() =~= before);
            assert(after.last() == components@[i as int]@);
        }
        if str_eq(components[i].category.as_str(), category) {
            let at = find_member_position(&members, components[i].path.as_str());
            members.insert(at, components[i].duplicate());
            proof {
                let kept = in_category(before, category@);
                assert(in_category(after, category@) == kept.push(components@[i as int]@));
                assert(kept.push(components@[i as int]@).drop_last() =~= kept);
                assert(views(members@) =~= earlier.insert(at as int, components@[i as int]@));
            }
        }
        i += 1;
    }
    proof {
        assert(all.take(i as int) =~= all);
    }
    members
}

/// Decides whether `name` is among `names`.
fn holds_name(names: &Vec<String>, name: &str) -> (found: bool)
    ensures
        found == views(names@).contains(name@),
{
    let mut i: usize = 0;
    while i < names.len()
        invariant
            i <= names@.len(),
            forall|k: int| 0 <= k < i ==> views(names@)[k] != name@,
        decreases names@.len() - i,
    {
        if str_eq(names[i].as_str(), name) {
            assert(views(names@)[i as int] == name@);
            return true;
        }
        i += 1;
    }
    false
}

/// Gathers the categories that the components name, each once.
fn collect_categories(components: &[Component]) -> (names: Vec<String>)
    ensures
        views(names@) == categories_of(views(components@)),
{
    let ghost all = views(components@);
    let mut names: Vec<String> = Vec::new();
    let mut i: usize = 0;
    proof {
        assert(all.take(0) =~= Seq::<ComponentView>::empty());
        assert(views(names@) =~= Seq::<Seq<char>>::empty());
    }
    while i < components.len()
        invariant
            i <= components@.len(),
            all == views(components@),
            views(names@) == categories_of(all.take(i as int)),
        decreases components@.len() - i,
    {
        let ghost earlier = views(names@);
        proof {
            assert(all.take(i + 1).drop_last() =~= all.take(i as int));
            assert(all.take(i + 1).last() == components@[i as int]@);
        }
        if !holds_name(&names, components[i].category.as_str()) {
            names.push(components[i].category.clone());
            proof {
                assert(views(names@) =~= earlier.push(components@[i as int].category@));
            }
        }
        i += 1;
    }
    proof {
        assert(all.take(i as int) =~= all);
    }
    names
}

/// Groups the components by category. The groups come in the order in which
/// their categories first occur; each holds the components of its category,
/// sorted by path. No two groups share a category, and no group is empty.
pub fn group_by_category(components: &[Component]) -> (groups: Vec<CategoryGroup>)
    ensures
        group_names(groups@) == categories_of(views(components@)),
        forall|i: int|
            0 <= i < groups@.len() ==> views((#[trigger] groups@[i]).members@) == members_of(
                views(components@),
                groups@[i].category@,
            ),
        group_names(groups@).no_duplicates(),
        forall|i: int| 0 <= i < groups@.len() ==> (#[trigger] groups@[i]).members@.len() > 0,
{
    let names = collect_categories(components);
    let mut groups: Vec<CategoryGroup> = Vec::new();
    let mut i: usize = 0;
    while i < names.len()
        invariant
            i <= names@.len(),
            groups@.len() == i,
            views(names@) == categories_of(views(components@)),
            forall|k: int| 0 <= k < i ==> (#[trigger] groups@[k]).category@ == names@[k]@,
            forall|k: int|
                0 <= k < i ==> views((#[trigger] groups@[k]).members@) == members_of(
                    views(components@),
                    groups@[k].category@,
                ),
        decreases names@.len() - i,
    {
        let members = collect_members(components, names[i].as_str());
        assert(views(names@)[i as int] == names@[i as int]@);
        groups.push(CategoryGroup { category: names[i].clone(), members });
        i += 1;
    }
    proof {
        let cs = views(components@);
        assert(group_names(groups@) =~= views(names@));
        lemma_categories_of_distinct(cs);
        assert forall|k: int| 0 <= k < groups@.len() implies (#[trigger] groups@[k]).members@.len()
            > 0 by {
            assert(categories_of(cs)[k] == groups@[k].category@);
            lemma_category_has_members(cs, groups@[k].category@);
            assert(views(groups@[k].members@).len() == groups@[k].members@.len());
        }
    }
    groups
}

/// Finds the group of the category `name`.
pub(crate) fn find_group(groups: &Vec<CategoryGroup>, name: &str) -> (found: Option<usize>)
    ensures
        match found {
            Some(k) => k < groups@.len() && groups@[k as int].category@ == name@,
            None => !group_names(groups@).contains(name@),
        },
{
    let mut i: usize = 0;
    while i < groups.len()
        invariant
            i <= groups@.len(),
            forall|k: int| 0 <= k < i ==> group_names(groups@)[k] != name@,
        decreases groups@.len() - i,
    {
        if str_eq(groups[i].category.as_str(), name) {
            return Some(i);
        }
        i += 1;
    }
    None
}

/// Decides whether the configuration names the category `name`.
fn is_configured(configured: &Vec<&str>, name: &str) -> (found: bool)
    ensures
        found == views(configured@).contains(name@),
{
    let mut i: usize = 0;
    while i < configured.len()
        invariant
            i <= configured@.len(),
            forall|k: int| 0 <= k < i ==> views(configured@)[k] != name@,
        decreases configured@.len() - i,
    {
        if str_eq(configured[i], name) {
            assert(views(configured@)[i as int] == name@);
            return true;
        }
        i += 1;
    }
    false
}

/// Finds where `name` goes into the sorted names `sorted`.
fn find_name_position(sorted: &Vec<&str>, name: &str) -> (at: usize)
    ensures
        at == position_by(views(sorted@), by_itself(), name@, 0),
        at <= sorted@.len(),
{
    let mut i: usize = 0;
    while i < sorted.len() && !str_precedes(name, sorted[i])
        invariant
            i <= sorted@.len(),
            position_by(views(sorted@), by_itself(), name@, 0) == position_by(
                views(sorted@),
                by_itself(),
                name@,
                i as int,
            ),
        decreases sorted@.len() - i,
    {
        i += 1;
    }
    i
}

/// Puts the categories of `groups` in the order of their sections: first
/// those that `config` names, in its order, then the others in ascending
/// order. A configured category without a group is left out, and every
/// category with a group is there.
pub fn order_categories<'a>(groups: &'a Vec<CategoryGroup>, config: &'a Config) -> (order: Vec<
    &'a str,
>)
    ensures
        views(order@) == category_sequence(group_names(groups@), config@.names()),
        forall|name: Seq<char>|
            #[trigger] views(order@).contains(name) <==> group_names(groups@).contains(name),
        keeps_configured_order(views(order@), group_names(groups@), config@.names()),
        unlisted_follow_listed(
            views(order@),
            config@.names(),
            listed_categories(group_names(groups@), config@.names()).len() as int,
        ),
{
    let configured = config.category_order();
    let ghost present = group_names(groups@);
    let ghost wanted = config@.names();
    proof {
        assert(views(configured@) =~= wanted);
    }
    let mut order: Vec<&'a str> = Vec::new();
    let mut i: usize = 0;
    proof {
        reveal(Seq::filter);
        assert(wanted.take(0) =~= Seq::<Seq<char>>::empty());
        assert(views(order@) =~= Seq::<Seq<char>>::empty());
    }
    while i < configured.len()
        invariant
            i <= configured@.len(),
            views(configured@) == wanted,
            present == group_names(groups@),
            views(order@) == listed_categories(present, wanted.take(i as int)),
        decreases configured@.len() - i,
    {
        let ghost earlier = views(order@);
        proof {
            reveal(Seq::filter);
            assert(wanted.take(i + 1).drop_last() =~= wanted.take(i as int));
            assert(wanted.take(i + 1).last() == views(configured@)[i as int]);
        }
        if let Some(k) = find_group(groups, configured[i]) {
            order.push(configured[i]);
            proof {
                assert(present[k as int] == configured@[i as int]@);
                assert(views(order@) =~= earlier.push(configured@[i as int]@));
            }
        }
        i += 1;
    }
    proof {
        assert(wanted.take(i as int) =~= wanted);
    }
    let mut others: Vec<&'a str> = Vec::new();
    let mut j: usize = 0;
    proof {
        reveal(Seq::filter);
        assert(present.take(0) =~= Seq::<Seq<char>>::empty());
        assert(views(others@) =~= Seq::<Seq<char>>::empty());
    }
    while j < groups.len()
        invariant
            j <= groups@.len(),
            views(configured@) == wanted,
            present == group_names(groups@),
            views(others@) == unlisted_categories(present.take(j as int), wanted),
        decreases groups@.len() - j,
    {
        let ghost earlier = views(others@);
        let ghost name = groups@[j as int].category@;
        proof {
            reveal(Seq::filter);
            assert(present.take(j + 1).drop_last() =~= present.take(j as int));
            assert(present.take(j + 1).last() == name);
        }
        if !is_configured(&configured, groups[j].category.as_str()) {
            let at = find_name_position(&others, groups[j].category.as_str());
            others.insert(at, groups[j].category.as_str());
            proof {
                let kept = present.take(j as int).filter(|n: Seq<char>| !wanted.contains(n));
                assert(present.take(j + 1).filter(|n: Seq<char>| !wanted.contains(n)) == kept.push(
                    name,
                ));
                assert(kept.push(name).drop_last() =~= kept);
                assert(views(others@) =~= earlier.insert(at as int, name));
            }
        }
        j += 1;
    }
    proof {
        assert(present.take(j as int) =~= present);
    }
    let ghost listed = views(order@);
    let mut k: usize = 0;
    while k < others.len()
        invariant
            k <= others@.len(),
            views(order@) == listed + views(others@).take(k as int),
        decreases others@.len() - k,
    {
        let ghost earlier = views(order@);
        order.push(others[k]);
        proof {
            assert(views(order@) =~= earlier.push(others@[k as int]@));
            assert(views(others@).take(k + 1) =~= views(others@).take(k as int).push(
                others@[k as int]@,
            ));
        }
        k += 1;
    }
    proof {
        assert(views(others@).take(k as int) =~= views(others@));
        assert forall|name: Seq<char>| #[trigger]
            views(order@).contains(name) <==> present.contains(name) by {
            lemma_category_sequence_member(present, wanted, name);
        }
        lemma_configured_order_is_kept(present, wanted);
        lemma_unlisted_follow_listed(present, wanted);
    }
    order
}

/// A category is among those of `cs` exactly where a component names it.
pub proof fn lemma_categories_of_member(cs: Seq<ComponentView>, name: Seq<char>)
    ensures
        categories_of(cs).contains(name) <==> exists|i: int|
            0 <= i < cs.len() && (#[trigger] cs[i]).category == name,
    decreases cs.len(),
{
    if cs.len() > 0 {
        let front = cs.drop_last();
        let earlier = categories_of(front);
        lemma_categories_of_member(front, name);
        if categories_of(cs).contains(name) {
            let all = categories_of(cs);
            let k = choose|k: int| 0 <= k < all.len() && all[k] == name;
            if k < earlier.len() {
                assert(earlier[k] == name);
                let i = choose|i: int|
                    0 <= i < front.len() && (#[trigger] front[i]).category == name;
                assert(cs[i].category == name);
            } else {
                assert(cs[cs.len() - 1].category == name);
            }
        }
        if exists|i: int| 0 <= i < cs.len() && (#[trigger] cs[i]).category == name {
            let i = choose|i: int| 0 <= i < cs.len() && (#[trigger] cs[i]).category == name;
            if i < cs.len() - 1 {
                assert(front[i].category == name);
                let k = choose|k: int| 0 <= k < earlier.len() && earlier[k] == name;
                assert(categories_of(cs)[k] == name);
            } else if earlier.contains(name) {
            } else {
                assert(categories_of(cs).last() == name);
            }
        }
    }
}

/// No category occurs twice among those of `cs`.
pub proof fn lemma_categories_of_distinct(cs: Seq<ComponentView>)
    ensures
        categories_of(cs).no_duplicates(),
    decreases cs.len(),
{
    if cs.len() > 0 {
        lemma_categories_of_distinct(cs.drop_last());
    }
}

/// The members of a category that share a path stand in the order in which
/// they were given.
pub proof fn lemma_members_keep_order(cs: Seq<ComponentView>, category: Seq<char>, path: Seq<char>)
    ensures
        members_of(cs, category).filter(|c: ComponentView| by_path()(c) == path) == in_category(
            cs,
            category,
        ).filter(|c: ComponentView| by_path()(c) == path),
{
    lemma_sort_by_stable(in_category(cs, category), by_path(), path);
}

/// The members of a category are its components and no others, each as
/// often as it occurs, in ascending order of their paths.
pub proof fn lemma_members_of(cs: Seq<ComponentView>, category: Seq<char>)
    ensures
        members_of(cs, category).to_multiset() == in_category(cs, category).to_multiset(),
        ascending_by(members_of(cs, category), by_path()),
        forall|i: int, j: int|
            0 <= i < j < members_of(cs, category).len() ==> !precedes(
                (#[trigger] members_of(cs, category)[j]).path,
                (#[trigger] members_of(cs, category)[i]).path,
            ),
        forall|c: ComponentView|
            members_of(cs, category).contains(c) <==> cs.contains(c) && c.category == category,
{
    let kept = in_category(cs, category);
    let sorted = members_of(cs, category);
    lemma_sort_by_keeps_items(kept, by_path());
    lemma_sort_by_ascending(kept, by_path());
    assert forall|i: int, j: int| 0 <= i < j < sorted.len() implies !precedes(
        (#[trigger] sorted[j]).path,
        (#[trigger] sorted[i]).path,
    ) by {
        assert(!precedes(by_path()(sorted[j]), by_path()(sorted[i])));
    }
    assert forall|c: ComponentView|
        sorted.contains(c) <==> cs.contains(c) && c.category == category by {
        lemma_filter_member(cs, |c: ComponentView| c.category == category, c);
        vstd::seq_lib::to_multiset_contains(sorted, c);
        vstd::seq_lib::to_multiset_contains(kept, c);
    }
}

/// A category that a component names has members.
pub proof fn lemma_category_has_members(cs: Seq<ComponentView>, name: Seq<char>)
    requires
        categories_of(cs).contains(name),
    ensures
        members_of(cs, name).len() > 0,
{
    lemma_categories_of_member(cs, name);
    let i = choose|i: int| 0 <= i < cs.len() && (#[trigger] cs[i]).category == name;
    lemma_filter_member(cs, |c: ComponentView| c.category == name, cs[i]);
    lemma_sort_by_keeps_items(in_category(cs, name), by_path());
}

/// Every category in the sequence of sections has members: no section is
/// empty.
pub proof fn lemma_sections_have_members(
    cs: Seq<ComponentView>,
    configured: Seq<Seq<char>>,
    name: Seq<char>,
)
    requires
        category_sequence(categories_of(cs), configured).contains(name),
    ensures
        members_of(cs, name).len() > 0,
{
    lemma_category_sequence_member(categories_of(cs), configured, name);
    lemma_category_has_members(cs, name);
}

/// The categories that get a section are exactly those that have components.
pub proof fn lemma_category_sequence_member(
    present: Seq<Seq<char>>,
    configured: Seq<Seq<char>>,
    x: Seq<char>,
)
    ensures
        category_sequence(present, configured).contains(x) <==> present.contains(x),
{
    let listed = listed_categories(present, configured);
    let others = unlisted_categories(present, configured);
    let unsorted = present.filter(|name: Seq<char>| !configured.contains(name));
    let all = listed + others;
    lemma_filter_member(configured, |name: Seq<char>| present.contains(name), x);
    lemma_filter_member(present, |name: Seq<char>| !configured.contains(name), x);
    lemma_sort_by_keeps_items(unsorted, by_itself());
    vstd::seq_lib::to_multiset_contains(others, x);
    vstd::seq_lib::to_multiset_contains(unsorted, x);
    if all.contains(x) {
        let k = choose|k: int| 0 <= k < all.len() && all[k] == x;
        if k < listed.len() {
            assert(listed[k] == x);
        } else {
            assert(others[k - listed.len()] == x);
        }
    }
    if listed.contains(x) {
        let k = choose|k: int| 0 <= k < listed.len() && listed[k] == x;
        assert(all[k] == x);
    }
    if others.contains(x) {
        let k = choose|k: int| 0 <= k < others.len() && others[k] == x;
        assert(all[listed.len() + k] == x);
    }
}

/// Configured categories keep their configured order: of two configured
/// names that both have components, the one that the configuration names
/// first has its section first.
pub proof fn lemma_configured_order_is_kept(present: Seq<Seq<char>>, configured: Seq<Seq<char>>)
    ensures
        keeps_configured_order(category_sequence(present, configured), present, configured),
{
    let pred = |name: Seq<char>| present.contains(name);
    let listed = listed_categories(present, configured);
    let all = category_sequence(present, configured);
    assert forall|i: int, j: int|
        0 <= i < j < configured.len() && present.contains(#[trigger] configured[i])
            && present.contains(#[trigger] configured[j]) implies exists|p: int, q: int|
        0 <= p < q < all.len() && all[p] == configured[i] && all[q] == configured[j] by {
        lemma_filter_keeps_order(configured, pred, i, j);
        let (p, q) = choose|p: int, q: int|
            0 <= p < q < listed.len() && listed[p] == configured[i] && listed[q] == configured[j];
        assert(all[p] == configured[i] && all[q] == configured[j]);
    }
}

/// The categories that the configuration does not name stand behind all
/// those that it names, and in ascending order.
pub proof fn lemma_unlisted_follow_listed(present: Seq<Seq<char>>, configured: Seq<Seq<char>>)
    ensures
        unlisted_follow_listed(
            category_sequence(present, configured),
            configured,
            listed_categories(present, configured).len() as int,
        ),
{
    let listed = listed_categories(present, configured);
    let unsorted = present.filter(|name: Seq<char>| !configured.contains(name));
    let others = unlisted_categories(present, configured);
    let all = category_sequence(present, configured);
    let n = listed.len() as int;
    assert forall|k: int| 0 <= k < n implies configured.contains(#[trigger] all[k]) by {
        assert(listed.contains(listed[k]));
        lemma_filter_member(configured, |name: Seq<char>| present.contains(name), listed[k]);
    }
    lemma_sort_by_keeps_items(unsorted, by_itself());
    lemma_sort_by_ascending(unsorted, by_itself());
    assert forall|k: int| n <= k < all.len() implies !configured.contains(#[trigger] all[k]) by {
        assert(others.contains(others[k - n]));
        vstd::seq_lib::to_multiset_contains(others, others[k - n]);
        vstd::seq_lib::to_multiset_contains(unsorted, others[k - n]);
        lemma_filter_member(present, |name: Seq<char>| !configured.contains(name), others[k - n]);
    }
    assert forall|a: int, b: int| n <= a < b < all.len() implies !precedes(
        #[trigger] all[b],
        #[trigger] all[a],
    ) by {
        assert(!precedes(by_itself()(others[b - n]), by_itself()(others[a - n])));
    }
}

/// Among the categories of components, those that the configuration does
/// not name stand in strictly ascending order: each comes before all that
/// stand behind it, and none occurs twice.
pub proof fn lemma_unlisted_strictly_ascending(cs: Seq<ComponentView>, configured: Seq<Seq<char>>)
    ensures
        forall|a: int, b: int|
            0 <= a < b < unlisted_categories(categories_of(cs), configured).len() ==> precedes(
                #[trigger] unlisted_categories(categories_of(cs), configured)[a],
                #[trigger] unlisted_categories(categories_of(cs), configured)[b],
            ),
{
    let present = categories_of(cs);
    let unsorted = present.filter(|name: Seq<char>| !configured.contains(name));
    let others = unlisted_categories(present, configured);
    lemma_sort_by_keeps_items(unsorted, by_itself());
    lemma_sort_by_ascending(unsorted, by_itself());
    lemma_categories_of_distinct(cs);
    lemma_filter_distinct(present, |name: Seq<char>| !configured.contains(name));
    unsorted.lemma_multiset_has_no_duplicates();
    others.lemma_multiset_has_no_duplicates_conv();
    assert forall|a: int, b: int| 0 <= a < b < others.len() implies precedes(
        #[trigger] others[a],
        #[trigger] others[b],
    ) by {
        assert(!precedes(by_itself()(others[b]), by_itself()(others[a])));
        assert(others[a] != others[b]);
        lemma_precedes_total(others[a], others[b]);
    }
}

} // verus!
