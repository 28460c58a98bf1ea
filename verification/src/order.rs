//! The order of texts and sorting by it.
//!
//! Texts are compared character by character; sorting puts items in
//! ascending order of a key and keeps items with equal keys in the order in
//! which they came.

use crate::text::{precedes, precedes_from};
use vstd::prelude::*;

verus! {

/// No text comes before itself, and of two texts at most one comes before
/// the other.
pub proof fn lemma_precedes_from_asymmetric(a: Seq<char>, b: Seq<char>, from: int)
    requires
        0 <= from,
        precedes_from(a, b, from),
    ensures
        !precedes_from(b, a, from),
    decreases a.len() - from,
{
    if from < a.len() && from < b.len() && a[from] == b[from] {
        lemma_precedes_from_asymmetric(a, b, from + 1);
    }
}

/// What comes before a text comes before all that the text comes before.
pub proof fn lemma_precedes_from_transitive(a: Seq<char>, b: Seq<char>, c: Seq<char>, from: int)
    requires
        0 <= from,
        precedes_from(a, b, from),
        precedes_from(b, c, from),
    ensures
        precedes_from(a, c, from),
    decreases a.len() - from,
{
    if from < a.len() && from < b.len() && from < c.len() && a[from] == b[from] && b[from]
        == c[from] {
        lemma_precedes_from_transitive(a, b, c, from + 1);
    }
}

/// Two texts that agree before `from` and of which neither comes before the
/// other from there on are the same text.
pub proof fn lemma_precedes_from_total(a: Seq<char>, b: Seq<char>, from: int)
    requires
        0 <= from <= a.len(),
        from <= b.len(),
        forall|k: int| 0 <= k < from ==> a[k] == b[k],
        !precedes_from(a, b, from),
        !precedes_from(b, a, from),
    ensures
        a == b,
    decreases a.len() - from,
{
    if from < a.len() && from < b.len() {
        if a[from] == b[from] {
            lemma_precedes_from_total(a, b, from + 1);
        }
    } else {
        assert(a =~= b);
    }
}

/// The order of texts is strict: `a` before `b` rules out `b` before `a`.
pub proof fn lemma_precedes_asymmetric(a: Seq<char>, b: Seq<char>)
    requires
        precedes(a, b),
    ensures
        !precedes(b, a),
{
    lemma_precedes_from_asymmetric(a, b, 0);
}

/// The order of texts is transitive.
pub proof fn lemma_precedes_transitive(a: Seq<char>, b: Seq<char>, c: Seq<char>)
    requires
        precedes(a, b),
        precedes(b, c),
    ensures
        precedes(a, c),
{
    lemma_precedes_from_transitive(a, b, c, 0);
}

/// The order of texts is total: of two different texts one comes before the
/// other.
pub proof fn lemma_precedes_total(a: Seq<char>, b: Seq<char>)
    ensures
        a == b || precedes(a, b) || precedes(b, a),
{
    if !precedes(a, b) && !precedes(b, a) {
        lemma_precedes_from_total(a, b, 0);
    }
}

/// Where an item with the key `k` goes into `sorted`: before the first item
/// from `from` on whose key comes strictly behind `k`.
pub open spec fn position_by<A>(
    sorted: Seq<A>,
    key: spec_fn(A) -> Seq<char>,
    k: Seq<char>,
    from: int,
) -> int
    decreases sorted.len() - from,
{
    if from < 0 || from >= sorted.len() {
        sorted.len() as int
    } else if precedes(k, key(sorted[from])) {
        from
    } else {
        position_by(sorted, key, k, from + 1)
    }
}

/// The items of `items` in ascending order of their keys; items with equal
/// keys keep the order that they have in `items`.
pub open spec fn sort_by<A>(items: Seq<A>, key: spec_fn(A) -> Seq<char>) -> Seq<A>
    decreases items.len(),
{
    if items.len() == 0 {
        Seq::empty()
    } else {
        let earlier = sort_by(items.drop_last(), key);
        earlier.insert(position_by(earlier, key, key(items.last()), 0), items.last())
    }
}

/// No item of `items` has a key that comes before the key of an item
/// before it.
pub open spec fn ascending_by<A>(items: Seq<A>, key: spec_fn(A) -> Seq<char>) -> bool {
    forall|i: int, j: int|
        0 <= i < j < items.len() ==> !precedes(#[trigger] key(items[j]), #[trigger] key(items[i]))
}

/// The position found lies in the sequence, behind the items whose keys do
/// not come behind `k`, and at an item whose key does come behind `k`.
pub proof fn lemma_position_by<A>(
    sorted: Seq<A>,
    key: spec_fn(A) -> Seq<char>,
    k: Seq<char>,
    from: int,
)
    requires
        0 <= from <= sorted.len(),
    ensures
        from <= position_by(sorted, key, k, from) <= sorted.len(),
        forall|i: int|
            from <= i < position_by(sorted, key, k, from) ==> !precedes(k, key(sorted[i])),
        position_by(sorted, key, k, from) < sorted.len() ==> precedes(
            k,
            key(sorted[position_by(sorted, key, k, from)]),
        ),
    decreases sorted.len() - from,
{
    if from < sorted.len() && !precedes(k, key(sorted[from])) {
        lemma_position_by(sorted, key, k, from + 1);
    }
}

/// Sorting neither adds nor loses an item.
pub proof fn lemma_sort_by_keeps_items<A>(items: Seq<A>, key: spec_fn(A) -> Seq<char>)
    ensures
        sort_by(items, key).len() == items.len(),
        sort_by(items, key).to_multiset() == items.to_multiset(),
    decreases items.len(),
{
    broadcast use vstd::seq_lib::group_to_multiset_ensures;

    if items.len() > 0 {
        let front = items.drop_last();
        let earlier = sort_by(front, key);
        lemma_sort_by_keeps_items(front, key);
        lemma_position_by(earlier, key, key(items.last()), 0);
        let at = position_by(earlier, key, key(items.last()), 0);
        assert(front.push(items.last()) =~= items);
        assert(earlier.insert(at, items.last()).to_multiset() == earlier.to_multiset().insert(
            items.last(),
        ));
        assert(front.push(items.last()).to_multiset() == front.to_multiset().insert(items.last()));
    }
}

/// What sorting gives is in ascending order.
pub proof fn lemma_sort_by_ascending<A>(items: Seq<A>, key: spec_fn(A) -> Seq<char>)
    ensures
        ascending_by(sort_by(items, key), key),
    decreases items.len(),
{
    if items.len() > 0 {
        let front = items.drop_last();
        let earlier = sort_by(front, key);
        let k = key(items.last());
        lemma_sort_by_ascending(front, key);
        lemma_sort_by_keeps_items(front, key);
        lemma_position_by(earlier, key, k, 0);
        let at = position_by(earlier, key, k, 0);
        let sorted = earlier.insert(at, items.last());
        assert forall|i: int, j: int| 0 <= i < j < sorted.len() implies !precedes(
            #[trigger] key(sorted[j]),
            #[trigger] key(sorted[i]),
        ) by {
            if j < at {
                assert(sorted[i] == earlier[i] && sorted[j] == earlier[j]);
            } else if j == at {
                assert(sorted[i] == earlier[i]);
                if precedes(k, key(earlier[i])) {
                    assert(false);
                }
                if precedes(key(sorted[j]), key(sorted[i])) {
                    assert(false);
                }
            } else if i == at {
                assert(sorted[j] == earlier[j - 1]);
                assert(!precedes(key(earlier[j - 1]), key(earlier[at])) || j - 1 == at);
                if precedes(key(earlier[j - 1]), k) {
                    if j - 1 == at {
                        lemma_precedes_asymmetric(k, key(earlier[at]));
                    } else {
                        lemma_precedes_transitive(key(earlier[j - 1]), k, key(earlier[at]));
                    }
                }
            } else if i < at {
                assert(sorted[i] == earlier[i] && sorted[j] == earlier[j - 1]);
            } else {
                assert(sorted[i] == earlier[i - 1] && sorted[j] == earlier[j - 1]);
            }
        }
    }
}

/// What comes before a text comes before all that do not come before that
/// text.
pub proof fn lemma_before_then_not_behind(a: Seq<char>, b: Seq<char>, c: Seq<char>)
    requires
        precedes(a, b),
        !precedes(c, b),
    ensures
        precedes(a, c),
{
    lemma_precedes_total(b, c);
    if b != c {
        lemma_precedes_transitive(a, b, c);
    }
}

/// Filtering a sequence of which no item meets the condition leaves nothing.
pub proof fn lemma_filter_none<A>(s: Seq<A>, pred: spec_fn(A) -> bool)
    requires
        forall|i: int| 0 <= i < s.len() ==> !pred(s[i]),
    ensures
        s.filter(pred) == Seq::<A>::empty(),
    decreases s.len(),
{
    reveal(Seq::filter);
    if s.len() > 0 {
        lemma_filter_none(s.drop_last(), pred);
    }
}

/// Sorting is stable: the items that share a key stand in the sorted
/// sequence in the order in which they stand in `items`.
pub proof fn lemma_sort_by_stable<A>(items: Seq<A>, key: spec_fn(A) -> Seq<char>, k: Seq<char>)
    ensures
        sort_by(items, key).filter(|x: A| key(x) == k) == items.filter(|x: A| key(x) == k),
    decreases items.len(),
{
    reveal(Seq::filter);
    let pred = |x: A| key(x) == k;
    if items.len() > 0 {
        let front = items.drop_last();
        let x = items.last();
        let earlier = sort_by(front, key);
        lemma_sort_by_stable(front, key, k);
        lemma_sort_by_ascending(front, key);
        lemma_position_by(earlier, key, key(x), 0);
        let at = position_by(earlier, key, key(x), 0);
        let sorted = earlier.insert(at, x);
        let left = earlier.take(at);
        let right = earlier.skip(at);
        let one = Seq::<A>::empty().push(x);
        assert(sorted =~= left + one + right);
        assert(earlier =~= left + right);
        Seq::filter_distributes_over_add(left + one, right, pred);
        Seq::filter_distributes_over_add(left, one, pred);
        Seq::filter_distributes_over_add(left, right, pred);
        assert(one.drop_last() =~= Seq::<A>::empty());
        assert(one.last() == x);
        assert(Seq::<A>::empty().filter(pred) =~= Seq::<A>::empty());
        if key(x) == k {
            assert(one.filter(pred) =~= one);
            assert forall|i: int| 0 <= i < right.len() implies !pred(right[i]) by {
                assert(right[i] == earlier[at + i]);
                if i > 0 {
                    assert(!precedes(key(earlier[at + i]), key(earlier[at])));
                    lemma_before_then_not_behind(k, key(earlier[at]), key(earlier[at + i]));
                }
                if key(right[i]) == k {
                    lemma_precedes_asymmetric(k, k);
                }
            }
            lemma_filter_none(right, pred);
            assert(sorted.filter(pred) =~= earlier.filter(pred).push(x));
        } else {
            assert(one.filter(pred) =~= Seq::<A>::empty());
            assert(sorted.filter(pred) =~= earlier.filter(pred));
        }
    }
}

/// Filtering keeps exactly the items that meet the condition.
pub proof fn lemma_filter_member<A>(s: Seq<A>, pred: spec_fn(A) -> bool, x: A)
    ensures
        s.filter(pred).contains(x) <==> s.contains(x) && pred(x),
    decreases s.len(),
{
    reveal(Seq::filter);
    if s.len() > 0 {
        let front = s.drop_last();
        lemma_filter_member(front, pred, x);
        if s.contains(x) && pred(x) {
            let i = choose|i: int| 0 <= i < s.len() && s[i] == x;
            if i < s.len() - 1 {
                assert(front[i] == x);
                let k = choose|k: int|
                    0 <= k < front.filter(pred).len() && front.filter(pred)[k] == x;
                assert(s.filter(pred)[k] == x);
            } else {
                assert(s.filter(pred).last() == x);
            }
        }
        if s.filter(pred).contains(x) {
            let k = choose|k: int| 0 <= k < s.filter(pred).len() && s.filter(pred)[k] == x;
            if pred(s.last()) && k == s.filter(pred).len() - 1 {
                assert(s[s.len() - 1] == x);
            } else {
                assert(front.filter(pred)[k] == x);
                let i = choose|i: int| 0 <= i < front.len() && front[i] == x;
                assert(s[i] == x);
            }
        }
    }
}

/// Filtering a sequence in which nothing occurs twice gives such a sequence.
pub proof fn lemma_filter_distinct<A>(s: Seq<A>, pred: spec_fn(A) -> bool)
    requires
        s.no_duplicates(),
    ensures
        s.filter(pred).no_duplicates(),
    decreases s.len(),
{
    reveal(Seq::filter);
    if s.len() > 0 {
        let front = s.drop_last();
        lemma_filter_distinct(front, pred);
        lemma_filter_member(front, pred, s.last());
        if front.contains(s.last()) {
            let i = choose|i: int| 0 <= i < front.len() && front[i] == s.last();
            assert(s[i] == s[s.len() - 1]);
        }
    }
}

/// Filtering keeps the order of the items that it keeps.
pub proof fn lemma_filter_keeps_order<A>(s: Seq<A>, pred: spec_fn(A) -> bool, i: int, j: int)
    requires
        0 <= i < j < s.len(),
        pred(s[i]),
        pred(s[j]),
    ensures
        exists|p: int, q: int|
            0 <= p < q < s.filter(pred).len() && s.filter(pred)[p] == s[i] && s.filter(pred)[q]
                == s[j],
    decreases s.len(),
{
    reveal(Seq::filter);
    let front = s.drop_last();
    let kept = front.filter(pred);
    if j < s.len() - 1 {
        lemma_filter_keeps_order(front, pred, i, j);
        let (p, q) = choose|p: int, q: int|
            0 <= p < q < kept.len() && kept[p] == front[i] && kept[q] == front[j];
        assert(s.filter(pred)[p] == s[i] && s.filter(pred)[q] == s[j]);
    } else {
        assert(front[i] == s[i]);
        lemma_filter_member(front, pred, s[i]);
        let p = choose|p: int| 0 <= p < kept.len() && kept[p] == s[i];
        let q = kept.len() as int;
        assert(s.filter(pred) == kept.push(s[j]));
        assert(s.filter(pred)[p] == s[i] && s.filter(pred)[q] == s[j]);
    }
}

} // verus!
