//! Stable sorting by a key.
//!
//! A sort is given as the order in which the items are to be taken: a vector of
//! their positions. Two items with equal keys keep their relative order.

use vstd::prelude::*;

verus! {

/// A key by which items can be sorted.
pub trait SortKey: Sized {
    /// Whether `self` may stand before `other`.
    spec fn spec_at_most(&self, other: &Self) -> bool;

    /// Any two keys compare one way or the other.
    proof fn lemma_total(a: &Self, b: &Self)
        ensures
            a.spec_at_most(b) || b.spec_at_most(a),
    ;

    /// The comparison is transitive.
    proof fn lemma_transitive(a: &Self, b: &Self, c: &Self)
        requires
            a.spec_at_most(b),
            b.spec_at_most(c),
        ensures
            a.spec_at_most(c),
    ;

    fn at_most(&self, other: &Self) -> (r: bool)
        ensures
            r == self.spec_at_most(other),
    ;
}

impl SortKey for i64 {
    open spec fn spec_at_most(&self, other: &Self) -> bool {
        *self <= *other
    }

    proof fn lemma_total(a: &Self, b: &Self) {
    }

    proof fn lemma_transitive(a: &Self, b: &Self, c: &Self) {
    }

    fn at_most(&self, other: &Self) -> (r: bool) {
        *self <= *other
    }
}

/// Whether the item at position `a` goes before the item at position `b`: by the
/// keys, and for equal keys by the positions.
pub open spec fn goes_before<K: SortKey>(keys: Seq<K>, a: int, b: int) -> bool {
    if a < b {
        keys[a].spec_at_most(&keys[b])
    } else {
        !keys[b].spec_at_most(&keys[a])
    }
}

/// `order` lists positions of `keys`, each going before all that follow it.
pub open spec fn is_ascending<K: SortKey>(keys: Seq<K>, order: Seq<usize>) -> bool {
    &&& forall|i: int| 0 <= i < order.len() ==> (#[trigger] order[i]) < keys.len()
    &&& forall|i: int, j: int|
        0 <= i < j < order.len() ==> goes_before(keys, #[trigger] order[i] as int, #[trigger] order[j] as int)
}

/// `order` is the stable sort of all positions of `keys`.
pub open spec fn is_stable_order<K: SortKey>(keys: Seq<K>, order: Seq<usize>) -> bool {
    &&& order.len() == keys.len()
    &&& is_ascending(keys, order)
}

/// The items of `items` in the given order.
pub open spec fn reordered<T>(items: Seq<T>, order: Seq<usize>) -> Seq<T> {
    Seq::new(order.len(), |i: int| items[order[i] as int])
}

proof fn lemma_goes_before_transitive<K: SortKey>(keys: Seq<K>, a: int, b: int, c: int)
    requires
        goes_before(keys, a, b),
        goes_before(keys, b, c),
    ensures
        goes_before(keys, a, c),
{
    K::lemma_total(&keys[a], &keys[b]);
    K::lemma_total(&keys[b], &keys[c]);
    K::lemma_total(&keys[a], &keys[c]);
    if keys[a].spec_at_most(&keys[b]) && keys[b].spec_at_most(&keys[c]) {
        K::lemma_transitive(&keys[a], &keys[b], &keys[c]);
    }
    if keys[c].spec_at_most(&keys[a]) && keys[a].spec_at_most(&keys[b]) {
        K::lemma_transitive(&keys[c], &keys[a], &keys[b]);
    }
    if keys[b].spec_at_most(&keys[c]) && keys[c].spec_at_most(&keys[a]) {
        K::lemma_transitive(&keys[b], &keys[c], &keys[a]);
    }
}

proof fn lemma_goes_before_total<K: SortKey>(keys: Seq<K>, a: int, b: int)
    requires
        a != b,
    ensures
        goes_before(keys, a, b) != goes_before(keys, b, a),
{
}

/// A position never goes before itself.
proof fn lemma_goes_before_irreflexive<K: SortKey>(keys: Seq<K>, a: int)
    ensures
        !goes_before(keys, a, a),
{
    K::lemma_total(&keys[a], &keys[a]);
}

/// Sorting loses nothing and repeats nothing: a stable order takes every position
/// exactly once.
pub proof fn law_stable_order_takes_every_position_once<K: SortKey>(
    keys: Seq<K>,
    order: Seq<usize>,
)
    requires
        is_stable_order(keys, order),
    ensures
        order.no_duplicates(),
        forall|p: usize| p < keys.len() ==> #[trigger] order.contains(p),
{
    assert(order.no_duplicates()) by {
        assert forall|i: int, j: int| 0 <= i < j < order.len() implies order[i] != order[j] by {
            lemma_goes_before_irreflexive(keys, order[i] as int);
            assert(goes_before(keys, order[i] as int, order[j] as int));
        }
    }
    lemma_distinct_positions_cover(order, keys.len());
}

/// As many different positions as there are cover all of them.
proof fn lemma_distinct_positions_cover(order: Seq<usize>, n: nat)
    requires
        order.len() == n,
        order.no_duplicates(),
        forall|i: int| 0 <= i < order.len() ==> (#[trigger] order[i]) < n,
    ensures
        forall|p: usize| p < n ==> #[trigger] order.contains(p),
{
    let wide = order.map_values(|p: usize| p as int);
    assert(wide.no_duplicates());
    wide.unique_seq_to_set();
    let positions = vstd::set_lib::set_int_range(0, n as int);
    vstd::set_lib::lemma_int_range(0, n as int);
    assert(wide.to_set().subset_of(positions)) by {
        assert forall|p: int| wide.to_set().contains(p) implies positions.contains(p) by {
            let i = choose|i: int| 0 <= i < wide.len() && wide[i] == p;
            assert(wide[i] == order[i]);
        }
    }
    vstd::set_lib::lemma_subset_equality(wide.to_set(), positions);
    assert forall|p: usize| p < n implies #[trigger] order.contains(p) by {
        assert(positions.contains(p as int));
        assert(wide.to_set().contains(p as int));
        let i = choose|i: int| 0 <= i < wide.len() && wide[i] == p;
        assert(order[i] == p);
    }
}

/// There is only one stable order of given keys.
pub proof fn law_stable_order_is_unique<K: SortKey>(
    keys: Seq<K>,
    left: Seq<usize>,
    right: Seq<usize>,
)
    requires
        is_stable_order(keys, left),
        is_stable_order(keys, right),
    ensures
        left == right,
{
    assert forall|n: int| 0 <= n <= left.len() implies left.take(n) == right.take(n) by {
        lemma_stable_orders_agree(keys, left, right, n as nat);
    }
    assert(left.take(left.len() as int) == left);
    assert(right.take(right.len() as int) == right);
}

proof fn lemma_stable_orders_agree<K: SortKey>(
    keys: Seq<K>,
    left: Seq<usize>,
    right: Seq<usize>,
    n: nat,
)
    requires
        is_stable_order(keys, left),
        is_stable_order(keys, right),
        n <= keys.len(),
    ensures
        left.take(n as int) == right.take(n as int),
    decreases n,
{
    if n > 0 {
        let m = n - 1;
        lemma_stable_orders_agree(keys, left, right, m as nat);
        law_stable_order_takes_every_position_once(keys, left);
        law_stable_order_takes_every_position_once(keys, right);
        assert(left[m] == right[m]) by {
            assert(left.contains(right[m]));
            assert(right.contains(left[m]));
            let i = choose|i: int| 0 <= i < left.len() && left[i] == right[m];
            let j = choose|j: int| 0 <= j < right.len() && right[j] == left[m];
            if i < m {
                assert(left.take(m)[i] == right.take(m)[i]);
                assert(right[i] == right[m]);
            }
            if j < m {
                assert(left.take(m)[j] == right.take(m)[j]);
                assert(left[j] == left[m]);
            }
            if i > m && j > m {
                assert(goes_before(keys, left[m] as int, left[i] as int));
                assert(goes_before(keys, right[m] as int, right[j] as int));
                lemma_goes_before_total(keys, left[m] as int, right[m] as int);
            }
        }
        assert(left.take(n as int) =~= left.take(m).push(left[m]));
        assert(right.take(n as int) =~= right.take(m).push(right[m]));
    }
}

/// Taking items in a stable order neither loses nor repeats any.
pub proof fn law_reordering_keeps_the_items<K: SortKey, T>(
    keys: Seq<K>,
    order: Seq<usize>,
    items: Seq<T>,
)
    requires
        is_stable_order(keys, order),
        items.len() == keys.len(),
        items.len() <= usize::MAX,
    ensures
        reordered(items, order).to_multiset() == items.to_multiset(),
{
    law_stable_order_takes_every_position_once(keys, order);
    lemma_permuting_keeps_the_items(order, items);
}

proof fn lemma_permuting_keeps_the_items<T>(order: Seq<usize>, items: Seq<T>)
    requires
        order.len() == items.len(),
        order.no_duplicates(),
        forall|i: int| 0 <= i < order.len() ==> (#[trigger] order[i]) < items.len(),
        items.len() <= usize::MAX,
    ensures
        reordered(items, order).to_multiset() == items.to_multiset(),
    decreases items.len(),
{
    broadcast use vstd::seq_lib::group_to_multiset_ensures;

    if items.len() == 0 {
        assert(reordered(items, order) =~= items);
    } else {
        let top = (items.len() - 1) as usize;
        lemma_distinct_positions_cover(order, items.len());
        assert(order.contains(top));
        let at = choose|i: int| 0 <= i < order.len() && order[i] == top;
        let fewer = order.remove(at);
        let rest = items.drop_last();
        assert forall|i: int| 0 <= i < fewer.len() implies (#[trigger] fewer[i]) < rest.len() by {
            if i < at {
                assert(fewer[i] == order[i]);
            } else {
                assert(fewer[i] == order[i + 1]);
            }
        }
        assert(fewer.no_duplicates()) by {
            assert forall|i: int, j: int|
                0 <= i < fewer.len() && 0 <= j < fewer.len() && i != j implies fewer[i]
                != fewer[j] by {
                let a = if i < at { i } else { i + 1 };
                let b = if j < at { j } else { j + 1 };
                assert(fewer[i] == order[a] && fewer[j] == order[b] && a != b);
            }
        }
        lemma_permuting_keeps_the_items(fewer, rest);
        assert(reordered(items, order) =~= reordered(rest, fewer).insert(at, items.last()));
        assert(items =~= rest.push(items.last()));
        vstd::seq_lib::to_multiset_insert(reordered(rest, fewer), at, items.last());
        vstd::seq_lib::to_multiset_build(rest, items.last());
    }
}

/// Merges two ascending lists of positions, the first with the lower positions.
fn merge_orders<K: SortKey>(keys: &Vec<K>, left: &Vec<usize>, right: &Vec<usize>) -> (merged: Vec<usize>)
    requires
        is_ascending(keys@, left@),
        is_ascending(keys@, right@),
        left.len() + right.len() <= usize::MAX,
        forall|i: int, j: int|
            0 <= i < left.len() && 0 <= j < right.len() ==> #[trigger] left[i] < #[trigger] right[j],
    ensures
        is_ascending(keys@, merged@),
        merged.len() == left.len() + right.len(),
        forall|k: int|
            0 <= k < merged.len() ==> left@.contains(#[trigger] merged[k]) || right@.contains(merged[k]),
{
    let mut merged: Vec<usize> = Vec::with_capacity(left.len() + right.len());
    let mut i: usize = 0;
    let mut j: usize = 0;
    while i < left.len() || j < right.len()
        invariant
            is_ascending(keys@, left@),
            is_ascending(keys@, right@),
            forall|i: int, j: int|
                0 <= i < left.len() && 0 <= j < right.len() ==> #[trigger] left[i] < #[trigger] right[j],
            i <= left.len(),
            j <= right.len(),
            merged.len() == i + j,
            is_ascending(keys@, merged@),
            forall|k: int|
                0 <= k < merged.len() ==> left@.contains(#[trigger] merged[k]) || right@.contains(merged[k]),
            forall|k: int, m: int|
                0 <= k < merged.len() && i <= m < left.len() ==> goes_before(
                    keys@,
                    #[trigger] merged[k] as int,
                    #[trigger] left[m] as int,
                ),
            forall|k: int, m: int|
                0 <= k < merged.len() && j <= m < right.len() ==> goes_before(
                    keys@,
                    #[trigger] merged[k] as int,
                    #[trigger] right[m] as int,
                ),
        decreases left.len() - i + right.len() - j,
    {
        let from_left = if i >= left.len() {
            false
        } else if j >= right.len() {
            true
        } else {
            keys[left[i]].at_most(&keys[right[j]])
        };
        let ghost before = merged@;
        if from_left {
            proof {
                if j < right.len() {
                    assert(goes_before(keys@, left[i as int] as int, right[j as int] as int));
                    assert forall|m: int| j <= m < right.len() implies goes_before(
                        keys@,
                        left[i as int] as int,
                        #[trigger] right[m] as int,
                    ) by {
                        if m > j {
                            lemma_goes_before_transitive(
                                keys@,
                                left[i as int] as int,
                                right[j as int] as int,
                                right[m] as int,
                            );
                        }
                    }
                }
            }
            merged.push(left[i]);
            assert(left@.contains(left[i as int]));
            i = i + 1;
        } else {
            proof {
                if i < left.len() {
                    assert(goes_before(keys@, right[j as int] as int, left[i as int] as int));
                    assert forall|m: int| i <= m < left.len() implies goes_before(
                        keys@,
                        right[j as int] as int,
                        #[trigger] left[m] as int,
                    ) by {
                        if m > i {
                            lemma_goes_before_transitive(
                                keys@,
                                right[j as int] as int,
                                left[i as int] as int,
                                left[m] as int,
                            );
                        }
                    }
                }
            }
            merged.push(right[j]);
            assert(right@.contains(right[j as int]));
            j = j + 1;
        }
        assert(forall|k: int| 0 <= k < before.len() ==> #[trigger] merged[k] == before[k]);
    }
    merged
}

/// The stable order of the positions from `low` up to, not including, `high`.
fn order_of_range<K: SortKey>(keys: &Vec<K>, low: usize, high: usize) -> (order: Vec<usize>)
    requires
        low <= high <= keys.len(),
    ensures
        order.len() == high - low,
        is_ascending(keys@, order@),
        forall|k: int| 0 <= k < order.len() ==> low <= #[trigger] order[k] < high,
    decreases high - low,
{
    if high - low <= 1 {
        let mut order: Vec<usize> = Vec::new();
        if low < high {
            order.push(low);
        }
        return order;
    }
    let middle: usize = low + (high - low) / 2;
    let left = order_of_range(keys, low, middle);
    let right = order_of_range(keys, middle, high);
    let merged = merge_orders(keys, &left, &right);
    assert forall|k: int| 0 <= k < merged.len() implies low <= #[trigger] merged[k] < high by {
        if left@.contains(merged[k]) {
            let i = choose|i: int| 0 <= i < left.len() && left@[i] == merged[k];
            assert(left[i] == merged[k]);
        } else {
            let i = choose|i: int| 0 <= i < right.len() && right@[i] == merged[k];
            assert(right[i] == merged[k]);
        }
    }
    merged
}

/// The order in which the items with the given keys stand when they are sorted by
/// key, items with equal keys staying in the order they have.
pub fn stable_order<K: SortKey>(keys: &Vec<K>) -> (order: Vec<usize>)
    ensures
        is_stable_order(keys@, order@),
{
    order_of_range(keys, 0, keys.len())
}

/// `at` lists, in ascending order and each once, exactly those positions below `n` that
/// `keep` picks.
pub open spec fn is_selection(n: int, keep: spec_fn(int) -> bool, at: Seq<int>) -> bool {
    &&& forall|k: int| 0 <= k < at.len() ==> 0 <= #[trigger] at[k] < n && keep(at[k])
    &&& forall|k: int, m: int| 0 <= k < m < at.len() ==> #[trigger] at[k] < #[trigger] at[m]
    &&& forall|i: int| 0 <= i < n && #[trigger] keep(i) ==> at.contains(i)
}

/// There is only one selection.
pub proof fn law_selection_is_unique(
    n: int,
    keep: spec_fn(int) -> bool,
    left: Seq<int>,
    right: Seq<int>,
)
    requires
        is_selection(n, keep, left),
        is_selection(n, keep, right),
    ensures
        left == right,
{
    lemma_selections_agree(n, keep, left, right, left.len());
    lemma_selections_agree(n, keep, right, left, right.len());
    assert(left.take(left.len() as int) =~= left);
    assert(right.take(right.len() as int) =~= right);
}

proof fn lemma_selections_agree(
    n: int,
    keep: spec_fn(int) -> bool,
    left: Seq<int>,
    right: Seq<int>,
    count: nat,
)
    requires
        is_selection(n, keep, left),
        is_selection(n, keep, right),
        count <= left.len(),
    ensures
        count <= right.len(),
        left.take(count as int) == right.take(count as int),
    decreases count,
{
    if count > 0 {
        let m = count - 1;
        lemma_selections_agree(n, keep, left, right, m as nat);
        assert(keep(left[m]));
        let j = choose|j: int| 0 <= j < right.len() && right[j] == left[m];
        if j < m {
            assert(left.take(m)[j] == right.take(m)[j]);
            assert(left[j] < left[m]);
        }
        assert(keep(right[m]));
        let i = choose|i: int| 0 <= i < left.len() && left[i] == right[m];
        if i < m {
            assert(left.take(m)[i] == right.take(m)[i]);
            assert(right[i] < right[m]);
        }
        if i > m && j > m {
            assert(left[m] < left[i]);
            assert(right[m] < right[j]);
        }
        assert(left.take(count as int) =~= left.take(m).push(left[m]));
        assert(right.take(count as int) =~= right.take(m).push(right[m]));
    }
}

/// One more position joins a selection where it is picked.
pub proof fn lemma_selection_grows(
    n: int,
    before: spec_fn(int) -> bool,
    keep: spec_fn(int) -> bool,
    at: Seq<int>,
) -> (more: Seq<int>)
    requires
        0 <= n,
        is_selection(n, before, at),
        forall|i: int| 0 <= i < n ==> #[trigger] before(i) == keep(i),
    ensures
        more == if keep(n) {
            at.push(n)
        } else {
            at
        },
        is_selection(n + 1, keep, more),
{
    let more = if keep(n) {
        at.push(n)
    } else {
        at
    };
    assert forall|k: int| 0 <= k < more.len() implies 0 <= #[trigger] more[k] < n + 1 && keep(
        more[k],
    ) by {
        if k < at.len() {
            assert(more[k] == at[k]);
            assert(before(at[k]));
        }
    }
    assert forall|i: int| 0 <= i < n + 1 && #[trigger] keep(i) implies more.contains(i) by {
        if i < n {
            assert(before(i));
            let k = choose|k: int| 0 <= k < at.len() && at[k] == i;
            assert(more[k] == i);
        } else {
            assert(more[at.len() as int] == n);
        }
    }
    more
}

/// Numbers are sorted by size, and equal numbers by position.
pub proof fn law_numbers_are_sorted(keys: Seq<i64>, order: Seq<usize>)
    requires
        is_stable_order(keys, order),
    ensures
        order.len() == keys.len(),
        forall|i: int| 0 <= i < order.len() ==> (#[trigger] order[i]) < keys.len(),
        forall|p: usize| p < keys.len() ==> #[trigger] order.contains(p),
        forall|i: int, j: int|
            0 <= i < j < order.len() ==> {
                let a = #[trigger] order[i];
                let b = #[trigger] order[j];
                keys[a as int] < keys[b as int] || (keys[a as int] == keys[b as int] && a < b)
            },
{
    law_stable_order_takes_every_position_once(keys, order);
    assert forall|i: int, j: int| 0 <= i < j < order.len() implies ({
        let a = #[trigger] order[i];
        let b = #[trigger] order[j];
        keys[a as int] < keys[b as int] || (keys[a as int] == keys[b as int] && a < b)
    }) by {
        assert(goes_before(keys, order[i] as int, order[j] as int));
    }
}

} // verus!
