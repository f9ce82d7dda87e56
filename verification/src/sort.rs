//! Stable sorting: what it means for a sequence to be another one put in
//! order with ties left as they stood, and the reading order of paths.

use vstd::prelude::*;
use crate::order::{chains, is_symmetric, is_total_preorder, lemma_lex_total_preorder, lex_rule, Order};
use crate::paths::{compare_split_paths, lemma_segment_rule_total_preorder, segment_rule, views, Sorting};

verus! {

/// `perm` holds the index `v`.
pub open spec fn occurs(perm: Seq<int>, v: int) -> bool {
    exists|k: int| 0 <= k < perm.len() && #[trigger] perm[k] == v
}

/// `perm` lists every index below `n` exactly once, and nothing else.
pub open spec fn is_permutation(perm: Seq<int>, n: nat) -> bool {
    &&& perm.len() == n
    &&& forall|k: int| 0 <= k < n ==> 0 <= #[trigger] perm[k] < n
    &&& forall|k: int, l: int| 0 <= k < l < n ==> #[trigger] perm[k] != #[trigger] perm[l]
    &&& forall|v: int| 0 <= v < n ==> #[trigger] occurs(perm, v)
}

/// The item at `i` must be read before the item at `j`: it is smaller, or
/// it compares equal and stood first.
pub open spec fn precedes<T>(rule: spec_fn(T, T) -> Order, items: Seq<T>, i: int, j: int) -> bool {
    rule(items[i], items[j]) == Order::Less || (rule(items[i], items[j]) == Order::Equal && i < j)
}

/// `perm` visits the first `n` items in sorted order, equal items in the order
/// in which they stand in `items`.
pub open spec fn is_stable_order_of_first<T>(
    perm: Seq<int>,
    items: Seq<T>,
    rule: spec_fn(T, T) -> Order,
    n: nat,
) -> bool {
    &&& n <= items.len()
    &&& is_permutation(perm, n)
    &&& forall|k: int, l: int|
        0 <= k < l < n ==> precedes(rule, items, #[trigger] perm[k], #[trigger] perm[l])
}

/// `perm` visits all of `items` in sorted order, equal items in the order in
/// which they stand in `items`.
pub open spec fn is_stable_order<T>(perm: Seq<int>, items: Seq<T>, rule: spec_fn(T, T) -> Order) -> bool {
    is_stable_order_of_first(perm, items, rule, items.len())
}

/// The items of `items` in the order in which `perm` visits them.
pub open spec fn reorder<T>(items: Seq<T>, perm: Seq<int>) -> Seq<T> {
    Seq::new(perm.len(), |k: int| items[perm[k]])
}

/// `out` holds the items of `items`, each once, sorted under `rule`, with
/// items that compare equal in the order in which they stood in `items`.
pub open spec fn is_stable_sort_of<T>(out: Seq<T>, items: Seq<T>, rule: spec_fn(T, T) -> Order) -> bool {
    exists|perm: Seq<int>| is_stable_order(perm, items, rule) && #[trigger] reorder(items, perm) == out
}

/// No item of `s` is greater than one that stands after it.
pub open spec fn is_ordered<T>(s: Seq<T>, rule: spec_fn(T, T) -> Order) -> bool {
    forall|i: int, j: int| 0 <= i < j < s.len() ==> rule(#[trigger] s[i], #[trigger] s[j]) != Order::Greater
}

/// Inserting the next index behind the last item that is not greater keeps
/// the visiting order sorted and stable.
proof fn lemma_insert_keeps_order<T>(
    perm: Seq<int>,
    items: Seq<T>,
    rule: spec_fn(T, T) -> Order,
    i: int,
    p: int,
)
    requires
        is_total_preorder(rule),
        0 <= i < items.len(),
        is_stable_order_of_first(perm, items, rule, i as nat),
        0 <= p <= i,
        p > 0 ==> rule(items[perm[p - 1]], items[i]) != Order::Greater,
        forall|q: int| p <= q < i ==> rule(items[#[trigger] perm[q]], items[i]) == Order::Greater,
    ensures
        is_stable_order_of_first(perm.insert(p, i), items, rule, (i + 1) as nat),
{
    let next = perm.insert(p, i);
    perm.insert_ensures(p, i);
    assert forall|k: int| 0 <= k < i + 1 implies 0 <= #[trigger] next[k] < i + 1 by {
        if k < p {
            assert(next[k] == perm[k]);
        } else if k > p {
            assert(next[k] == perm[k - 1]);
        }
    }
    assert forall|v: int| 0 <= v < i + 1 implies #[trigger] occurs(next, v) by {
        if v == i {
            assert(next[p] == v);
        } else {
            assert(occurs(perm, v));
            let k = choose|k: int| 0 <= k < perm.len() && #[trigger] perm[k] == v;
            if k < p {
                assert(next[k] == v);
            } else {
                assert(next[k + 1] == v);
            }
        }
    }
    assert forall|k: int, l: int| 0 <= k < l < i + 1 implies #[trigger] next[k] != #[trigger] next[l]
        && precedes(rule, items, next[k], next[l]) by {
        let a = if k < p { k } else { k - 1 };
        let b = if l < p { l } else { l - 1 };
        if k != p {
            assert(next[k] == perm[a]);
        }
        if l != p {
            assert(next[l] == perm[b]);
        }
        if k != p && l != p {
            assert(precedes(rule, items, perm[a], perm[b]));
        } else if l == p {
            assert(0 <= perm[k] < i);
            if k < p - 1 {
                assert(precedes(rule, items, perm[k], perm[p - 1]));
                assert(chains(
                    rule(items[perm[k]], items[perm[p - 1]]),
                    rule(items[perm[p - 1]], items[i]),
                    rule(items[perm[k]], items[i]),
                ));
            }
        } else {
            assert(0 <= perm[b] < i);
            assert(rule(items[perm[b]], items[i]) == Order::Greater);
            assert(rule(items[i], items[perm[b]]) == rule(items[perm[b]], items[i]).flip());
        }
    }
}

/// The indices held by `v`.
pub open spec fn indices(v: Seq<usize>) -> Seq<int> {
    Seq::new(v.len(), |k: int| v[k] as int)
}

/// The paths held by `keys`, each as its sequence of segments.
pub open spec fn key_views(keys: Seq<Vec<Vec<char>>>) -> Seq<Seq<Seq<char>>> {
    Seq::new(keys.len(), |i: int| views(keys[i]@))
}

/// How two paths, given by their segments, compare under `policy`.
pub open spec fn split_path_rule(policy: Sorting) -> spec_fn(Seq<Seq<char>>, Seq<Seq<char>>) -> Order {
    lex_rule(segment_rule(policy))
}

/// The order in which to read the paths `keys`, given by their segments:
/// sorted under `policy`, paths that compare equal in the order in which
/// they stand in `keys`.
pub fn stable_order(keys: &Vec<Vec<Vec<char>>>, policy: Sorting) -> (order: Vec<usize>)
    ensures
        is_stable_order(indices(order@), key_views(keys@), split_path_rule(policy)),
{
    let ghost items = key_views(keys@);
    let ghost rule = split_path_rule(policy);
    proof {
        lemma_segment_rule_total_preorder(policy);
        lemma_lex_total_preorder(segment_rule(policy));
    }
    let mut order: Vec<usize> = Vec::new();
    let mut i: usize = 0;
    while i < keys.len()
        invariant
            items == key_views(keys@),
            rule == split_path_rule(policy),
            is_total_preorder(rule),
            i <= keys@.len(),
            is_stable_order_of_first(indices(order@), items, rule, i as nat),
        decreases keys@.len() - i,
    {
        let ghost perm = indices(order@);
        assert forall|k: int| 0 <= k < i implies #[trigger] order@[k] < i by {
            assert(perm[k] == order@[k]);
        }
        let mut p: usize = i;
        while p > 0 && compare_split_paths(policy, &keys[order[p - 1]], &keys[i]) == Order::Greater
            invariant
                items == key_views(keys@),
                rule == split_path_rule(policy),
                perm == indices(order@),
                i < keys@.len(),
                is_permutation(perm, i as nat),
                order@.len() == i,
                forall|k: int| 0 <= k < i ==> #[trigger] order@[k] < i,
                p <= i,
                forall|q: int| p <= q < i ==> rule(items[#[trigger] perm[q]], items[i as int]) == Order::Greater,
            decreases p,
        {
            assert(perm[p - 1] == order@[p - 1]);
            p -= 1;
        }
        proof {
            if p > 0 {
                assert(perm[p - 1] == order@[p - 1]);
            }
            lemma_insert_keeps_order(perm, items, rule, i as int, p as int);
        }
        order.insert(p, i);
        assert(indices(order@) =~= perm.insert(p as int, i as int));
        i += 1;
    }
    order
}

/// A strictly increasing listing of indices below its own length is at least
/// the identity at every position.
proof fn lemma_increasing_lower(perm: Seq<int>, k: int)
    requires
        0 <= k < perm.len(),
        forall|i: int| 0 <= i < perm.len() ==> 0 <= #[trigger] perm[i] < perm.len(),
        forall|i: int, j: int| 0 <= i < j < perm.len() ==> #[trigger] perm[i] < #[trigger] perm[j],
    ensures
        perm[k] >= k,
    decreases k,
{
    if k > 0 {
        lemma_increasing_lower(perm, k - 1);
        assert(perm[k - 1] < perm[k]);
    }
}

/// A strictly increasing listing of indices below its own length is at most
/// the identity at every position.
proof fn lemma_increasing_upper(perm: Seq<int>, k: int)
    requires
        0 <= k < perm.len(),
        forall|i: int| 0 <= i < perm.len() ==> 0 <= #[trigger] perm[i] < perm.len(),
        forall|i: int, j: int| 0 <= i < j < perm.len() ==> #[trigger] perm[i] < #[trigger] perm[j],
    ensures
        perm[k] <= k,
    decreases perm.len() - k,
{
    if k + 1 < perm.len() {
        lemma_increasing_upper(perm, k + 1);
        assert(perm[k] < perm[k + 1]);
    }
}

/// `s` holds the item `x`.
pub open spec fn holds<T>(s: Seq<T>, x: T) -> bool {
    exists|i: int| 0 <= i < s.len() && #[trigger] s[i] == x
}

/// A stable sort keeps the items: as many come out as went in, every item
/// that went in comes out, and nothing else does.
pub proof fn lemma_stable_sort_keeps_items<T>(out: Seq<T>, items: Seq<T>, rule: spec_fn(T, T) -> Order)
    requires
        is_stable_sort_of(out, items, rule),
    ensures
        out.len() == items.len(),
        forall|k: int| 0 <= k < items.len() ==> holds(out, #[trigger] items[k]),
        forall|i: int| 0 <= i < out.len() ==> holds(items, #[trigger] out[i]),
{
    let perm = choose|perm: Seq<int>|
        is_stable_order(perm, items, rule) && #[trigger] reorder(items, perm) == out;
    assert forall|k: int| 0 <= k < items.len() implies holds(out, #[trigger] items[k]) by {
        assert(occurs(perm, k));
        let i = choose|i: int| 0 <= i < perm.len() && #[trigger] perm[i] == k;
        assert(out[i] == items[k]);
    }
    assert forall|i: int| 0 <= i < out.len() implies holds(items, #[trigger] out[i]) by {
        assert(items[perm[i]] == out[i]);
    }
}

/// A stable sort leaves no item before a smaller one.
pub proof fn lemma_stable_sort_is_ordered<T>(out: Seq<T>, items: Seq<T>, rule: spec_fn(T, T) -> Order)
    requires
        is_stable_sort_of(out, items, rule),
    ensures
        out.len() == items.len(),
        is_ordered(out, rule),
{
    let perm = choose|perm: Seq<int>|
        is_stable_order(perm, items, rule) && #[trigger] reorder(items, perm) == out;
    assert forall|i: int, j: int| 0 <= i < j < out.len() implies rule(
        #[trigger] out[i],
        #[trigger] out[j],
    ) != Order::Greater by {
        assert(precedes(rule, items, perm[i], perm[j]));
    }
}

/// Sorting what is already in order changes nothing: a stable sort of a
/// sequence in which no item stands before a smaller one is that sequence.
pub proof fn lemma_sorted_input_unchanged<T>(out: Seq<T>, items: Seq<T>, rule: spec_fn(T, T) -> Order)
    requires
        is_symmetric(rule),
        is_ordered(items, rule),
        is_stable_sort_of(out, items, rule),
    ensures
        out == items,
{
    let perm = choose|perm: Seq<int>|
        is_stable_order(perm, items, rule) && #[trigger] reorder(items, perm) == out;
    assert forall|k: int, l: int| 0 <= k < l < perm.len() implies #[trigger] perm[k] < #[trigger] perm[l] by {
        assert(precedes(rule, items, perm[k], perm[l]));
        if perm[k] > perm[l] {
            assert(rule(items[perm[l]], items[perm[k]]) != Order::Greater);
            assert(rule(items[perm[l]], items[perm[k]]) == rule(items[perm[k]], items[perm[l]]).flip());
        }
    }
    assert forall|k: int| 0 <= k < perm.len() implies #[trigger] perm[k] == k by {
        lemma_increasing_lower(perm, k);
        lemma_increasing_upper(perm, k);
    }
    assert(out =~= items);
}

/// Sorting twice is sorting once: a stable sort of a stable sort is the same
/// sequence again.
pub proof fn lemma_stable_sort_idempotent<T>(
    twice: Seq<T>,
    once: Seq<T>,
    items: Seq<T>,
    rule: spec_fn(T, T) -> Order,
)
    requires
        is_symmetric(rule),
        is_stable_sort_of(once, items, rule),
        is_stable_sort_of(twice, once, rule),
    ensures
        twice == once,
{
    lemma_stable_sort_is_ordered(once, items, rule);
    lemma_sorted_input_unchanged(twice, once, rule);
}

/// Two visiting orders of the same items that are both sorted and stable
/// agree up to every position.
proof fn lemma_stable_orders_agree<T>(
    first: Seq<int>,
    second: Seq<int>,
    items: Seq<T>,
    rule: spec_fn(T, T) -> Order,
    k: int,
)
    requires
        is_symmetric(rule),
        is_stable_order(first, items, rule),
        is_stable_order(second, items, rule),
        0 <= k < items.len(),
    ensures
        first[k] == second[k],
    decreases k,
{
    assert forall|l: int| 0 <= l < k implies first[l] == second[l] by {
        lemma_stable_orders_agree(first, second, items, rule, l);
    }
    let a = first[k];
    let b = second[k];
    if a != b {
        assert(rule(items[b], items[a]) == rule(items[a], items[b]).flip());
        if precedes(rule, items, a, b) {
            assert(occurs(second, a));
            let l = choose|l: int| 0 <= l < second.len() && #[trigger] second[l] == a;
            if l < k {
                assert(first[l] == second[l]);
            } else {
                assert(precedes(rule, items, second[k], second[l]));
            }
        } else {
            assert(precedes(rule, items, b, a));
            assert(occurs(first, b));
            let l = choose|l: int| 0 <= l < first.len() && #[trigger] first[l] == b;
            if l < k {
                assert(first[l] == second[l]);
            } else {
                assert(precedes(rule, items, first[k], first[l]));
            }
        }
    }
}

/// A sequence has one stable sort only: two sequences that are both a stable
/// sort of the same items are equal.
pub proof fn lemma_stable_sort_unique<T>(
    first: Seq<T>,
    second: Seq<T>,
    items: Seq<T>,
    rule: spec_fn(T, T) -> Order,
)
    requires
        is_symmetric(rule),
        is_stable_sort_of(first, items, rule),
        is_stable_sort_of(second, items, rule),
    ensures
        first == second,
{
    let p = choose|perm: Seq<int>|
        is_stable_order(perm, items, rule) && #[trigger] reorder(items, perm) == first;
    let q = choose|perm: Seq<int>|
        is_stable_order(perm, items, rule) && #[trigger] reorder(items, perm) == second;
    assert forall|k: int| 0 <= k < items.len() implies p[k] == q[k] by {
        lemma_stable_orders_agree(p, q, items, rule, k);
    }
    assert(first =~= second);
}

} // verus!
