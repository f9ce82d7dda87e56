//! Three-way comparison results and the lexicographic lifting of a comparison
//! from items to sequences of items.

use vstd::prelude::*;

verus! {

/// Outcome of comparing a left value with a right value.
#[derive(Clone, Copy, Debug, PartialEq, Eq, Structural)]
pub enum Order {
    Less,
    Equal,
    Greater,
}

impl Order {
    /// The outcome of the same comparison with its two sides exchanged.
    pub open spec fn flip(self) -> Order {
        match self {
            Order::Less => Order::Greater,
            Order::Equal => Order::Equal,
            Order::Greater => Order::Less,
        }
    }

    /// Exchanges the two sides of the comparison.
    pub fn reversed(self) -> (out: Order)
        ensures
            out == self.flip(),
    {
        match self {
            Order::Less => Order::Greater,
            Order::Equal => Order::Equal,
            Order::Greater => Order::Less,
        }
    }
}

/// How two integers compare.
pub open spec fn order_of(a: int, b: int) -> Order {
    if a < b {
        Order::Less
    } else if a == b {
        Order::Equal
    } else {
        Order::Greater
    }
}

/// A comparison that agrees with itself when its sides are exchanged.
pub open spec fn is_symmetric<T>(rule: spec_fn(T, T) -> Order) -> bool {
    forall|x: T, y: T| #[trigger] rule(y, x) == rule(x, y).flip()
}

/// What a chain `x` before-or-equal `y` before-or-equal `z` says of `x` and `z`:
/// `x` is before or equal to `z`, and equal only if both links are equalities.
pub open spec fn chains(xy: Order, yz: Order, xz: Order) -> bool {
    xy != Order::Greater && yz != Order::Greater ==> xz != Order::Greater && (xz == Order::Equal
        ==> xy == Order::Equal && yz == Order::Equal)
}

/// A comparison whose before-or-equal relation is transitive, with equalities
/// composing only from equalities.
pub open spec fn is_transitive<T>(rule: spec_fn(T, T) -> Order) -> bool {
    forall|x: T, y: T, z: T| #![trigger rule(x, y), rule(y, z)] chains(rule(x, y), rule(y, z), rule(x, z))
}

/// A comparison usable for sorting: every two items are comparable, in a way
/// that does not depend on the side an item stands on, and the order is
/// transitive. Distinct items may compare equal.
pub open spec fn is_total_preorder<T>(rule: spec_fn(T, T) -> Order) -> bool {
    is_symmetric(rule) && is_transitive(rule)
}

/// Lexicographic comparison of two sequences under `rule`: the first position
/// at which the items differ decides; a proper prefix comes first.
pub open spec fn lex_order<T>(a: Seq<T>, b: Seq<T>, rule: spec_fn(T, T) -> Order) -> Order
    decreases a.len(),
{
    if a.len() == 0 || b.len() == 0 {
        order_of(a.len() as int, b.len() as int)
    } else if rule(a[0], b[0]) != Order::Equal {
        rule(a[0], b[0])
    } else {
        lex_order(a.skip(1), b.skip(1), rule)
    }
}

/// The lexicographic comparison under `rule`, as a comparison of sequences.
pub open spec fn lex_rule<T>(rule: spec_fn(T, T) -> Order) -> spec_fn(Seq<T>, Seq<T>) -> Order {
    |a: Seq<T>, b: Seq<T>| lex_order(a, b, rule)
}

/// Exchanging the sides of a lexicographic comparison flips its outcome.
pub proof fn lemma_lex_flip<T>(a: Seq<T>, b: Seq<T>, rule: spec_fn(T, T) -> Order)
    requires
        is_symmetric(rule),
    ensures
        lex_order(b, a, rule) == lex_order(a, b, rule).flip(),
    decreases a.len(),
{
    if a.len() > 0 && b.len() > 0 {
        assert(rule(b[0], a[0]) == rule(a[0], b[0]).flip());
        lemma_lex_flip(a.skip(1), b.skip(1), rule);
    }
}

/// Lexicographic comparison is transitive when the item comparison is a
/// total preorder.
pub proof fn lemma_lex_chains<T>(a: Seq<T>, b: Seq<T>, c: Seq<T>, rule: spec_fn(T, T) -> Order)
    requires
        is_total_preorder(rule),
    ensures
        chains(lex_order(a, b, rule), lex_order(b, c, rule), lex_order(a, c, rule)),
    decreases a.len(),
{
    if a.len() > 0 && b.len() > 0 && c.len() > 0 {
        assert(chains(rule(a[0], b[0]), rule(b[0], c[0]), rule(a[0], c[0])));
        assert(rule(b[0], a[0]) == rule(a[0], b[0]).flip());
        assert(rule(c[0], b[0]) == rule(b[0], c[0]).flip());
        assert(rule(c[0], a[0]) == rule(a[0], c[0]).flip());
        assert(chains(rule(c[0], a[0]), rule(a[0], b[0]), rule(c[0], b[0])));
        assert(chains(rule(b[0], c[0]), rule(c[0], a[0]), rule(b[0], a[0])));
        lemma_lex_chains(a.skip(1), b.skip(1), c.skip(1), rule);
    }
}

/// The lexicographic lifting of a total preorder is a total preorder.
pub proof fn lemma_lex_total_preorder<T>(rule: spec_fn(T, T) -> Order)
    requires
        is_total_preorder(rule),
    ensures
        is_total_preorder(lex_rule(rule)),
{
    let lifted = lex_rule(rule);
    assert forall|x: Seq<T>, y: Seq<T>| #[trigger] lifted(y, x) == lifted(x, y).flip() by {
        lemma_lex_flip(x, y, rule);
    }
    assert forall|x: Seq<T>, y: Seq<T>, z: Seq<T>|
        #![trigger lifted(x, y), lifted(y, z)]
        chains(lifted(x, y), lifted(y, z), lifted(x, z)) by {
        lemma_lex_chains(x, y, z, rule);
    }
}

} // verus!
