//! Ordering of entry paths: a path is a sequence of segments separated by
//! `/`, and two paths compare segment by segment.

use vstd::prelude::*;
use crate::natural::{
    all_digits, compare_chars, compare_segments_natural, is_digit, lemma_numbered_names_by_value,
    lemma_token_rule_total_preorder, natural_segment_order, no_digits, number, token_rule, tokens,
};
use crate::naming::extension_view;
use crate::order::{
    chains, is_total_preorder, lemma_lex_chains, lemma_lex_flip, lex_order, order_of, Order,
};
use crate::text::{chars_of, string_of};

verus! {

/// The policy by which entry paths are put in reading order.
#[derive(Clone, Copy, Debug, PartialEq, Eq, Structural)]
pub enum Sorting {
    /// Runs of digits compare by the number they write.
    Natural,
    /// Every character compares by its code point.
    Simple,
}

/// The segments of `path`: a `/` opens a new segment, which starts empty,
/// and any other character extends the last segment.
pub open spec fn segments(path: Seq<char>) -> Seq<Seq<char>>
    decreases path.len(),
{
    if path.len() == 0 {
        seq![Seq::<char>::empty()]
    } else {
        let before = segments(path.drop_last());
        if path.last() == '/' {
            before.push(Seq::<char>::empty())
        } else {
            before.drop_last().push(before.last().push(path.last()))
        }
    }
}

/// How two characters compare by code point, as a comparison value.
pub open spec fn char_rule() -> spec_fn(char, char) -> Order {
    |c: char, d: char| order_of(c as int, d as int)
}

/// How two segments compare under `policy`.
pub open spec fn segment_order(policy: Sorting, a: Seq<char>, b: Seq<char>) -> Order {
    match policy {
        Sorting::Natural => natural_segment_order(a, b),
        Sorting::Simple => lex_order(a, b, char_rule()),
    }
}

/// The comparison of segments under `policy`, as a value.
pub open spec fn segment_rule(policy: Sorting) -> spec_fn(Seq<char>, Seq<char>) -> Order {
    |a: Seq<char>, b: Seq<char>| segment_order(policy, a, b)
}

/// How two paths compare under `policy`: segment by segment, the first
/// segments that differ decide, and a path that is a proper prefix of the
/// other, in whole segments, comes first.
pub open spec fn path_order(policy: Sorting, a: Seq<char>, b: Seq<char>) -> Order {
    lex_order(segments(a), segments(b), segment_rule(policy))
}

/// The comparison of paths under `policy`, as a value.
pub open spec fn path_rule(policy: Sorting) -> spec_fn(Seq<char>, Seq<char>) -> Order {
    |a: Seq<char>, b: Seq<char>| path_order(policy, a, b)
}

/// The comparison of segments is a total preorder under either policy.
pub proof fn lemma_segment_rule_total_preorder(policy: Sorting)
    ensures
        is_total_preorder(segment_rule(policy)),
{
    let rule = segment_rule(policy);
    lemma_token_rule_total_preorder();
    assert(is_total_preorder(char_rule()));
    assert forall|x: Seq<char>, y: Seq<char>| #[trigger] rule(y, x) == rule(x, y).flip() by {
        lemma_lex_flip(tokens(x), tokens(y), token_rule());
        lemma_lex_flip(x, y, char_rule());
    }
    assert forall|x: Seq<char>, y: Seq<char>, z: Seq<char>|
        #![trigger rule(x, y), rule(y, z)]
        chains(rule(x, y), rule(y, z), rule(x, z)) by {
        lemma_lex_chains(tokens(x), tokens(y), tokens(z), token_rule());
        lemma_lex_chains(x, y, z, char_rule());
    }
}

/// Path comparison is usable for sorting: under either policy it is a total
/// preorder on paths.
pub proof fn lemma_path_rule_total_preorder(policy: Sorting)
    ensures
        is_total_preorder(path_rule(policy)),
{
    let rule = path_rule(policy);
    lemma_segment_rule_total_preorder(policy);
    assert forall|x: Seq<char>, y: Seq<char>| #[trigger] rule(y, x) == rule(x, y).flip() by {
        lemma_lex_flip(segments(x), segments(y), segment_rule(policy));
    }
    assert forall|x: Seq<char>, y: Seq<char>, z: Seq<char>|
        #![trigger rule(x, y), rule(y, z)]
        chains(rule(x, y), rule(y, z), rule(x, z)) by {
        lemma_lex_chains(segments(x), segments(y), segments(z), segment_rule(policy));
    }
}

/// The segments held by `v`, each as a sequence of characters.
pub open spec fn views(v: Seq<Vec<char>>) -> Seq<Seq<char>> {
    Seq::new(v.len(), |i: int| v[i]@)
}

/// Splits `path` into its segments.
pub fn split_path(path: &str) -> (out: Vec<Vec<char>>)
    ensures
        views(out@) == segments(path@),
{
    let cs = chars_of(path);
    let mut out: Vec<Vec<char>> = Vec::new();
    let mut last: Vec<char> = Vec::new();
    let mut i: usize = 0;
    assert(cs@.take(0) =~= Seq::<char>::empty());
    assert(views(out@).push(last@) =~= segments(cs@.take(0)));
    while i < cs.len()
        invariant
            i <= cs@.len(),
            views(out@).push(last@) == segments(cs@.take(i as int)),
        decreases cs@.len() - i,
    {
        let ghost before = views(out@).push(last@);
        assert(cs@.take(i + 1).drop_last() =~= cs@.take(i as int));
        let c = cs[i];
        if c == '/' {
            out.push(last);
            last = Vec::new();
            assert(views(out@).push(last@) =~= before.push(Seq::<char>::empty()));
        } else {
            last.push(c);
            assert(views(out@).push(last@) =~= before.drop_last().push(before.last().push(c)));
        }
        i += 1;
    }
    assert(cs@.take(i as int) =~= cs@);
    let ghost before = views(out@).push(last@);
    out.push(last);
    assert(views(out@) =~= before);
    out
}

/// Compares two segments character by character, by code point.
pub fn compare_segments_simple(a: &[char], b: &[char]) -> (out: Order)
    ensures
        out == lex_order(a@, b@, char_rule()),
{
    let mut i: usize = 0;
    assert(a@.skip(0) =~= a@ && b@.skip(0) =~= b@);
    while i < a.len() && i < b.len()
        invariant
            i <= a@.len(),
            i <= b@.len(),
            lex_order(a@, b@, char_rule()) == lex_order(
                a@.skip(i as int),
                b@.skip(i as int),
                char_rule(),
            ),
        decreases a@.len() - i,
    {
        assert(a@.skip(i as int).skip(1) =~= a@.skip(i + 1));
        assert(b@.skip(i as int).skip(1) =~= b@.skip(i + 1));
        let o = compare_chars(a[i], b[i]);
        if o != Order::Equal {
            return o;
        }
        i += 1;
    }
    if i < a.len() {
        Order::Greater
    } else if i < b.len() {
        Order::Less
    } else {
        Order::Equal
    }
}

/// Compares two segments under `policy`.
pub fn compare_segments(policy: Sorting, a: &[char], b: &[char]) -> (out: Order)
    ensures
        out == segment_order(policy, a@, b@),
{
    match policy {
        Sorting::Natural => compare_segments_natural(a, b),
        Sorting::Simple => compare_segments_simple(a, b),
    }
}

/// Compares two paths, given by their segments, under `policy`.
pub fn compare_split_paths(policy: Sorting, a: &Vec<Vec<char>>, b: &Vec<Vec<char>>) -> (out: Order)
    ensures
        out == lex_order(views(a@), views(b@), segment_rule(policy)),
{
    let ghost va = views(a@);
    let ghost vb = views(b@);
    let mut i: usize = 0;
    assert(va.skip(0) =~= va && vb.skip(0) =~= vb);
    while i < a.len() && i < b.len()
        invariant
            va == views(a@),
            vb == views(b@),
            i <= a@.len(),
            i <= b@.len(),
            lex_order(va, vb, segment_rule(policy)) == lex_order(
                va.skip(i as int),
                vb.skip(i as int),
                segment_rule(policy),
            ),
        decreases a@.len() - i,
    {
        assert(va.skip(i as int).skip(1) =~= va.skip(i + 1));
        assert(vb.skip(i as int).skip(1) =~= vb.skip(i + 1));
        let o = compare_segments(policy, a[i].as_slice(), b[i].as_slice());
        if o != Order::Equal {
            return o;
        }
        i += 1;
    }
    if i < a.len() {
        Order::Greater
    } else if i < b.len() {
        Order::Less
    } else {
        Order::Equal
    }
}

/// Compares two paths under `policy`.
pub fn compare_paths(policy: Sorting, a: &str, b: &str) -> (out: Order)
    ensures
        out == path_order(policy, a@, b@),
{
    let sa = split_path(a);
    let sb = split_path(b);
    compare_split_paths(policy, &sa, &sb)
}

/// Every path has at least one segment.
pub proof fn lemma_segments_nonempty(path: Seq<char>)
    ensures
        segments(path).len() >= 1,
    decreases path.len(),
{
    if path.len() > 0 {
        lemma_segments_nonempty(path.drop_last());
    }
}

/// The position of the last `.` in `name`, or -1 where it has none.
pub open spec fn last_dot(name: Seq<char>) -> int
    decreases name.len(),
{
    if name.len() == 0 {
        -1
    } else if name.last() == '.' {
        name.len() - 1
    } else {
        last_dot(name.drop_last())
    }
}

/// The extension of a file name: what follows its last `.`, unless the name
/// has none, has its only one in front, or is `..`.
pub open spec fn name_extension(name: Seq<char>) -> Option<Seq<char>> {
    if last_dot(name) <= 0 || name == seq!['.', '.'] {
        None
    } else {
        Some(name.skip(last_dot(name) + 1))
    }
}

/// The extension of the file that `path` names: that of its last segment.
pub open spec fn extension_of(path: Seq<char>) -> Option<Seq<char>> {
    name_extension(segments(path).last())
}

/// Where the last `.` stands: nothing behind it is a `.`, and where there
/// is none the name holds no `.` at all.
pub proof fn lemma_last_dot(name: Seq<char>)
    ensures
        -1 <= last_dot(name) < name.len(),
        last_dot(name) >= 0 ==> name[last_dot(name)] == '.',
        forall|i: int| last_dot(name) < i < name.len() ==> #[trigger] name[i] != '.',
    decreases name.len(),
{
    if name.len() > 0 && name.last() != '.' {
        lemma_last_dot(name.drop_last());
        assert forall|i: int| last_dot(name) < i < name.len() implies #[trigger] name[i] != '.' by {
            if i < name.len() - 1 {
                assert(name[i] == name.drop_last()[i]);
            }
        }
    }
}

/// The extension of a file name, where it has one.
pub fn extension_of_name(name: &[char]) -> (out: Option<String>)
    ensures
        extension_view(&out) == name_extension(name@),
{
    let n = name.len();
    let mut dot: Option<usize> = None;
    let mut i: usize = 0;
    assert(name@.take(0) =~= Seq::<char>::empty());
    while i < n
        invariant
            n == name@.len(),
            i <= n,
            match dot {
                Some(k) => k == last_dot(name@.take(i as int)),
                None => last_dot(name@.take(i as int)) == -1,
            },
        decreases n - i,
    {
        assert(name@.take(i + 1).drop_last() =~= name@.take(i as int));
        if name[i] == '.' {
            dot = Some(i);
        }
        i += 1;
    }
    assert(name@.take(n as int) =~= name@);
    proof {
        lemma_last_dot(name@);
    }
    match dot {
        None => None,
        Some(k) => {
            if k == 0 || (n == 2 && name[0] == '.' && name[1] == '.') {
                assert(n == 2 && name[0] == '.' && name[1] == '.' ==> name@ =~= seq!['.', '.']);
                None
            } else {
                assert(name@.skip(k + 1) =~= name@.subrange(k + 1, n as int));
                Some(string_of(name, k + 1, n))
            }
        },
    }
}

/// The extension of the file that `path` names, where it has one.
pub fn extension_of_path(path: &str) -> (out: Option<String>)
    ensures
        extension_view(&out) == extension_of(path@),
{
    proof {
        lemma_segments_nonempty(path@);
    }
    let parts = split_path(path);
    assert(views(parts@).last() == parts@.last()@);
    extension_of_name(parts[parts.len() - 1].as_slice())
}

/// Whether `s` holds no separator.
pub open spec fn no_separator(s: Seq<char>) -> bool {
    forall|i: int| 0 <= i < s.len() ==> #[trigger] s[i] != '/'
}

/// A path without separator is its own single segment.
pub proof fn lemma_single_segment(path: Seq<char>)
    requires
        no_separator(path),
    ensures
        segments(path) == seq![path],
    decreases path.len(),
{
    if path.len() > 0 {
        let before = path.drop_last();
        assert forall|i: int| 0 <= i < before.len() implies #[trigger] before[i] != '/' by {
            assert(before[i] == path[i]);
        }
        lemma_single_segment(before);
        assert(path.last() == path[path.len() - 1]);
        assert(before.push(path.last()) =~= path);
        assert(seq![before].drop_last().push(path) =~= seq![path]);
    } else {
        assert(path =~= Seq::<char>::empty());
    }
}

/// Under natural order, file names that differ only in a numeral at their
/// end compare as the numbers do: for a common beginning without digits and
/// separators, such as `a`, followed by the numerals `m` and `n`, the names
/// compare as `m` and `n` read as numbers, whatever the count of their
/// digits.
pub proof fn lemma_numbered_paths_by_value(prefix: Seq<char>, m: Seq<char>, n: Seq<char>)
    requires
        no_digits(prefix),
        no_separator(prefix),
        m.len() > 0,
        n.len() > 0,
        all_digits(m),
        all_digits(n),
    ensures
        path_order(Sorting::Natural, prefix + m, prefix + n) == order_of(
            number(m) as int,
            number(n) as int,
        ),
{
    let a = prefix + m;
    let b = prefix + n;
    assert forall|i: int| 0 <= i < a.len() implies #[trigger] a[i] != '/' by {
        if i >= prefix.len() {
            assert(is_digit(m[i - prefix.len()]));
        } else {
            assert(prefix[i] != '/');
        }
    }
    assert forall|i: int| 0 <= i < b.len() implies #[trigger] b[i] != '/' by {
        if i >= prefix.len() {
            assert(is_digit(n[i - prefix.len()]));
        } else {
            assert(prefix[i] != '/');
        }
    }
    lemma_single_segment(a);
    lemma_single_segment(b);
    lemma_numbered_names_by_value(prefix, m, n);
    assert(seq![a].skip(1) =~= Seq::<Seq<char>>::empty());
    assert(seq![b].skip(1) =~= Seq::<Seq<char>>::empty());
    assert(lex_order(seq![a].skip(1), seq![b].skip(1), segment_rule(Sorting::Natural)) == Order::Equal);
}

/// The path whose segments are `parts`: the segments with a `/` between
/// each two of them.
pub open spec fn joined(parts: Seq<Seq<char>>) -> Seq<char>
    decreases parts.len(),
{
    if parts.len() == 0 {
        Seq::empty()
    } else if parts.len() == 1 {
        parts[0]
    } else {
        joined(parts.drop_last()).push('/') + parts.last()
    }
}

/// Splitting loses nothing: no segment of a path holds a separator, and the
/// segments joined by separators are the path again.
pub proof fn lemma_segments_join(path: Seq<char>)
    ensures
        segments(path).len() >= 1,
        forall|k: int| 0 <= k < segments(path).len() ==> no_separator(#[trigger] segments(path)[k]),
        joined(segments(path)) == path,
    decreases path.len(),
{
    if path.len() == 0 {
        assert(joined(segments(path)) =~= path);
    } else {
        let before = segments(path.drop_last());
        let now = segments(path);
        lemma_segments_join(path.drop_last());
        if path.last() == '/' {
            assert(now.drop_last() =~= before);
            assert(joined(now) =~= path);
        } else {
            let grown = before.last().push(path.last());
            assert(now.last() == grown);
            if before.len() == 1 {
                assert(joined(now) =~= path);
            } else {
                assert(now.drop_last() =~= before.drop_last());
                assert(joined(now) =~= (joined(before.drop_last()).push('/') + before.last()).push(
                    path.last(),
                ));
                assert(joined(now) =~= path);
            }
        }
    }
}

} // verus!
