//! Natural ordering of file names: runs of decimal digits compare by the
//! number they write, everything else by code point.

use vstd::prelude::*;
use crate::order::{is_total_preorder, lex_order, order_of, Order};

verus! {

/// Whether `c` is one of the decimal digits `0` to `9`.
pub open spec fn is_digit(c: char) -> bool {
    '0' <= c <= '9'
}

/// The value of the decimal digit `c`.
pub open spec fn digit_value(c: char) -> nat
    recommends
        is_digit(c),
{
    (c as int - '0' as int) as nat
}

/// The number that the decimal digits `s` write; leading zeros do not count.
pub open spec fn number(s: Seq<char>) -> nat
    decreases s.len(),
{
    if s.len() == 0 {
        0
    } else {
        number(s.drop_last()) * 10 + digit_value(s.last())
    }
}

/// The length of the longest run of digits that `s` starts with.
pub open spec fn digit_run(s: Seq<char>) -> nat
    decreases s.len(),
{
    if s.len() > 0 && is_digit(s[0]) {
        1 + digit_run(s.skip(1))
    } else {
        0
    }
}

/// One unit of a name under natural ordering: a whole run of digits, read as
/// a number, or a single character that is not a digit.
pub enum Token {
    Number(nat),
    Mark(char),
}

/// How two units compare: numbers by value, characters by code point, and a
/// number against a character as its digits would against that character.
pub open spec fn token_order(x: Token, y: Token) -> Order {
    match (x, y) {
        (Token::Number(m), Token::Number(n)) => order_of(m as int, n as int),
        (Token::Mark(c), Token::Mark(d)) => order_of(c as int, d as int),
        (Token::Number(_), Token::Mark(d)) => if '0' > d {
            Order::Greater
        } else {
            Order::Less
        },
        (Token::Mark(c), Token::Number(_)) => if '0' > c {
            Order::Less
        } else {
            Order::Greater
        },
    }
}

/// The comparison of units, as a value.
pub open spec fn token_rule() -> spec_fn(Token, Token) -> Order {
    |x: Token, y: Token| token_order(x, y)
}

/// How many characters the first unit of `s` takes.
pub open spec fn head_len(s: Seq<char>) -> nat
    recommends
        s.len() > 0,
{
    if is_digit(s[0]) {
        digit_run(s)
    } else {
        1
    }
}

/// The first unit of `s`.
pub open spec fn head(s: Seq<char>) -> Token
    recommends
        s.len() > 0,
{
    if is_digit(s[0]) {
        Token::Number(number(s.take(digit_run(s) as int)))
    } else {
        Token::Mark(s[0])
    }
}

/// The run of digits at the start of `s` lies within `s`, holds digits only,
/// and ends at the first character that is no digit.
pub proof fn lemma_digit_run_bound(s: Seq<char>)
    ensures
        digit_run(s) <= s.len(),
        forall|i: int| 0 <= i < digit_run(s) ==> is_digit(#[trigger] s[i]),
        digit_run(s) < s.len() ==> !is_digit(s[digit_run(s) as int]),
    decreases s.len(),
{
    if s.len() > 0 && is_digit(s[0]) {
        lemma_digit_run_bound(s.skip(1));
        assert forall|i: int| 0 <= i < digit_run(s) implies is_digit(#[trigger] s[i]) by {
            if i > 0 {
                assert(s[i] == s.skip(1)[i - 1]);
            }
        }
    }
}

/// The units of `s`, in order.
pub open spec fn tokens(s: Seq<char>) -> Seq<Token>
    decreases s.len(),
    via tokens_decreases
{
    if s.len() == 0 {
        Seq::empty()
    } else {
        seq![head(s)] + tokens(s.skip(head_len(s) as int))
    }
}

#[via_fn]
proof fn tokens_decreases(s: Seq<char>) {
    if s.len() > 0 {
        lemma_digit_run_bound(s);
    }
}

/// The comparison of units is a total preorder.
pub proof fn lemma_token_rule_total_preorder()
    ensures
        is_total_preorder(token_rule()),
{
}

/// Natural comparison of two names without separators: unit by unit, the
/// first difference decides, and a proper prefix comes first.
pub open spec fn natural_segment_order(a: Seq<char>, b: Seq<char>) -> Order {
    lex_order(tokens(a), tokens(b), token_rule())
}

/// Whether `c` is a decimal digit.
pub fn is_decimal_digit(c: char) -> (out: bool)
    ensures
        out == is_digit(c),
{
    '0' <= c && c <= '9'
}

/// How two characters compare by code point.
pub fn compare_chars(c: char, d: char) -> (out: Order)
    ensures
        out == order_of(c as int, d as int),
{
    if c < d {
        Order::Less
    } else if c == d {
        Order::Equal
    } else {
        Order::Greater
    }
}

/// Writing one more digit multiplies by ten and adds the digit.
pub proof fn lemma_number_push(s: Seq<char>, c: char)
    ensures
        number(s.push(c)) == number(s) * 10 + digit_value(c),
{
    assert(s.push(c).drop_last() =~= s);
}

/// Where the run of digits that starts at `from` ends.
pub fn run_end(s: &[char], from: usize) -> (end: usize)
    requires
        from <= s@.len(),
    ensures
        end == from + digit_run(s@.skip(from as int)),
        end <= s@.len(),
{
    let mut end: usize = from;
    proof {
        lemma_digit_run_bound(s@.skip(from as int));
    }
    while end < s.len() && is_decimal_digit(s[end])
        invariant
            from <= end <= s@.len(),
            from + digit_run(s@.skip(from as int)) == end + digit_run(s@.skip(end as int)),
        decreases s@.len() - end,
    {
        assert(s@.skip(end as int).skip(1) =~= s@.skip(end + 1));
        assert(s@.skip(end as int)[0] == s@[end as int]);
        end += 1;
    }
    proof {
        if end < s@.len() {
            assert(s@.skip(end as int)[0] == s@[end as int]);
        }
    }
    end
}

/// Compares the numbers written by two runs of digits, the first at least as
/// long as the second, without computing either number.
fn compare_runs(a: &[char], i: usize, la: usize, b: &[char], j: usize, lb: usize) -> (out: Order)
    requires
        lb <= la,
        i + la <= a@.len(),
        j + lb <= b@.len(),
        forall|k: int| i <= k < i + la ==> is_digit(#[trigger] a@[k]),
        forall|k: int| j <= k < j + lb ==> is_digit(#[trigger] b@[k]),
    ensures
        out == order_of(
            number(a@.subrange(i as int, i + la)) as int,
            number(b@.subrange(j as int, j + lb)) as int,
        ),
{
    assert(a@.len() == a.len() && b@.len() == b.len());
    let d: usize = la - lb;
    let mut out = Order::Equal;
    let mut k: usize = 0;
    while k < d
        invariant
            d == la - lb,
            k <= d <= la,
            i + la <= a@.len() <= usize::MAX,
            forall|k: int| i <= k < i + la ==> is_digit(#[trigger] a@[k]),
            out == order_of(number(a@.subrange(i as int, i + k)) as int, 0),
        decreases d - k,
    {
        proof {
            lemma_number_push(a@.subrange(i as int, i + k), a@[i + k]);
            assert(a@.subrange(i as int, i + k).push(a@[i + k]) =~= a@.subrange(
                i as int,
                i + k + 1,
            ));
            assert(is_digit(a@[i + k]));
        }
        if a[i + k] != '0' {
            out = Order::Greater;
        }
        k += 1;
    }
    assert(b@.subrange(j as int, j as int) =~= Seq::<char>::empty());
    while k < la
        invariant
            d == la - lb,
            d <= k <= la,
            i + la <= a@.len() <= usize::MAX,
            j + lb <= b@.len() <= usize::MAX,
            forall|k: int| i <= k < i + la ==> is_digit(#[trigger] a@[k]),
            forall|k: int| j <= k < j + lb ==> is_digit(#[trigger] b@[k]),
            out == order_of(
                number(a@.subrange(i as int, i + k)) as int,
                number(b@.subrange(j as int, j + k - d)) as int,
            ),
        decreases la - k,
    {
        proof {
            lemma_number_push(a@.subrange(i as int, i + k), a@[i + k]);
            assert(a@.subrange(i as int, i + k).push(a@[i + k]) =~= a@.subrange(
                i as int,
                i + k + 1,
            ));
            lemma_number_push(b@.subrange(j as int, j + k - d), b@[j + k - d]);
            assert(b@.subrange(j as int, j + k - d).push(b@[j + k - d]) =~= b@.subrange(
                j as int,
                j + k - d + 1,
            ));
            assert(is_digit(a@[i + k]));
            assert(is_digit(b@[j + k - d]));
        }
        if out == Order::Equal {
            out = compare_chars(a[i + k], b[j + (k - d)]);
        }
        k += 1;
    }
    out
}

/// The first unit of a name that is not empty, and what follows it.
pub proof fn lemma_tokens_unfold(s: Seq<char>)
    requires
        s.len() > 0,
    ensures
        tokens(s).len() > 0,
        tokens(s)[0] == head(s),
        tokens(s).skip(1) == tokens(s.skip(head_len(s) as int)),
        1 <= head_len(s) <= s.len(),
{
    lemma_digit_run_bound(s);
    assert(tokens(s).skip(1) =~= tokens(s.skip(head_len(s) as int)));
}

/// Natural comparison looks at the first units, and at the rest only when
/// these are equal; an empty name comes before any other.
pub proof fn lemma_segment_step(a: Seq<char>, b: Seq<char>)
    ensures
        a.len() == 0 || b.len() == 0 ==> natural_segment_order(a, b) == order_of(
            a.len() as int,
            b.len() as int,
        ),
        a.len() > 0 && b.len() > 0 ==> natural_segment_order(a, b) == if token_order(
            head(a),
            head(b),
        ) != Order::Equal {
            token_order(head(a), head(b))
        } else {
            natural_segment_order(a.skip(head_len(a) as int), b.skip(head_len(b) as int))
        },
{
    if a.len() > 0 {
        lemma_tokens_unfold(a);
    }
    if b.len() > 0 {
        lemma_tokens_unfold(b);
    }
}

/// Natural comparison of two names without separators.
pub fn compare_segments_natural(a: &[char], b: &[char]) -> (out: Order)
    ensures
        out == natural_segment_order(a@, b@),
{
    let mut i: usize = 0;
    let mut j: usize = 0;
    assert(a@.skip(0) =~= a@ && b@.skip(0) =~= b@);
    while i < a.len() && j < b.len()
        invariant
            i <= a@.len(),
            j <= b@.len(),
            natural_segment_order(a@, b@) == natural_segment_order(
                a@.skip(i as int),
                b@.skip(j as int),
            ),
        decreases a@.len() - i,
    {
        let ghost ra = a@.skip(i as int);
        let ghost rb = b@.skip(j as int);
        proof {
            lemma_segment_step(ra, rb);
            lemma_tokens_unfold(ra);
            lemma_tokens_unfold(rb);
            lemma_digit_run_bound(ra);
            lemma_digit_run_bound(rb);
        }
        let ca = a[i];
        let cb = b[j];
        if is_decimal_digit(ca) && is_decimal_digit(cb) {
            let ea = run_end(a, i);
            let eb = run_end(b, j);
            proof {
                assert(ra.take(digit_run(ra) as int) =~= a@.subrange(i as int, ea as int));
                assert(rb.take(digit_run(rb) as int) =~= b@.subrange(j as int, eb as int));
                assert forall|k: int| i <= k < ea implies is_digit(#[trigger] a@[k]) by {
                    assert(a@[k] == ra[k - i]);
                }
                assert forall|k: int| j <= k < eb implies is_digit(#[trigger] b@[k]) by {
                    assert(b@[k] == rb[k - j]);
                }
                assert(ra.skip(head_len(ra) as int) =~= a@.skip(ea as int));
                assert(rb.skip(head_len(rb) as int) =~= b@.skip(eb as int));
            }
            let o = if ea - i >= eb - j {
                compare_runs(a, i, ea - i, b, j, eb - j)
            } else {
                compare_runs(b, j, eb - j, a, i, ea - i).reversed()
            };
            if o != Order::Equal {
                return o;
            }
            i = ea;
            j = eb;
        } else {
            let o = compare_chars(ca, cb);
            proof {
                // Where both are marks and equal, the comparison goes on behind them.
                if !is_digit(ca) && !is_digit(cb) {
                    assert(ra.skip(1) =~= a@.skip(i + 1));
                    assert(rb.skip(1) =~= b@.skip(j + 1));
                }
            }
            if o != Order::Equal {
                return o;
            }
            i += 1;
            j += 1;
        }
    }
    proof {
        lemma_segment_step(a@.skip(i as int), b@.skip(j as int));
    }
    if i < a.len() {
        Order::Greater
    } else if j < b.len() {
        Order::Less
    } else {
        Order::Equal
    }
}

/// Whether every character of `s` is a decimal digit.
pub open spec fn all_digits(s: Seq<char>) -> bool {
    forall|i: int| 0 <= i < s.len() ==> is_digit(#[trigger] s[i])
}

/// Whether no character of `s` is a decimal digit.
pub open spec fn no_digits(s: Seq<char>) -> bool {
    forall|i: int| 0 <= i < s.len() ==> !is_digit(#[trigger] s[i])
}

/// A sequence of digits is a single run.
pub proof fn lemma_digit_run_of_digits(s: Seq<char>)
    requires
        all_digits(s),
    ensures
        digit_run(s) == s.len(),
    decreases s.len(),
{
    if s.len() > 0 {
        assert(is_digit(s[0]));
        assert forall|i: int| 0 <= i < s.skip(1).len() implies is_digit(#[trigger] s.skip(1)[i]) by {
            assert(s.skip(1)[i] == s[i + 1]);
        }
        lemma_digit_run_of_digits(s.skip(1));
    }
}

/// Two numerals compare as the numbers they write.
pub proof fn lemma_numerals_by_value(m: Seq<char>, n: Seq<char>)
    requires
        m.len() > 0,
        n.len() > 0,
        all_digits(m),
        all_digits(n),
    ensures
        natural_segment_order(m, n) == order_of(number(m) as int, number(n) as int),
{
    lemma_digit_run_of_digits(m);
    lemma_digit_run_of_digits(n);
    lemma_segment_step(m, n);
    assert(is_digit(m[0]) && is_digit(n[0]));
    assert(m.take(m.len() as int) =~= m);
    assert(n.take(n.len() as int) =~= n);
    lemma_segment_step(m.skip(m.len() as int), n.skip(n.len() as int));
}

/// Names that differ only in a numeral at their end compare as the numbers
/// do: for a common beginning without digits, followed by the numerals `m`
/// and `n`, the names compare as `m` and `n` read as numbers, whatever the
/// count of their digits.
pub proof fn lemma_numbered_names_by_value(prefix: Seq<char>, m: Seq<char>, n: Seq<char>)
    requires
        no_digits(prefix),
        m.len() > 0,
        n.len() > 0,
        all_digits(m),
        all_digits(n),
    ensures
        natural_segment_order(prefix + m, prefix + n) == order_of(number(m) as int, number(n) as int),
    decreases prefix.len(),
{
    if prefix.len() == 0 {
        assert(prefix + m =~= m);
        assert(prefix + n =~= n);
        lemma_numerals_by_value(m, n);
    } else {
        let rest = prefix.skip(1);
        assert(!is_digit(prefix[0]));
        assert((prefix + m)[0] == prefix[0] && (prefix + n)[0] == prefix[0]);
        assert((prefix + m).skip(1) =~= rest + m);
        assert((prefix + n).skip(1) =~= rest + n);
        assert forall|i: int| 0 <= i < rest.len() implies !is_digit(#[trigger] rest[i]) by {
            assert(rest[i] == prefix[i + 1]);
        }
        lemma_segment_step(prefix + m, prefix + n);
        lemma_numbered_names_by_value(rest, m, n);
    }
}

} // verus!
