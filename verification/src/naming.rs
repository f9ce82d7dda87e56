//! Zero-padded page numbers and the file names built from them.

use vstd::prelude::*;
use crate::natural::{digit_value, is_digit, number};
use crate::text::push_char;

verus! {

/// The character that writes the digit `d`.
pub open spec fn digit_char(d: nat) -> char
    recommends
        d < 10,
{
    (d + 48) as char
}

/// The decimal digits of `n` from its first digit that is not zero; none for
/// zero.
pub open spec fn significant(n: nat) -> Seq<char>
    decreases n,
{
    if n == 0 {
        Seq::empty()
    } else {
        significant(n / 10).push(digit_char(n % 10))
    }
}

/// `n` written in decimal, without leading zeros.
pub open spec fn decimal(n: nat) -> Seq<char> {
    if n == 0 {
        seq!['0']
    } else {
        significant(n)
    }
}

/// The number of digits that `n` takes in decimal.
pub open spec fn decimal_len(n: nat) -> nat
    decreases n,
{
    if n < 10 {
        1
    } else {
        1 + decimal_len(n / 10)
    }
}

/// `count` zeros.
pub open spec fn zeros(count: nat) -> Seq<char> {
    Seq::new(count, |i: int| '0')
}

/// `n` written in decimal and filled up with zeros on the left to at least
/// `width` characters.
pub open spec fn padded(n: nat, width: nat) -> Seq<char> {
    if decimal(n).len() >= width {
        decimal(n)
    } else {
        zeros((width - decimal(n).len()) as nat) + decimal(n)
    }
}

/// The name of the page at the 0-based position `index` among `count` pages:
/// its 1-based number, zero-padded to the width of `count`, then a dot and the
/// extension where there is one.
pub open spec fn page_name(index: nat, count: nat, extension: Option<Seq<char>>) -> Seq<char> {
    match extension {
        Some(ext) => padded(index + 1, decimal_len(count)).push('.') + ext,
        None => padded(index + 1, decimal_len(count)),
    }
}

/// The digits written by `significant` are as many as `decimal_len` says,
/// they are digits, and they read back as the number.
pub proof fn lemma_significant(n: nat)
    requires
        n > 0,
    ensures
        significant(n).len() == decimal_len(n),
        forall|i: int| 0 <= i < significant(n).len() ==> is_digit(#[trigger] significant(n)[i]),
        number(significant(n)) == n,
        significant(n)[0] != '0',
    decreases n,
{
    let s = significant(n);
    let d = digit_char(n % 10);
    assert(is_digit(d) && digit_value(d) == n % 10);
    assert(s.drop_last() =~= significant(n / 10));
    if n >= 10 {
        lemma_significant(n / 10);
    } else {
        assert(significant(n / 10) =~= Seq::<char>::empty());
    }
}

/// A number written in decimal takes `decimal_len` digits and reads back as
/// itself.
pub proof fn lemma_decimal(n: nat)
    ensures
        decimal(n).len() == decimal_len(n),
        forall|i: int| 0 <= i < decimal(n).len() ==> is_digit(#[trigger] decimal(n)[i]),
        number(decimal(n)) == n,
{
    if n > 0 {
        lemma_significant(n);
    } else {
        assert(decimal(n).drop_last() =~= Seq::<char>::empty());
        assert(number(Seq::<char>::empty()) == 0);
        assert(decimal(n).last() == '0');
    }
}

/// A smaller number never takes more digits.
pub proof fn lemma_decimal_len_monotonic(m: nat, n: nat)
    requires
        m <= n,
    ensures
        decimal_len(m) <= decimal_len(n),
    decreases n,
{
    if m >= 10 {
        lemma_decimal_len_monotonic(m / 10, n / 10);
    }
}

/// Zeros in front do not change the number that digits write.
pub proof fn lemma_number_leading_zeros(count: nat, s: Seq<char>)
    ensures
        number(zeros(count) + s) == number(s),
    decreases s.len(), count,
{
    let t = zeros(count) + s;
    if s.len() == 0 {
        assert(t =~= zeros(count));
        if count > 0 {
            assert(t.drop_last() =~= zeros((count - 1) as nat) + s);
            lemma_number_leading_zeros((count - 1) as nat, s);
        }
    } else {
        assert(t.drop_last() =~= zeros(count) + s.drop_last());
        lemma_number_leading_zeros(count, s.drop_last());
    }
}

/// Among `count` pages every page number, padded to the width of `count`,
/// has exactly as many characters as `count` has digits; all of them are
/// digits, and they write the page number.
pub proof fn lemma_page_number_width(index: nat, count: nat)
    requires
        index < count,
    ensures
        padded(index + 1, decimal_len(count)).len() == decimal_len(count),
        forall|i: int|
            0 <= i < decimal_len(count) ==> is_digit(
                #[trigger] padded(index + 1, decimal_len(count))[i],
            ),
        number(padded(index + 1, decimal_len(count))) == index + 1,
{
    lemma_decimal(index + 1);
    lemma_decimal_len_monotonic(index + 1, count);
    lemma_number_leading_zeros((decimal_len(count) - decimal(index + 1).len()) as nat, decimal(index + 1));
}

/// A number takes no more digits than its value, zero apart.
proof fn lemma_decimal_len_bound(n: nat)
    ensures
        decimal_len(n) <= if n == 0 { 1 } else { n },
    decreases n,
{
    if n >= 10 {
        lemma_decimal_len_bound(n / 10);
    }
}

/// The number of digits that `count` takes in decimal: the width to which
/// the page numbers of `count` pages are padded.
pub fn page_num_len(count: usize) -> (len: usize)
    ensures
        len == decimal_len(count as nat),
{
    let mut len: usize = 1;
    let mut rest: usize = count;
    proof {
        lemma_decimal_len_bound(count as nat);
    }
    while rest >= 10
        invariant
            len + decimal_len(rest as nat) == decimal_len(count as nat) + 1,
            decimal_len(count as nat) <= usize::MAX,
        decreases rest,
    {
        assert(decimal_len((rest / 10) as nat) >= 1);
        rest = rest / 10;
        len = len + 1;
    }
    len
}

/// The character that writes the digit `d`.
fn digit_to_char(d: usize) -> (c: char)
    requires
        d < 10,
    ensures
        c == digit_char(d as nat),
{
    (d as u8 + 48u8) as char
}

/// `n` in decimal, zero-padded on the left to at least `width` characters.
pub fn padded_number(n: usize, width: usize) -> (out: String)
    ensures
        out@ == padded(n as nat, width as nat),
{
    let mut digits: Vec<char> = Vec::new();
    let mut rest: usize = n;
    while rest > 0
        invariant
            significant(n as nat) == significant(rest as nat) + digits@.reverse(),
        decreases rest,
    {
        let ghost before = digits@;
        digits.push(digit_to_char(rest % 10));
        proof {
            let d = digit_char((rest % 10) as nat);
            assert(digits@.reverse() =~= seq![d] + before.reverse());
            assert(significant(rest as nat) + before.reverse() =~= significant((rest / 10) as nat)
                + (seq![d] + before.reverse()));
        }
        rest = rest / 10;
    }
    assert(significant(n as nat) =~= digits@.reverse());
    if digits.len() == 0 {
        digits.push('0');
        assert(digits@.reverse() =~= seq!['0']);
    }
    assert(decimal(n as nat) == digits@.reverse());
    let mut out = String::new();
    let mut fill: usize = digits.len();
    while fill < width
        invariant
            digits@.len() <= fill,
            fill <= width || fill == digits@.len(),
            out@ == zeros((fill - digits@.len()) as nat),
        decreases width - fill,
    {
        push_char(&mut out, '0');
        fill = fill + 1;
    }
    let ghost lead = out@;
    assert(padded(n as nat, width as nat) =~= lead + digits@.reverse());
    let mut i: usize = digits.len();
    while i > 0
        invariant
            i <= digits@.len(),
            out@ == lead + digits@.reverse().take(digits@.len() - i),
        decreases i,
    {
        i = i - 1;
        push_char(&mut out, digits[i]);
        assert(digits@.reverse().take(digits@.len() - i) =~= digits@.reverse().take(
            digits@.len() - i - 1,
        ).push(digits@[i as int]));
    }
    assert(digits@.reverse().take(digits@.len() as int) =~= digits@.reverse());
    out
}

/// The file name of the page at the 0-based position `index` among `count`
/// pages, with `extension` where the page has one.
pub fn final_name(index: usize, count: usize, extension: &Option<String>) -> (out: String)
    requires
        index < usize::MAX,
    ensures
        out@ == page_name(index as nat, count as nat, extension_view(extension)),
{
    let mut out = padded_number(index + 1, page_num_len(count));
    match extension {
        Some(ext) => {
            push_char(&mut out, '.');
            out.append(ext.as_str());
        },
        None => {},
    }
    out
}

/// The characters of an extension, where there is one.
pub open spec fn extension_view(extension: &Option<String>) -> Option<Seq<char>> {
    match extension {
        Some(ext) => Some(ext@),
        None => None,
    }
}

/// Among `count` pages no two get the same name, whatever their extensions.
pub proof fn lemma_page_names_distinct(
    i: nat,
    j: nat,
    count: nat,
    first: Option<Seq<char>>,
    second: Option<Seq<char>>,
)
    requires
        i < count,
        j < count,
        i != j,
    ensures
        page_name(i, count, first) != page_name(j, count, second),
{
    let width = decimal_len(count) as int;
    lemma_page_number_width(i, count);
    lemma_page_number_width(j, count);
    assert(page_name(i, count, first).take(width) =~= padded(i + 1, decimal_len(count)));
    assert(page_name(j, count, second).take(width) =~= padded(j + 1, decimal_len(count)));
}

/// The name of a page starts with a digit.
pub proof fn lemma_page_name_starts_with_digit(i: nat, count: nat, extension: Option<Seq<char>>)
    requires
        i < count,
    ensures
        page_name(i, count, extension).len() > 0,
        is_digit(page_name(i, count, extension)[0]),
{
    lemma_page_number_width(i, count);
    assert(is_digit(padded(i + 1, decimal_len(count))[0]));
}

} // verus!
