//! Numbers as text.

use crate::num::{even_div, even_quotient};
use vstd::prelude::*;
use vstd::string::StringExecFns;

verus! {

/// The digit character of a number below ten.
pub open spec fn digit(d: int) -> char {
    (48 + d) as char
}

/// A number in decimal.
pub open spec fn decimal(n: int) -> Seq<char>
    decreases n,
{
    if n < 10 {
        seq![digit(n)]
    } else {
        decimal(n / 10).push(digit(n % 10))
    }
}

/// A number of either sign in decimal.
pub open spec fn signed_decimal(n: int) -> Seq<char> {
    if n < 0 {
        "-"@ + decimal(-n)
    } else {
        decimal(n)
    }
}

/// A number of tenths that is not negative, with one decimal place.
pub open spec fn tenths(n: int) -> Seq<char> {
    decimal(n / 10) + "."@ + decimal(n % 10)
}

/// The fraction `num / den` with one decimal place, halves rounded to the even
/// tenth. What is below zero has a minus sign, even where it rounds to zero.
pub open spec fn fixed_point(num: int, den: int) -> Seq<char> {
    if num < 0 {
        "-"@ + tenths(even_quotient(-num * 10, den))
    } else {
        tenths(even_quotient(num * 10, den))
    }
}

/// The text of one digit.
fn digit_text(d: u8) -> (s: &'static str)
    requires
        d < 10,
    ensures
        s@ == seq![digit(d as int)],
{
    proof {
        reveal_strlit("0");
        reveal_strlit("1");
        reveal_strlit("2");
        reveal_strlit("3");
        reveal_strlit("4");
        reveal_strlit("5");
        reveal_strlit("6");
        reveal_strlit("7");
        reveal_strlit("8");
        reveal_strlit("9");
    }
    let s = match d {
        0 => "0",
        1 => "1",
        2 => "2",
        3 => "3",
        4 => "4",
        5 => "5",
        6 => "6",
        7 => "7",
        8 => "8",
        _ => "9",
    };
    assert(s@ =~= seq![digit(d as int)]);
    s
}

/// Append a number in decimal.
pub fn append_decimal(out: &mut String, n: u128)
    ensures
        final(out)@ == old(out)@ + decimal(n as int),
    decreases n,
{
    if n >= 10 {
        append_decimal(out, n / 10);
    }
    out.append(digit_text((n % 10) as u8));
    assert(out@ =~= old(out)@ + decimal(n as int));
}

/// Append a number of either sign in decimal.
pub fn append_signed(out: &mut String, n: i128)
    requires
        n > i128::MIN,
    ensures
        final(out)@ == old(out)@ + signed_decimal(n as int),
{
    if n < 0 {
        out.append("-");
        append_decimal(out, (-n) as u128);
        assert(out@ =~= old(out)@ + signed_decimal(n as int));
    } else {
        append_decimal(out, n as u128);
    }
}

/// Append a number of tenths with one decimal place.
pub fn append_tenths(out: &mut String, n: u128)
    ensures
        final(out)@ == old(out)@ + tenths(n as int),
{
    append_decimal(out, n / 10);
    out.append(".");
    append_decimal(out, n % 10);
    assert(out@ =~= old(out)@ + tenths(n as int));
}

/// Append the fraction `num / den` with one decimal place.
pub fn append_fixed_point(out: &mut String, num: i128, den: i128)
    requires
        den > 0,
        -0x800_0000_0000_0000_0000_0000_0000_0000 < num < 0x800_0000_0000_0000_0000_0000_0000_0000,
    ensures
        final(out)@ == old(out)@ + fixed_point(num as int, den as int),
{
    let size: u128 = if num < 0 { (-num) as u128 } else { num as u128 };
    if num < 0 {
        out.append("-");
    }
    append_tenths(out, even_div(size * 10, den as u128));
    assert(out@ =~= old(out)@ + fixed_point(num as int, den as int));
}

/// Decimal text has no leading zero and only ever one digit for each power of
/// ten: different numbers have different texts.
pub proof fn lemma_decimal_injective(a: int, b: int)
    requires
        a >= 0,
        b >= 0,
        decimal(a) == decimal(b),
    ensures
        a == b,
    decreases a,
{
    let x = decimal(a);
    let y = decimal(b);
    assert(x[x.len() - 1] == y[y.len() - 1]);
    if a < 10 && b < 10 {
        assert(x[0] == digit(a) && y[0] == digit(b));
    } else if a < 10 {
        lemma_decimal_not_empty(b / 10);
        assert(y.len() > 1);
    } else if b < 10 {
        lemma_decimal_not_empty(a / 10);
        assert(x.len() > 1);
    } else {
        assert(decimal(a / 10) =~= x.drop_last());
        assert(decimal(b / 10) =~= y.drop_last());
        lemma_decimal_injective(a / 10, b / 10);
        assert(digit(a % 10) == digit(b % 10));
    }
}

proof fn lemma_decimal_not_empty(n: int)
    ensures
        decimal(n).len() > 0,
    decreases n,
{
    if n >= 10 {
        lemma_decimal_not_empty(n / 10);
    }
}

// --- reading numbers back ---------------------------------------------------

/// The number that digits stand for, the last one for ones.
pub open spec fn read_digits(s: Seq<char>) -> int
    decreases s.len(),
{
    if s.len() == 0 {
        0
    } else {
        10 * read_digits(s.drop_last()) + (s.last() as int - 48)
    }
}

/// Decimal text reads as its number: it is digits only, with no zero in front but that of zero
/// itself.
pub proof fn lemma_decimal_reads_back(n: int)
    requires
        n >= 0,
    ensures
        read_digits(decimal(n)) == n,
        decimal(n).len() >= 1,
        forall|i: int| 0 <= i < decimal(n).len() ==> '0' <= #[trigger] decimal(n)[i] <= '9',
        decimal(n)[0] == '0' ==> n == 0,
    decreases n,
{
    let s = decimal(n);
    if n < 10 {
        assert(s.drop_last() =~= Seq::<char>::empty());
        assert(read_digits(s.drop_last()) == 0);
        assert(s.last() == digit(n));
        assert(digit(n) as int == 48 + n);
    } else {
        lemma_decimal_reads_back(n / 10);
        let t = decimal(n / 10);
        assert(s.drop_last() =~= t);
        assert(s.last() == digit(n % 10));
        assert(s[0] == t[0]);
        assert forall|i: int| 0 <= i < s.len() implies '0' <= #[trigger] s[i] <= '9' by {
            if i < t.len() {
                assert(s[i] == t[i]);
            }
        }
    }
}

/// A number of tenths has one digit after the point, and read without the point it is the
/// number.
pub proof fn lemma_tenths_read_back(n: int)
    requires
        n >= 0,
    ensures
        ({
            let s = tenths(n);
            &&& s.len() >= 3
            &&& s[s.len() - 2] == '.'
            &&& read_digits(s.take(s.len() - 2).push(s[s.len() - 1])) == n
        }),
{
    reveal_strlit(".");
    let s = tenths(n);
    let whole = decimal(n / 10);
    lemma_decimal_reads_back(n / 10);
    lemma_decimal_reads_back(n % 10);
    assert(decimal(n % 10) == seq![digit(n % 10)]);
    assert(s.take(s.len() - 2) =~= whole);
    let t = whole.push(s[s.len() - 1]);
    assert(t.drop_last() =~= whole);
    assert(t.last() == digit(n % 10));
}

/// A fraction reads, without its sign, as the nearest number of tenths to its size, and at a tie
/// as the even one; it has a minus sign exactly if it is below zero. Turning its sign changes the
/// sign alone.
pub proof fn lemma_fixed_point_is_nearest(num: int, den: int) -> (t: int)
    requires
        den > 0,
    ensures
        t >= 0,
        num >= 0 ==> fixed_point(num, den) == tenths(t) && -den <= 2 * (t * den - 10 * num) <= den
            && (2 * (t * den - 10 * num) == den || 2 * (t * den - 10 * num) == -den ==> t % 2 == 0),
        num < 0 ==> fixed_point(num, den) == seq!['-'] + tenths(t) && fixed_point(-num, den)
            == tenths(t),
{
    reveal_strlit("-");
    assert("-"@ =~= seq!['-']);
    let size = if num < 0 { -num } else { num };
    let t = even_quotient(size * 10, den);
    crate::num::lemma_even_quotient(size * 10, den);
    let whole = size * 10 / den;
    assert(whole >= 0) by (nonlinear_arith)
        requires
            whole == size * 10 / den,
            size >= 0,
            den > 0,
    ;
    t
}

/// A number below zero has a minus sign before the text of its size, any other has none.
pub proof fn lemma_signed_decimal(n: int)
    ensures
        n >= 0 ==> read_digits(signed_decimal(n)) == n && signed_decimal(n)[0] != '-',
        n < 0 ==> signed_decimal(n)[0] == '-' && read_digits(signed_decimal(n).skip(1)) == -n,
{
    reveal_strlit("-");
    if n < 0 {
        lemma_decimal_reads_back(-n);
        assert(signed_decimal(n).skip(1) =~= decimal(-n));
    } else {
        lemma_decimal_reads_back(n);
    }
}

} // verus!
