//! Decimal notation: writing numbers, and reading signed 64-bit integers.
use crate::text;
use vstd::arithmetic::power;
use vstd::prelude::*;
use vstd::slice::slice_subrange;

verus! {

/// The digit that stands for `d`, where `d` is below ten.
pub open spec fn digit_char(d: nat) -> char {
    (('0' as u32 + d) as u32) as char
}

/// The number that the digit `c` stands for.
pub open spec fn digit_value(c: char) -> nat {
    (c as u32 - '0' as u32) as nat
}

/// `n` in decimal notation, without leading zeros.
pub open spec fn decimal(n: nat) -> Seq<char>
    decreases n,
{
    if n < 10 {
        seq![digit_char(n)]
    } else {
        decimal(n / 10).push(digit_char(n % 10))
    }
}

/// `n` in decimal notation, filled up with a zero to two digits.
pub open spec fn two_digits(n: nat) -> Seq<char> {
    if n < 10 {
        seq!['0', digit_char(n)]
    } else {
        decimal(n)
    }
}

/// Appends `n` in decimal notation.
pub fn push_decimal(out: &mut Vec<char>, n: u64)
    ensures
        final(out)@ == old(out)@ + decimal(n as nat),
    decreases n,
{
    if n >= 10 {
        push_decimal(out, n / 10);
    }
    let d: u8 = (n % 10) as u8;
    out.push((48 + d) as char);
    assert(out@ =~= old(out)@ + decimal(n as nat));
}

/// Appends `n` in decimal notation, filled up with a zero to two digits.
pub fn push_two_digits(out: &mut Vec<char>, n: u64)
    ensures
        final(out)@ == old(out)@ + two_digits(n as nat),
{
    if n < 10 {
        out.push('0');
    }
    push_decimal(out, n);
    assert(out@ =~= old(out)@ + two_digits(n as nat));
}

/// Every character is a digit.
pub open spec fn all_digits(s: Seq<char>) -> bool {
    forall|i: int| 0 <= i < s.len() ==> text::is_digit(#[trigger] s[i])
}

/// The number that the digits `s` stand for.
pub open spec fn digits_value(s: Seq<char>) -> nat
    decreases s.len(),
{
    if s.len() == 0 {
        0
    } else {
        10 * digits_value(s.drop_last()) + digit_value(s.last())
    }
}

/// The integer that `s` is the decimal notation of: one or more digits, with an optional sign
/// before them.
pub open spec fn int_value(s: Seq<char>) -> Option<int> {
    let negative = s.len() > 0 && s[0] == '-';
    let digits = if s.len() > 0 && (s[0] == '-' || s[0] == '+') {
        s.drop_first()
    } else {
        s
    };
    if digits.len() == 0 || !all_digits(digits) {
        None
    } else if negative {
        Some(-(digits_value(digits) as int))
    } else {
        Some(digits_value(digits) as int)
    }
}

/// The integer that `s` is the decimal notation of, where it fits in 64 bits.
pub open spec fn i64_value(s: Seq<char>) -> Option<i64> {
    match int_value(s) {
        Some(v) => if i64::MIN <= v <= i64::MAX {
            Some(v as i64)
        } else {
            None
        },
        None => None,
    }
}

proof fn lemma_digits_value_take(s: Seq<char>, i: int)
    requires
        0 <= i <= s.len(),
    ensures
        digits_value(s.take(i)) <= digits_value(s),
    decreases s.len(),
{
    if i < s.len() {
        lemma_digits_value_take(s.drop_last(), i);
        assert(s.drop_last().take(i) =~= s.take(i));
    } else {
        assert(s.take(i) =~= s);
    }
}

/// The number that `s` stands for, where `s` is one or more digits and the number is at most
/// `limit`.
fn parse_digits(s: &[char], limit: u64) -> (r: Option<u64>)
    requires
        limit >= 9,
    ensures
        r == if s@.len() > 0 && all_digits(s@) && digits_value(s@) <= limit {
            Some(digits_value(s@) as u64)
        } else {
            None
        },
{
    let n: usize = s.len();
    if n == 0 {
        return None;
    }
    let mut v: u64 = 0;
    for i in 0..n
        invariant
            n == s@.len(),
            limit >= 9,
            all_digits(s@.take(i as int)),
            v == digits_value(s@.take(i as int)),
            v <= limit,
    {
        let c: char = s[i];
        let ghost t = s@.take(i + 1);
        assert(t.drop_last() =~= s@.take(i as int));
        assert(t.last() == c);
        if !text::is_ascii_digit(c) {
            return None;
        }
        let d: u64 = (c as u32 - 48) as u64;
        if v > (limit - d) / 10 {
            proof {
                lemma_digits_value_take(s@, i + 1);
            }
            return None;
        }
        v = 10 * v + d;
        assert forall|j: int| 0 <= j < t.len() implies text::is_digit(#[trigger] t[j]) by {
            if j < i {
                assert(t[j] == s@.take(i as int)[j]);
            }
        }
    }
    assert(s@.take(n as int) =~= s@);
    Some(v)
}

/// Reads a signed 64-bit integer in decimal notation.
pub fn parse_i64(s: &[char]) -> (r: Option<i64>)
    ensures
        r == i64_value(s@),
{
    let n: usize = s.len();
    if n > 0 && s[0] == '-' {
        let digits: &[char] = slice_subrange(s, 1, n);
        assert(digits@ =~= s@.drop_first());
        match parse_digits(digits, 0x8000_0000_0000_0000) {
            Some(v) => if v == 0x8000_0000_0000_0000 {
                Some(i64::MIN)
            } else {
                Some(-(v as i64))
            },
            None => None,
        }
    } else {
        let start: usize = if n > 0 && s[0] == '+' {
            1
        } else {
            0
        };
        let digits: &[char] = slice_subrange(s, start, n);
        assert(start == 1 ==> digits@ =~= s@.drop_first());
        assert(start == 0 ==> digits@ =~= s@);
        match parse_digits(digits, 0x7fff_ffff_ffff_ffff) {
            Some(v) => Some(v as i64),
            None => None,
        }
    }
}

/// Reading back decimal notation gives the number that was written.
pub proof fn lemma_decimal(n: nat)
    ensures
        decimal(n).len() > 0,
        all_digits(decimal(n)),
        digits_value(decimal(n)) == n,
    decreases n,
{
    let s = decimal(n);
    if n < 10 {
        assert(s.drop_last() =~= seq![]);
        assert(digits_value(s.drop_last()) == 0);
    } else {
        lemma_decimal(n / 10);
        assert(s.drop_last() =~= decimal(n / 10));
        assert forall|i: int| 0 <= i < s.len() implies text::is_digit(#[trigger] s[i]) by {
            if i < s.len() - 1 {
                assert(s[i] == decimal(n / 10)[i]);
            }
        }
    }
}

/// Reading back two-digit notation gives the number that was written; a number below a hundred
/// takes exactly two digits.
pub proof fn lemma_two_digits(n: nat)
    ensures
        two_digits(n).len() >= 2,
        n < 100 ==> two_digits(n).len() == 2,
        all_digits(two_digits(n)),
        digits_value(two_digits(n)) == n,
{
    let s = two_digits(n);
    if n < 10 {
        assert(s.drop_last() =~= seq!['0']);
        assert(seq!['0'].drop_last() =~= seq![]);
        assert(digits_value(seq!['0']) == 10 * digits_value(seq![]) + digit_value('0'));
    } else {
        lemma_decimal(n);
        lemma_decimal(n / 10);
        if n < 100 {
            assert(decimal(n / 10).len() == 1);
        }
    }
}

// ---------------------------------------------------------------------------------------------
// Laws
// ---------------------------------------------------------------------------------------------

/// Each digit counts ten times what it would count one place further on.
pub proof fn law_digits_value(a: Seq<char>, b: Seq<char>, c: char)
    requires
        '0' <= c <= '9',
    ensures
        digits_value(seq![c]) == c as int - 48,
        digits_value(a + b) == digits_value(a) * power::pow(10, b.len()) + digits_value(b),
    decreases b.len(),
{
    assert(seq![c].drop_last() =~= seq![]);
    assert(digits_value(seq![c].drop_last()) == 0);
    if b.len() == 0 {
        power::lemma_pow0(10);
        assert(a + b =~= a);
    } else {
        let p = b.drop_last();
        assert((a + b).drop_last() =~= a + p);
        law_digits_value(a, p, c);
        let x = digits_value(a) as int;
        let y = power::pow(10, p.len());
        reveal(power::pow);
        assert(power::pow(10, b.len()) == 10 * y);
        assert(10 * (x * y) == x * (10 * y)) by (nonlinear_arith);
    }
}

/// Decimal notation stands for the number, in digits, and does not start with a zero that is not
/// needed.
pub proof fn law_decimal(n: nat)
    ensures
        digits_value(decimal(n)) == n,
        decimal(n).len() > 0,
        forall|i: int| 0 <= i < decimal(n).len() ==> '0' <= #[trigger] decimal(n)[i] <= '9',
        decimal(n)[0] == '0' ==> decimal(n).len() == 1,
    decreases n,
{
    lemma_decimal(n);
    assert forall|i: int| 0 <= i < decimal(n).len() implies '0' <= #[trigger] decimal(n)[i]
        <= '9' by {
        assert(text::is_digit(decimal(n)[i]));
    }
    if n >= 10 {
        law_decimal(n / 10);
        assert(decimal(n)[0] == decimal(n / 10)[0]);
        if decimal(n)[0] == '0' {
            assert(decimal(n / 10).len() == 1);
            assert(decimal(n / 10).drop_last() =~= seq![]);
            assert(digits_value(decimal(n / 10).drop_last()) == 0);
        }
    }
}

/// What is written for a number with at least two digits stands for it; below a hundred it has two
/// digits, and from there on it is plain decimal notation.
pub proof fn law_two_digits(n: nat)
    ensures
        digits_value(two_digits(n)) == n,
        forall|i: int| 0 <= i < two_digits(n).len() ==> '0' <= #[trigger] two_digits(n)[i] <= '9',
        n < 100 ==> two_digits(n).len() == 2,
        n >= 100 ==> two_digits(n)[0] != '0' && two_digits(n).len() >= 2,
{
    lemma_two_digits(n);
    law_decimal(n);
    assert forall|i: int| 0 <= i < two_digits(n).len() implies '0' <= #[trigger] two_digits(n)[i]
        <= '9' by {
        assert(text::is_digit(two_digits(n)[i]));
    }
    if n >= 100 && two_digits(n)[0] == '0' {
        assert(decimal(n).drop_last() =~= seq![]);
        assert(digits_value(decimal(n).drop_last()) == 0);
    }
}

/// Digits, with a sign before them or not, are read as the integer that they stand for, where it
/// fits.
pub proof fn law_integers_are_read(digits: Seq<char>)
    requires
        digits.len() > 0,
        forall|i: int| 0 <= i < digits.len() ==> '0' <= #[trigger] digits[i] <= '9',
    ensures
        digits_value(digits) <= i64::MAX ==> i64_value(digits) == Some(
            digits_value(digits) as i64,
        ) && i64_value(seq!['+'] + digits) == Some(digits_value(digits) as i64),
        digits_value(digits) <= i64::MAX + 1 ==> i64_value(seq!['-'] + digits) == Some(
            (-digits_value(digits)) as i64,
        ),
        digits_value(digits) > i64::MAX ==> i64_value(digits) is None && i64_value(
            seq!['+'] + digits,
        ) is None,
        digits_value(digits) > i64::MAX + 1 ==> i64_value(seq!['-'] + digits) is None,
{
    assert(all_digits(digits));
    assert((seq!['+'] + digits).drop_first() =~= digits);
    assert((seq!['-'] + digits).drop_first() =~= digits);
    assert('0' <= digits[0] <= '9');
}

/// Nothing else is read as an integer.
pub proof fn law_only_integers_are_read(s: Seq<char>)
    requires
        i64_value(s) is Some,
    ensures
        s.len() > 0,
        s[0] == '+' || s[0] == '-' ==> s.len() > 1,
        s[0] == '+' || s[0] == '-' || '0' <= s[0] <= '9',
        forall|i: int| 0 < i < s.len() ==> '0' <= #[trigger] s[i] <= '9',
{
    let signed = s[0] == '-' || s[0] == '+';
    assert forall|i: int| 0 < i < s.len() implies '0' <= #[trigger] s[i] <= '9' by {
        if signed {
            assert(text::is_digit(s.drop_first()[i - 1]));
        } else {
            assert(text::is_digit(s[i]));
        }
    }
    if !signed {
        assert(text::is_digit(s[0]));
    }
}

} // verus!
