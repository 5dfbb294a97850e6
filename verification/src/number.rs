//! Decimal numbers in text.

use vstd::arithmetic::power::pow;
use vstd::prelude::*;
use vstd::slice::slice_subrange;
use crate::text::string_of;

verus! {

/// Whether a character is one of the ten ASCII digits.
pub open spec fn is_digit(c: char) -> bool {
    '0' <= c <= '9'
}

/// The value of a digit.
pub open spec fn digit_value(c: char) -> int {
    c as u32 - '0' as u32
}

/// Whether a text consists of digits only, and of at least one.
pub open spec fn is_numeral(s: Seq<char>) -> bool {
    s.len() > 0 && forall|i: int| 0 <= i < s.len() ==> is_digit(#[trigger] s[i])
}

/// The value of a row of digits.
pub open spec fn numeral_value(s: Seq<char>) -> int
    decreases s.len(),
{
    if s.len() == 0 {
        0
    } else {
        10 * numeral_value(s.drop_last()) + digit_value(s.last())
    }
}

/// The number that a text denotes: a numeral with an optional `+` before it,
/// of at most `u64::MAX`.
pub open spec fn parse_u64(s: Seq<char>) -> Option<u64> {
    let digits = if s.len() > 0 && s[0] == '+' {
        s.skip(1)
    } else {
        s
    };
    if is_numeral(digits) && numeral_value(digits) <= u64::MAX {
        Some(numeral_value(digits) as u64)
    } else {
        None
    }
}

/// The number that a text denotes: a numeral with an optional `+` or `-`
/// before it, within the range of `i64`.
pub open spec fn parse_i64(s: Seq<char>) -> Option<i64> {
    let negative = s.len() > 0 && s[0] == '-';
    let digits = if s.len() > 0 && (s[0] == '+' || s[0] == '-') {
        s.skip(1)
    } else {
        s
    };
    let value = if negative {
        -numeral_value(digits)
    } else {
        numeral_value(digits)
    };
    if is_numeral(digits) && i64::MIN <= value <= i64::MAX {
        Some(value as i64)
    } else {
        None
    }
}

/// The digit with a given value.
pub open spec fn digit_char(d: int) -> char {
    ('0' as u32 + d) as char
}

/// The decimal notation of a number, without leading zeros.
pub open spec fn decimal(n: nat) -> Seq<char>
    decreases n,
{
    if n < 10 {
        seq![digit_char(n as int)]
    } else {
        decimal(n / 10).push(digit_char((n % 10) as int))
    }
}

/// A numeral's value is not negative, and no prefix of it has a larger value.
proof fn lemma_prefix_value(s: Seq<char>, n: int)
    requires
        forall|i: int| 0 <= i < s.len() ==> is_digit(#[trigger] s[i]),
        0 <= n <= s.len(),
    ensures
        0 <= numeral_value(s.take(n)) <= numeral_value(s),
    decreases s.len(),
{
    if n == s.len() {
        assert(s.take(n) =~= s);
        if s.len() > 0 {
            lemma_prefix_value(s.drop_last(), s.len() - 1);
            assert(s.drop_last().take(s.len() - 1) =~= s.drop_last());
        }
    } else {
        lemma_prefix_value(s.drop_last(), n);
        assert(s.drop_last().take(n) =~= s.take(n));
    }
}

/// The notation of a number is a numeral, and reading it gives the number back.
pub proof fn law_decimal_reads_back(n: u64)
    ensures
        is_numeral(decimal(n as nat)),
        numeral_value(decimal(n as nat)) == n,
        parse_u64(decimal(n as nat)) == Some(n),
    decreases n,
{
    let s = decimal(n as nat);
    if n < 10 {
        assert(s.drop_last() =~= Seq::<char>::empty());
        assert(numeral_value(s.drop_last()) == 0);
        assert(digit_value(s.last()) == n);
    } else {
        law_decimal_reads_back(n / 10);
        assert(s.drop_last() =~= decimal((n / 10) as nat));
        assert(digit_value(s.last()) == n % 10);
        assert forall|i: int| 0 <= i < s.len() implies is_digit(#[trigger] s[i]) by {
            if i < s.len() - 1 {
                assert(s[i] == decimal((n / 10) as nat)[i]);
            }
        }
    }
    assert(is_digit(s[0]));
}

/// Reads a row of digits: its value, if it is one and fits.
fn read_numeral(s: &[char]) -> (r: Option<u64>)
    ensures
        r == if is_numeral(s@) && numeral_value(s@) <= u64::MAX {
            Some(numeral_value(s@) as u64)
        } else {
            None
        },
{
    if s.len() == 0 {
        return None;
    }
    let mut value: u64 = 0;
    let mut i: usize = 0;
    while i < s.len()
        invariant
            i <= s@.len(),
            forall|j: int| 0 <= j < i ==> is_digit(#[trigger] s@[j]),
            value == numeral_value(s@.take(i as int)),
        decreases s@.len() - i,
    {
        let c = s[i];
        if c < '0' || c > '9' {
            assert(!is_digit(s@[i as int]));
            return None;
        }
        let d: u64 = c as u64 - '0' as u64;
        assert(s@.take(i + 1).drop_last() =~= s@.take(i as int));
        if value > (u64::MAX - d) / 10 {
            proof {
                if is_numeral(s@) {
                    lemma_prefix_value(s@, i + 1);
                }
            }
            return None;
        }
        value = value * 10 + d;
        i = i + 1;
    }
    assert(s@.take(s@.len() as int) =~= s@);
    Some(value)
}

/// Reads an unsigned number.
pub fn read_u64(s: &[char]) -> (r: Option<u64>)
    ensures
        r == parse_u64(s@),
{
    if s.len() > 0 && s[0] == '+' {
        assert(s@.subrange(1, s@.len() as int) =~= s@.skip(1));
        read_numeral(slice_subrange(s, 1, s.len()))
    } else {
        read_numeral(s)
    }
}

/// Reads a signed number.
pub fn read_i64(s: &[char]) -> (r: Option<i64>)
    ensures
        r == parse_i64(s@),
{
    let signed = s.len() > 0 && (s[0] == '+' || s[0] == '-');
    let negative = s.len() > 0 && s[0] == '-';
    assert(signed ==> s@.subrange(1, s@.len() as int) =~= s@.skip(1));
    let digits = if signed {
        slice_subrange(s, 1, s.len())
    } else {
        s
    };
    proof {
        if is_numeral(digits@) {
            lemma_prefix_value(digits@, 0);
        }
    }
    match read_numeral(digits) {
        None => None,
        Some(value) => {
            if negative {
                if value <= 0x8000_0000_0000_0000 {
                    Some((-(value as i128)) as i64)
                } else {
                    None
                }
            } else {
                if value <= 0x7fff_ffff_ffff_ffff {
                    Some(value as i64)
                } else {
                    None
                }
            }
        },
    }
}

/// The decimal notation of a number, as characters.
fn decimal_chars(n: u64) -> (r: Vec<char>)
    ensures
        r@ == decimal(n as nat),
    decreases n,
{
    let d: u8 = (n % 10) as u8;
    let c: char = (48u8 + d) as char;
    let mut r: Vec<char> = if n < 10 {
        Vec::new()
    } else {
        decimal_chars(n / 10)
    };
    r.push(c);
    assert(r@ =~= decimal(n as nat));
    r
}

/// The decimal notation of a number.
pub fn write_u64(n: u64) -> (r: String)
    ensures
        r@ == decimal(n as nat),
{
    let v = decimal_chars(n);
    string_of(v.as_slice())
}

/// The value of digits is positional: each place counts ten times the next, and a
/// digit counts its distance from zero.
pub proof fn law_numeral_value(a: Seq<char>, b: Seq<char>, c: char)
    requires
        '0' <= c <= '9',
    ensures
        numeral_value(a + b) == numeral_value(a) * pow(10, b.len()) + numeral_value(b),
        numeral_value(seq![c]) == c as int - '0' as int,
        numeral_value(Seq::empty()) == 0,
    decreases b.len(),
{
    reveal(pow);
    assert(seq![c].drop_last() =~= Seq::<char>::empty());
    assert(numeral_value(Seq::<char>::empty()) == 0);
    assert(numeral_value(seq![c]) == 10 * 0 + digit_value(c));
    if b.len() == 0 {
        assert(a + b =~= a);
    } else {
        let d = b.drop_last();
        law_numeral_value(a, d, c);
        assert((a + b).drop_last() =~= a + d);
        let (x, p) = (numeral_value(a), pow(10, d.len()));
        assert(pow(10, b.len()) == 10 * p);
        assert(10 * (x * p) == x * (10 * p)) by (nonlinear_arith);
    }
}

/// An unsigned number is written in digits, at least one, with or without a `+`
/// before them, and is not too large. Nothing else is one.
pub proof fn law_parse_u64(digits: Seq<char>, s: Seq<char>)
    requires
        digits.len() > 0,
        forall|i: int| 0 <= i < digits.len() ==> '0' <= #[trigger] digits[i] <= '9',
    ensures
        ({
            let value = numeral_value(digits);
            let number = if value <= u64::MAX {
                Some(value as u64)
            } else {
                None
            };
            parse_u64(digits) == number && parse_u64(seq!['+'] + digits) == number
        }),
        parse_u64(s) is Some ==> s.len() > 0 && ('0' <= s[0] <= '9' || (s[0] == '+' && s.len() > 1))
            && forall|i: int| 0 < i < s.len() ==> '0' <= #[trigger] s[i] <= '9',
{
    let signed = seq!['+'] + digits;
    assert(signed.skip(1) =~= digits);
    assert('0' <= digits[0] <= '9');
    if parse_u64(s) is Some {
        lemma_unsigned_digits(s, s[0] == '+');
    }
}

/// The characters of a text whose part behind a sign, if it has one, is a numeral.
proof fn lemma_unsigned_digits(s: Seq<char>, signed: bool)
    requires
        s.len() > 0,
        is_numeral(
            if signed {
                s.skip(1)
            } else {
                s
            },
        ),
    ensures
        signed ==> s.len() > 1,
        !signed ==> is_digit(s[0]),
        forall|i: int| 0 < i < s.len() ==> is_digit(#[trigger] s[i]),
{
    assert forall|i: int| 0 < i < s.len() implies is_digit(#[trigger] s[i]) by {
        if signed {
            assert(is_digit(s.skip(1)[i - 1]));
        }
    }
}

/// A signed number is written in digits, at least one, with or without a sign before
/// them, and lies within the range. Nothing else is one.
pub proof fn law_parse_i64(digits: Seq<char>, s: Seq<char>)
    requires
        digits.len() > 0,
        forall|i: int| 0 <= i < digits.len() ==> '0' <= #[trigger] digits[i] <= '9',
    ensures
        ({
            let value = numeral_value(digits);
            let plus = if value <= i64::MAX {
                Some(value as i64)
            } else {
                None
            };
            let minus = if -value >= i64::MIN {
                Some((-value) as i64)
            } else {
                None
            };
            parse_i64(digits) == plus && parse_i64(seq!['+'] + digits) == plus && parse_i64(
                seq!['-'] + digits,
            ) == minus
        }),
        parse_i64(s) is Some ==> s.len() > 0 && ('0' <= s[0] <= '9' || ((s[0] == '+' || s[0] == '-')
            && s.len() > 1)) && forall|i: int| 0 < i < s.len() ==> '0' <= #[trigger] s[i] <= '9',
{
    let (plus, minus) = (seq!['+'] + digits, seq!['-'] + digits);
    assert(plus.skip(1) =~= digits);
    assert(minus.skip(1) =~= digits);
    assert('0' <= digits[0] <= '9');
    assert(is_numeral(digits));
    lemma_prefix_value(digits, 0);
    if parse_i64(s) is Some {
        lemma_unsigned_digits(s, s[0] == '+' || s[0] == '-');
    }
}

/// The notation of a number has no leading zeros: it begins with one only if it is
/// the notation of zero.
pub proof fn law_decimal_is_shortest(n: nat)
    ensures
        decimal(n).len() > 0,
        decimal(n)[0] == '0' <==> n == 0,
        n == 0 ==> decimal(n) == seq!['0'],
    decreases n,
{
    if n >= 10 {
        law_decimal_is_shortest(n / 10);
    }
}

} // verus!
