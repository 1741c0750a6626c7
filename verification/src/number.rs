//! Whole numbers in decimal digits.

use vstd::prelude::*;

verus! {

/// `b` is one of the digits `0` to `9`.
pub open spec fn is_digit(b: u8) -> bool {
    48 <= b <= 57
}

/// Every byte of `s` is a digit.
pub open spec fn all_digits(s: Seq<u8>) -> bool {
    forall|i: int| 0 <= i < s.len() ==> is_digit(#[trigger] s[i])
}

/// The number that the digits of `s` write in base ten.
pub open spec fn digits_value(s: Seq<u8>) -> nat
    decreases s.len(),
{
    if s.len() == 0 {
        0
    } else {
        digits_value(s.drop_last()) * 10 + (s.last() - 48) as nat
    }
}

/// `token` begins with a plus or a minus sign.
pub open spec fn has_sign(token: Seq<u8>) -> bool {
    token.len() > 0 && (token[0] == 43 || token[0] == 45)
}

/// The 64-bit integer that `token` writes: an optional sign, then one digit
/// or more, the number within the range of `i64`. `None` for anything else.
pub open spec fn int_of(token: Seq<u8>) -> Option<i64> {
    let digits = if has_sign(token) {
        token.drop_first()
    } else {
        token
    };
    let value = if has_sign(token) && token[0] == 45 {
        -(digits_value(digits) as int)
    } else {
        digits_value(digits) as int
    };
    if digits.len() > 0 && all_digits(digits) && i64::MIN <= value <= i64::MAX {
        Some(value as i64)
    } else {
        None
    }
}

/// The decimal digits of `n`, without leading zeros.
pub open spec fn decimal_of(n: nat) -> Seq<u8>
    decreases n,
{
    if n < 10 {
        seq![(48 + n) as u8]
    } else {
        decimal_of(n / 10).push((48 + n % 10) as u8)
    }
}

/// A longer prefix of a string of digits writes a number at least as large.
proof fn lemma_digits_value_grows(s: Seq<u8>, i: int)
    requires
        0 <= i <= s.len(),
        all_digits(s),
    ensures
        digits_value(s.take(i)) <= digits_value(s),
    decreases s.len() - i,
{
    if i < s.len() {
        assert(s.take(i + 1).drop_last() =~= s.take(i));
        assert(is_digit(s[i]));
        assert(s.take(i + 1).last() == s[i]);
        lemma_digits_value_grows(s, i + 1);
    } else {
        assert(s.take(i) =~= s);
    }
}

/// The decimal digits of a number write that number, are digits, and begin
/// with a zero for the number zero only.
pub proof fn lemma_decimal_of(n: nat)
    ensures
        digits_value(decimal_of(n)) == n,
        all_digits(decimal_of(n)),
        decimal_of(n).len() >= 1,
        n > 0 ==> decimal_of(n)[0] != 48,
    decreases n,
{
    if n < 10 {
        let s = seq![(48 + n) as u8];
        assert(s.drop_last() =~= Seq::<u8>::empty());
        assert(s.last() == 48 + n);
        assert(digits_value(s.drop_last()) == 0);
        assert(digits_value(s) == n);
    } else {
        lemma_decimal_of(n / 10);
        let rest = decimal_of(n / 10);
        let s = rest.push((48 + n % 10) as u8);
        assert(s.drop_last() =~= rest);
        assert(s.last() == 48 + n % 10);
        assert(s[0] == rest[0]);
        assert(digits_value(s) == digits_value(rest) * 10 + n % 10);
        assert forall|i: int| 0 <= i < s.len() implies is_digit(#[trigger] s[i]) by {
            if i < rest.len() {
                assert(s[i] == rest[i]);
            }
        }
    }
}

/// Reads a 64-bit integer as `str::parse` reads one: an optional sign, then
/// decimal digits only. Returns `None` where `token` is anything else, and
/// where the number does not fit.
pub fn parse_i64(token: &[u8]) -> (r: Option<i64>)
    ensures
        r == int_of(token@),
{
    let n = token.len();
    let mut negative = false;
    let mut start: usize = 0;
    if n > 0 && (token[0] == 43 || token[0] == 45) {
        negative = token[0] == 45;
        start = 1;
    }
    let ghost digits = token@.subrange(start as int, n as int);
    assert(digits =~= if has_sign(token@) {
        token@.drop_first()
    } else {
        token@
    });
    if start == n {
        return None;
    }
    let limit: u64 = 9223372036854775808;
    let mut acc: u64 = 0;
    let mut i: usize = start;
    assert(digits.take(0) =~= Seq::<u8>::empty());
    while i < n
        invariant
            start <= i <= n == token.len(),
            limit == 9223372036854775808,
            digits == token@.subrange(start as int, n as int),
            digits == (if has_sign(token@) {
                token@.drop_first()
            } else {
                token@
            }),
            negative == (has_sign(token@) && token@[0] == 45),
            acc == digits_value(digits.take(i - start)),
            acc <= limit,
            all_digits(digits.take(i - start)),
        decreases n - i,
    {
        let b = token[i];
        if b < 48 || b > 57 {
            assert(!is_digit(digits[i - start]));
            return None;
        }
        let d: u64 = (b - 48) as u64;
        proof {
            let longer = digits.take(i - start + 1);
            assert(longer.drop_last() =~= digits.take(i - start));
            assert(longer.last() == b);
            assert forall|j: int| 0 <= j < longer.len() implies is_digit(#[trigger] longer[j]) by {
                if j < i - start {
                    assert(digits.take(i - start)[j] == longer[j]);
                }
            }
        }
        if acc > (limit - d) / 10 {
            proof {
                if all_digits(digits) {
                    lemma_digits_value_grows(digits, i - start + 1);
                }
            }
            return None;
        }
        acc = acc * 10 + d;
        i += 1;
    }
    assert(digits.take(n - start) =~= digits);
    if negative {
        if acc == limit {
            Some(i64::MIN)
        } else {
            Some(-(acc as i64))
        }
    } else {
        if acc == limit {
            None
        } else {
            Some(acc as i64)
        }
    }
}

/// Appends the decimal digits of `n` to `out`.
pub fn push_decimal(out: &mut Vec<u8>, n: usize)
    ensures
        final(out)@ == old(out)@ + decimal_of(n as nat),
    decreases n,
{
    if n >= 10 {
        push_decimal(out, n / 10);
    }
    let digit: u8 = (48 + n % 10) as u8;
    out.push(digit);
    assert(final(out)@ =~= old(out)@ + decimal_of(n as nat)) by {
        if n >= 10 {
            assert(old(out)@ + decimal_of(n as nat / 10).push(digit) =~= (old(out)@ + decimal_of(
                n as nat / 10,
            )).push(digit));
        } else {
            assert(old(out)@ + seq![digit] =~= old(out)@.push(digit));
        }
    }
}

} // verus!
