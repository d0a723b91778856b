//! Decimal text of integers, as the length prefixes and integer values use it.

use vstd::prelude::*;
use crate::error::ParseError;
use crate::value::CR;

verus! {

/// `-`, the sign of a negative number.
pub const MINUS: u8 = 45;

/// The digit `0`.
pub const ZERO: u8 = 48;

/// The digit `9`.
pub const NINE: u8 = 57;

/// The decimal digits of `n`, most significant first, without leading zeros.
pub open spec fn digits(n: nat) -> Seq<u8>
    decreases n,
{
    if n < 10 {
        seq![(ZERO + n) as u8]
    } else {
        digits(n / 10).push((ZERO + n % 10) as u8)
    }
}

/// The decimal text of `n`: a minus sign for a negative number, then the
/// digits of its magnitude.
pub open spec fn decimal(n: int) -> Seq<u8> {
    if n < 0 {
        seq![MINUS] + digits((-n) as nat)
    } else {
        digits(n as nat)
    }
}

pub open spec fn is_digit(b: u8) -> bool {
    ZERO <= b <= NINE
}

pub open spec fn all_digits(s: Seq<u8>) -> bool {
    forall|i: int| 0 <= i < s.len() ==> is_digit(#[trigger] s[i])
}

/// The number that a string of digits denotes; leading zeros are allowed.
pub open spec fn digits_value(s: Seq<u8>) -> nat
    decreases s.len(),
{
    if s.len() == 0 {
        0
    } else {
        digits_value(s.drop_last()) * 10 + (s.last() - ZERO) as nat
    }
}

/// The number that a line denotes: an optional minus sign, then one or more
/// digits, the whole within the signed 64-bit range. Anything else denotes
/// nothing.
pub open spec fn parse_int_spec(s: Seq<u8>) -> Option<i64> {
    if s.len() > 0 && s[0] == MINUS {
        let t = s.skip(1);
        if t.len() > 0 && all_digits(t) && digits_value(t) <= 0x8000_0000_0000_0000 {
            Some((-digits_value(t)) as i64)
        } else {
            None
        }
    } else if s.len() > 0 && all_digits(s) && digits_value(s) <= i64::MAX {
        Some(digits_value(s) as i64)
    } else {
        None
    }
}

/// A longer string of digits denotes at least as much as any of its prefixes.
pub proof fn lemma_digits_value_monotonic(s: Seq<u8>, k: int)
    requires
        0 <= k <= s.len(),
    ensures
        digits_value(s.take(k)) <= digits_value(s),
    decreases s.len(),
{
    if k == s.len() {
        assert(s.take(k) =~= s);
    } else {
        lemma_digits_value_monotonic(s.drop_last(), k);
        assert(s.drop_last().take(k) =~= s.take(k));
    }
}

/// The digits of a number are digits, at least one of them, and denote it.
pub proof fn lemma_digits_denote(n: nat)
    ensures
        digits(n).len() > 0,
        all_digits(digits(n)),
        digits_value(digits(n)) == n,
    decreases n,
{
    if n < 10 {
        assert(digits(n).drop_last() =~= Seq::<u8>::empty());
        assert(digits_value(digits(n).drop_last()) == 0);
    } else {
        lemma_digits_denote(n / 10);
        assert(digits(n).drop_last() =~= digits(n / 10));
    }
}

/// Reading the decimal text of a 64-bit number gives that number back.
pub proof fn lemma_parse_int_decimal(n: i64)
    ensures
        parse_int_spec(decimal(n as int)) == Some(n),
        decimal(n as int).len() > 0,
        forall|i: int| 0 <= i < decimal(n as int).len() ==> decimal(n as int)[i] != CR,
{
    if n < 0 {
        let m = (-n) as nat;
        lemma_digits_denote(m);
        assert(decimal(n as int).skip(1) =~= digits(m));
    } else {
        lemma_digits_denote(n as nat);
    }
}

/// Reads a whole line as a decimal number.
pub fn parse_int(buffer: &[u8]) -> (r: Result<i64, ParseError>)
    ensures
        match parse_int_spec(buffer@) {
            Some(n) => r == Ok::<i64, ParseError>(n),
            None => r == Err::<i64, ParseError>(ParseError::InvalidNumber),
        },
{
    let len: usize = buffer.len();
    if len == 0 {
        return Err(ParseError::InvalidNumber);
    }
    let negative: bool = buffer[0] == MINUS;
    let start: usize = if negative { 1 } else { 0 };
    if start == len {
        return Err(ParseError::InvalidNumber);
    }
    let ghost body = buffer@.skip(start as int);
    let limit: u64 = if negative { 0x8000_0000_0000_0000 } else { 0x7fff_ffff_ffff_ffff };
    let mut acc: u64 = 0;
    let mut i: usize = start;
    proof {
        assert(buffer@.skip(0) =~= buffer@);
    }
    while i < len
        invariant
            start <= i <= len,
            len == buffer@.len(),
            body == buffer@.skip(start as int),
            all_digits(body.take(i - start)),
            acc == digits_value(body.take(i - start)),
            acc <= limit,
            0x7fff_ffff_ffff_ffff <= limit <= 0x8000_0000_0000_0000,
            negative ==> limit == 0x8000_0000_0000_0000 && start == 1 && buffer@[0] == MINUS,
            !negative ==> limit == 0x7fff_ffff_ffff_ffff && start == 0 && buffer@[0] != MINUS
                && body == buffer@,
        decreases len - i,
    {
        let b: u8 = buffer[i];
        let ghost next = body.take(i - start + 1);
        proof {
            assert(next.drop_last() =~= body.take(i - start));
            assert(next.last() == b);
        }
        if b < ZERO || b > NINE {
            proof {
                assert(!is_digit(body[i - start]));
            }
            return Err(ParseError::InvalidNumber);
        }
        let d: u64 = (b - ZERO) as u64;
        if acc > (limit - d) / 10 {
            proof {
                assert(acc * 10 + d > limit);
                assert(digits_value(next) == acc * 10 + d);
                lemma_digits_value_monotonic(body, i - start + 1);
                assert(digits_value(body) > limit);
            }
            return Err(ParseError::InvalidNumber);
        }
        acc = acc * 10 + d;
        i = i + 1;
        proof {
            assert forall|j: int| 0 <= j < next.len() implies is_digit(#[trigger] next[j]) by {
                if j < next.len() - 1 {
                    assert(next[j] == body.take(i - start - 1)[j]);
                }
            }
        }
    }
    proof {
        assert(body.take(len - start) =~= body);
    }
    if negative {
        if acc == 0x8000_0000_0000_0000 {
            Ok(i64::MIN)
        } else {
            Ok(-(acc as i64))
        }
    } else {
        Ok(acc as i64)
    }
}

/// Appends the decimal digits of `n` to `out`.
pub fn push_digits(out: &mut Vec<u8>, n: u64)
    ensures
        final(out)@ == old(out)@ + digits(n as nat),
    decreases n,
{
    if n < 10 {
        out.push(ZERO + n as u8);
        proof {
            assert(final(out)@ =~= old(out)@ + digits(n as nat));
        }
    } else {
        push_digits(out, n / 10);
        out.push(ZERO + (n % 10) as u8);
        proof {
            assert(out@ =~= old(out)@ + digits(n as nat));
        }
    }
}

/// Appends the decimal text of `n` to `out`.
pub fn push_decimal(out: &mut Vec<u8>, n: i64)
    ensures
        final(out)@ == old(out)@ + decimal(n as int),
{
    if n < 0 {
        out.push(MINUS);
        let magnitude: u64 = if n == i64::MIN { 0x8000_0000_0000_0000 } else { (-n) as u64 };
        push_digits(out, magnitude);
        proof {
            assert(out@ =~= old(out)@ + decimal(n as int));
        }
    } else {
        push_digits(out, n as u64);
    }
}

} // verus!
