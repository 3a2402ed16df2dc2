//! Decimal text: the way the wire protocol and the snapshot format write
//! integers.

use vstd::prelude::*;

verus! {

/// The byte `+`.
pub const PLUS: u8 = 43;

/// The byte `-`.
pub const MINUS: u8 = 45;

/// The byte `0`.
pub const ZERO: u8 = 48;

/// An ASCII digit.
pub open spec fn is_digit(b: u8) -> bool {
    ZERO <= b <= ZERO + 9
}

/// Every byte of `s` is an ASCII digit.
pub open spec fn all_digits(s: Seq<u8>) -> bool {
    forall|i: int| 0 <= i < s.len() ==> is_digit(#[trigger] s[i])
}

/// The number that a run of digits writes, most significant digit first.
pub open spec fn digits_value(s: Seq<u8>) -> nat
    decreases s.len(),
{
    if s.len() == 0 {
        0
    } else {
        digits_value(s.drop_last()) * 10 + (s.last() - ZERO) as nat
    }
}

/// The integer that `s` writes: an optional sign, then one digit or more.
/// Leading zeros are allowed. `None` where `s` is not of that shape.
pub open spec fn decimal_value(s: Seq<u8>) -> Option<int> {
    if s.len() > 0 && s[0] == MINUS {
        if s.len() > 1 && all_digits(s.skip(1)) {
            Some(-(digits_value(s.skip(1)) as int))
        } else {
            None
        }
    } else if s.len() > 0 && s[0] == PLUS {
        if s.len() > 1 && all_digits(s.skip(1)) {
            Some(digits_value(s.skip(1)) as int)
        } else {
            None
        }
    } else if s.len() > 0 && all_digits(s) {
        Some(digits_value(s) as int)
    } else {
        None
    }
}

/// The digits of `n`, most significant first, without leading zeros.
pub open spec fn digits_of(n: nat) -> Seq<u8>
    decreases n,
{
    if n < 10 {
        seq![(ZERO + n) as u8]
    } else {
        digits_of(n / 10).push((ZERO + n % 10) as u8)
    }
}

/// The canonical decimal text of `v`: a minus sign where it is negative, then
/// its digits.
pub open spec fn decimal(v: int) -> Seq<u8> {
    if v < 0 {
        seq![MINUS] + digits_of((-v) as nat)
    } else {
        digits_of(v as nat)
    }
}

/// The value of `s` as a `u64`: `s` is one digit or more and writes a number
/// that fits.
pub open spec fn spec_parse_digits(s: Seq<u8>) -> Option<u64> {
    if s.len() > 0 && all_digits(s) && digits_value(s) <= u64::MAX {
        Some(digits_value(s) as u64)
    } else {
        None
    }
}

/// The value of `s` as an `i64`: `s` writes an integer, with or without a
/// sign, that fits.
pub open spec fn spec_parse_i64(s: Seq<u8>) -> Option<i64> {
    match decimal_value(s) {
        Some(v) => if i64::MIN <= v <= i64::MAX {
            Some(v as i64)
        } else {
            None
        },
        None => None,
    }
}

/// The value of `s` as a `u64`: `s` writes an integer that fits, with no sign
/// or with a plus sign. A minus sign is refused, also before zero.
pub open spec fn spec_parse_u64(s: Seq<u8>) -> Option<u64> {
    if s.len() > 0 && s[0] == MINUS {
        None
    } else {
        match decimal_value(s) {
            Some(v) => if 0 <= v <= u64::MAX {
                Some(v as u64)
            } else {
                None
            },
            None => None,
        }
    }
}

/// Appending a digit multiplies by ten and adds the digit.
pub proof fn lemma_digits_value_push(s: Seq<u8>, b: u8)
    ensures
        digits_value(s.push(b)) == digits_value(s) * 10 + (b - ZERO) as nat,
{
    assert(s.push(b).drop_last() =~= s);
}

/// The value of a prefix, one digit longer.
pub proof fn lemma_digits_value_step(s: Seq<u8>, i: int)
    requires
        0 <= i < s.len(),
    ensures
        digits_value(s.take(i + 1)) == digits_value(s.take(i)) * 10 + (s[i] - ZERO) as nat,
{
    assert(s.take(i + 1).drop_last() =~= s.take(i));
}

/// A longer prefix of a run of digits writes a number at least as large.
pub proof fn lemma_digits_value_monotone(s: Seq<u8>, i: int, j: int)
    requires
        all_digits(s),
        0 <= i <= j <= s.len(),
    ensures
        digits_value(s.take(i)) <= digits_value(s.take(j)),
    decreases j - i,
{
    if i < j {
        lemma_digits_value_monotone(s, i, j - 1);
        lemma_digits_value_step(s, j - 1);
        assert(is_digit(s[j - 1]));
    }
}

/// The digits of a number are digits, at least one, and write that number.
pub proof fn lemma_digits_of(n: nat)
    ensures
        digits_of(n).len() >= 1,
        all_digits(digits_of(n)),
        digits_value(digits_of(n)) == n,
    decreases n,
{
    if n < 10 {
        let s = seq![(ZERO + n) as u8];
        assert(s.drop_last() =~= Seq::<u8>::empty());
        assert(digits_value(s.drop_last()) == 0);
    } else {
        lemma_digits_of(n / 10);
        lemma_digits_value_push(digits_of(n / 10), (ZERO + n % 10) as u8);
    }
}

/// Reading the canonical text of an integer gives the integer back.
pub proof fn lemma_decimal_value_of_decimal(v: int)
    ensures
        decimal_value(decimal(v)) == Some(v),
        decimal(v).len() >= 1,
{
    if v < 0 {
        let d = digits_of((-v) as nat);
        lemma_digits_of((-v) as nat);
        assert(decimal(v).skip(1) =~= d);
    } else {
        lemma_digits_of(v as nat);
        assert(is_digit(digits_of(v as nat)[0]));
    }
}

/// Reads a run of digits that starts at `from` and ends with the slice.
pub fn parse_digits(text: &[u8], from: usize) -> (r: Option<u64>)
    requires
        from <= text@.len(),
    ensures
        r == spec_parse_digits(text@.skip(from as int)),
{
    let ghost d = text@.skip(from as int);
    let n = text.len();
    if from == n {
        return None;
    }
    let mut acc: u64 = 0;
    let mut i: usize = from;
    while i < n
        invariant
            from <= i <= n,
            n == text@.len(),
            d == text@.skip(from as int),
            all_digits(d.take(i - from)),
            acc == digits_value(d.take(i - from)),
        decreases n - i,
    {
        let b = text[i];
        if b < ZERO || b > ZERO + 9 {
            assert(!is_digit(d[i - from]));
            return None;
        }
        let digit: u64 = (b - ZERO) as u64;
        proof {
            lemma_digits_value_step(d, i - from);
            assert forall|k: int| 0 <= k < i - from + 1 implies is_digit(
                #[trigger] d.take(i - from + 1)[k],
            ) by {
                if k < i - from {
                    assert(d.take(i - from + 1)[k] == d.take(i - from)[k]);
                }
            }
        }
        if acc > (u64::MAX - digit) / 10 {
            proof {
                if all_digits(d) {
                    lemma_digits_value_monotone(d, i - from + 1, d.len() as int);
                    assert(d.take(d.len() as int) =~= d);
                }
            }
            return None;
        }
        acc = acc * 10 + digit;
        i = i + 1;
    }
    proof {
        assert(d.take(n - from) =~= d);
    }
    Some(acc)
}

/// Reads a signed integer: what `str::parse::<i64>` accepts of ASCII text.
pub fn parse_i64(text: &[u8]) -> (r: Option<i64>)
    ensures
        r == spec_parse_i64(text@),
{
    let n = text.len();
    if n == 0 {
        return None;
    }
    let first = text[0];
    if first == MINUS {
        match parse_digits(text, 1) {
            Some(m) => {
                if m <= 0x7fff_ffff_ffff_ffff {
                    Some(-(m as i64))
                } else if m == 0x8000_0000_0000_0000 {
                    Some(i64::MIN)
                } else {
                    None
                }
            },
            None => None,
        }
    } else if first == PLUS {
        match parse_digits(text, 1) {
            Some(m) => {
                if m <= 0x7fff_ffff_ffff_ffff {
                    Some(m as i64)
                } else {
                    None
                }
            },
            None => None,
        }
    } else {
        proof {
            assert(text@.skip(0) =~= text@);
        }
        match parse_digits(text, 0) {
            Some(m) => {
                if m <= 0x7fff_ffff_ffff_ffff {
                    Some(m as i64)
                } else {
                    None
                }
            },
            None => None,
        }
    }
}

/// Reads an unsigned integer: what `str::parse::<u64>` accepts of ASCII text.
pub fn parse_u64(text: &[u8]) -> (r: Option<u64>)
    ensures
        r == spec_parse_u64(text@),
{
    let n = text.len();
    if n == 0 {
        return None;
    }
    let first = text[0];
    if first == MINUS {
        None
    } else if first == PLUS {
        parse_digits(text, 1)
    } else {
        proof {
            assert(text@.skip(0) =~= text@);
        }
        parse_digits(text, 0)
    }
}

/// Appends the digits of `n` to `buf`.
pub fn write_digits(buf: &mut Vec<u8>, n: u64)
    ensures
        final(buf)@ == old(buf)@ + digits_of(n as nat),
    decreases n,
{
    if n >= 10 {
        write_digits(buf, n / 10);
    }
    buf.push(ZERO + (n % 10) as u8);
    proof {
        if n < 10 {
            assert(final(buf)@ =~= old(buf)@ + digits_of(n as nat));
        } else {
            assert(final(buf)@ =~= old(buf)@ + digits_of(n as nat));
        }
    }
}

/// Appends the canonical decimal text of `v` to `buf`.
pub fn write_decimal(buf: &mut Vec<u8>, v: i64)
    ensures
        final(buf)@ == old(buf)@ + decimal(v as int),
{
    if v < 0 {
        buf.push(MINUS);
        let m: i128 = -(v as i128);
        write_digits(buf, m as u64);
        proof {
            assert(final(buf)@ =~= old(buf)@ + decimal(v as int));
        }
    } else {
        write_digits(buf, v as u64);
    }
}

} // verus!
