//! Decimal integer text, read the way Rust's integer `from_str` reads it:
//! an optional `+` (or `-` for signed types) followed by one or more ASCII
//! digits, nothing else.
use vstd::prelude::*;

verus! {

pub open spec fn is_digit(c: char) -> bool {
    '0' <= c <= '9'
}

pub open spec fn all_digits(d: Seq<char>) -> bool {
    forall|i: int| 0 <= i < d.len() ==> #[trigger] is_digit(d[i])
}

/// The number that the digits `d` denote in base ten.
pub open spec fn digits_value(d: Seq<char>) -> int
    decreases d.len(),
{
    if d.len() == 0 {
        0
    } else {
        digits_value(d.drop_last()) * 10 + (d.last() as int - '0' as int)
    }
}

/// The value of a non-empty run of digits.
pub open spec fn unsigned_value(d: Seq<char>) -> Option<int> {
    if d.len() > 0 && all_digits(d) {
        Some(digits_value(d))
    } else {
        None
    }
}

/// The integer that `t` denotes, if it is well-formed decimal text; a `-`
/// sign is accepted only when `signed`.
pub open spec fn decimal_value(t: Seq<char>, signed: bool) -> Option<int> {
    if t.len() > 0 && t[0] == '+' {
        unsigned_value(t.drop_first())
    } else if signed && t.len() > 0 && t[0] == '-' {
        match unsigned_value(t.drop_first()) {
            Some(v) => Some(-v),
            None => None,
        }
    } else {
        unsigned_value(t)
    }
}

/// `v`, negated when `negative`.
pub open spec fn with_sign(v: Option<int>, negative: bool) -> Option<int> {
    match v {
        Some(x) => Some(if negative { -x } else { x }),
        None => None,
    }
}

/// Why decimal text was not read as an integer.
#[derive(Clone, Copy, Debug, PartialEq, Eq)]
pub enum DecimalError {
    /// The text is not decimal integer text.
    Malformed,
    /// The text is well-formed, but its magnitude exceeds `u64::MAX`.
    TooLarge,
}

/// Reads decimal integer text; a leading `-` only when `signed`.
pub fn parse_decimal(t: &[char], signed: bool) -> (r: Result<i128, DecimalError>)
    ensures
        match r {
            Ok(v) => decimal_value(t@, signed) == Some(v as int) && -(u64::MAX as int) <= v
                <= u64::MAX,
            Err(DecimalError::Malformed) => decimal_value(t@, signed) is None,
            Err(DecimalError::TooLarge) => (decimal_value(t@, signed) matches Some(v) && (v
                > u64::MAX || v < -(u64::MAX as int))),
        },
{
    let n = t.len();
    let mut start: usize = 0;
    let mut negative = false;
    if n > 0 && t[0] == '+' {
        start = 1;
    } else if signed && n > 0 && t[0] == '-' {
        start = 1;
        negative = true;
    }
    let ghost d = t@.subrange(start as int, n as int);
    assert(start == 1 ==> d =~= t@.drop_first());
    assert(start == 0 ==> d =~= t@);
    assert(decimal_value(t@, signed) == with_sign(unsigned_value(d), negative));
    if start == n {
        return Err(DecimalError::Malformed);
    }
    let mut acc: u64 = 0;
    let mut big = false;
    let mut i: usize = start;
    while i < n
        invariant
            start <= i <= n == t@.len(),
            d == t@.subrange(start as int, n as int),
            decimal_value(t@, signed) == with_sign(unsigned_value(d), negative),
            d.len() > 0,
            all_digits(t@.subrange(start as int, i as int)),
            digits_value(t@.subrange(start as int, i as int)) >= 0,
            big ==> digits_value(t@.subrange(start as int, i as int)) > u64::MAX,
            !big ==> digits_value(t@.subrange(start as int, i as int)) == acc,
        decreases n - i,
    {
        let c = t[i];
        if !('0' <= c && c <= '9') {
            assert(d[i - start] == t@[i as int]);
            assert(!is_digit(d[i - start]));
            return Err(DecimalError::Malformed);
        }
        let digit = (c as u32 - '0' as u32) as u64;
        assert(t@.subrange(start as int, i + 1).drop_last() =~= t@.subrange(start as int, i as int));
        if !big {
            match acc.checked_mul(10) {
                Some(m) => match m.checked_add(digit) {
                    Some(a) => {
                        acc = a;
                    },
                    None => {
                        big = true;
                    },
                },
                None => {
                    big = true;
                },
            }
        }
        i = i + 1;
    }
    assert(t@.subrange(start as int, n as int) == d);
    if big {
        return Err(DecimalError::TooLarge);
    }
    if negative {
        Ok(-(acc as i128))
    } else {
        Ok(acc as i128)
    }
}

} // verus!
