//! The text that Rust's `f64::from_str` accepts, as its documentation gives
//! the grammar (letters compared without case):
//! `Sign? ('inf' | 'infinity' | 'nan' | Number)`, where
//! `Number ::= (Digit+ | Digit+ '.' Digit* | Digit* '.' Digit+) Exp?` and
//! `Exp ::= 'e' Sign? Digit+`.
use vstd::prelude::*;
use crate::number::{all_digits, is_digit};

verus! {

pub open spec fn is_exp_mark(c: char) -> bool {
    c == 'e' || c == 'E'
}

/// `c` is the lower-case letter `w`, in either case.
pub open spec fn same_letter(c: char, w: char) -> bool {
    c == w || ('A' <= c <= 'Z' && c as u32 + 32 == w as u32)
}

/// `u` spells the lower-case word `w`, letters in either case.
pub open spec fn is_word_ci(u: Seq<char>, w: Seq<char>) -> bool {
    u.len() == w.len() && forall|i: int| 0 <= i < u.len() ==> #[trigger] same_letter(u[i], w[i])
}

/// `t` without one leading sign.
pub open spec fn unsigned_part(t: Seq<char>) -> Seq<char> {
    if t.len() > 0 && (t[0] == '+' || t[0] == '-') {
        t.drop_first()
    } else {
        t
    }
}

pub open spec fn exponent_ok(x: Seq<char>) -> bool {
    unsigned_part(x).len() > 0 && all_digits(unsigned_part(x))
}

/// Digits with at most one `.` among them, and at least one digit.
pub open spec fn mantissa_ok(m: Seq<char>) -> bool {
    (m.len() > 0 && all_digits(m)) || exists|d: int|
        0 <= d < m.len() && #[trigger] m[d] == '.' && m.len() > 1 && all_digits(m.take(d))
            && all_digits(m.skip(d + 1))
}

/// `i` is the index of the first exponent mark of `u`, or its length.
pub open spec fn first_exp_at(u: Seq<char>, i: int) -> bool {
    &&& 0 <= i <= u.len()
    &&& forall|j: int| 0 <= j < i ==> !is_exp_mark(#[trigger] u[j])
    &&& (i == u.len() || is_exp_mark(u[i]))
}

pub open spec fn number_ok(u: Seq<char>) -> bool {
    exists|i: int|
        #[trigger] first_exp_at(u, i) && mantissa_ok(u.take(i)) && (i == u.len() || exponent_ok(
            u.skip(i + 1),
        ))
}

/// Whether `t` is text that reads as a double-precision float.
pub open spec fn float_text(t: Seq<char>) -> bool {
    let u = unsigned_part(t);
    is_word_ci(u, "inf"@) || is_word_ci(u, "infinity"@) || is_word_ci(u, "nan"@) || number_ok(u)
}

/// Whether `t[lo..hi]` is all digits.
fn digits_in(t: &[char], lo: usize, hi: usize) -> (r: bool)
    requires
        lo <= hi <= t@.len(),
    ensures
        r == all_digits(t@.subrange(lo as int, hi as int)),
{
    let mut i: usize = lo;
    while i < hi
        invariant
            lo <= i <= hi <= t@.len(),
            all_digits(t@.subrange(lo as int, i as int)),
        decreases hi - i,
    {
        if !('0' <= t[i] && t[i] <= '9') {
            assert(!is_digit(t@.subrange(lo as int, hi as int)[i - lo]));
            return false;
        }
        i = i + 1;
        assert(forall|j: int|
            0 <= j < i - lo ==> #[trigger] t@.subrange(lo as int, i as int)[j] == t@[lo + j]);
    }
    true
}

/// Whether `t[lo..hi]` spells the lower-case word `w` in either case.
fn word_ci_in(t: &[char], lo: usize, hi: usize, w: &str) -> (r: bool)
    requires
        lo <= hi <= t@.len(),
    ensures
        r == is_word_ci(t@.subrange(lo as int, hi as int), w@),
{
    let n = w.unicode_len();
    if hi - lo != n {
        return false;
    }
    let ghost u = t@.subrange(lo as int, hi as int);
    let mut i: usize = 0;
    while i < n
        invariant
            n == w@.len(),
            lo + n == hi <= t@.len(),
            u == t@.subrange(lo as int, hi as int),
            i <= n,
            forall|j: int| 0 <= j < i ==> #[trigger] same_letter(u[j], w@[j]),
        decreases n - i,
    {
        let c = t[lo + i];
        let l = w.get_char(i);
        assert(u[i as int] == c);
        if !(c == l || ('A' <= c && c <= 'Z' && c as u32 + 32 == l as u32)) {
            assert(!same_letter(u[i as int], w@[i as int]));
            return false;
        }
        i = i + 1;
    }
    true
}

/// Whether `t[lo..hi]` is an exponent's text after its mark.
fn exponent_in(t: &[char], lo: usize, hi: usize) -> (r: bool)
    requires
        lo <= hi <= t@.len(),
    ensures
        r == exponent_ok(t@.subrange(lo as int, hi as int)),
{
    let ghost x = t@.subrange(lo as int, hi as int);
    let start = if lo < hi && (t[lo] == '+' || t[lo] == '-') {
        assert(x.drop_first() =~= t@.subrange(lo + 1, hi as int));
        lo + 1
    } else {
        lo
    };
    start < hi && digits_in(t, start, hi)
}

/// Whether `t[lo..hi]` is a mantissa.
fn mantissa_in(t: &[char], lo: usize, hi: usize) -> (r: bool)
    requires
        lo <= hi <= t@.len(),
    ensures
        r == mantissa_ok(t@.subrange(lo as int, hi as int)),
{
    let ghost m = t@.subrange(lo as int, hi as int);
    let mut d: usize = lo;
    while d < hi && t[d] != '.'
        invariant
            lo <= d <= hi <= t@.len(),
            m == t@.subrange(lo as int, hi as int),
            forall|j: int| 0 <= j < d - lo ==> #[trigger] m[j] != '.',
        decreases hi - d,
    {
        d = d + 1;
    }
    if d == hi {
        return hi > lo && digits_in(t, lo, hi);
    }
    let k = d - lo;
    assert(m[k as int] == '.');
    assert(!is_digit(m[k as int]));
    assert(m.take(k as int) =~= t@.subrange(lo as int, d as int));
    assert(m.skip(k + 1) =~= t@.subrange(d + 1, hi as int));
    let r = hi - lo > 1 && digits_in(t, lo, d) && digits_in(t, d + 1, hi);
    proof {
        if !r {
            assert forall|e: int|
                0 <= e < m.len() && #[trigger] m[e] == '.' && m.len() > 1 && all_digits(m.take(e))
                    implies !all_digits(m.skip(e + 1)) by {
                if e > k {
                    assert(m.take(e)[k as int] == '.');
                    assert(!is_digit(m.take(e)[k as int]));
                }
            }
        }
    }
    r
}

/// Whether `t` is text that reads as a double-precision float.
pub fn is_float_text(t: &[char]) -> (r: bool)
    ensures
        r == float_text(t@),
{
    let n = t.len();
    let start: usize = if n > 0 && (t[0] == '+' || t[0] == '-') {
        1
    } else {
        0
    };
    let ghost u = t@.subrange(start as int, n as int);
    assert(start == 1 ==> u =~= t@.drop_first());
    assert(start == 0 ==> u =~= t@);
    assert(u == unsigned_part(t@));
    if word_ci_in(t, start, n, "inf") || word_ci_in(t, start, n, "infinity") || word_ci_in(
        t,
        start,
        n,
        "nan",
    ) {
        return true;
    }
    let mut i: usize = start;
    while i < n && !(t[i] == 'e' || t[i] == 'E')
        invariant
            start <= i <= n == t@.len(),
            u == t@.subrange(start as int, n as int),
            forall|j: int| 0 <= j < i - start ==> !is_exp_mark(#[trigger] u[j]),
        decreases n - i,
    {
        i = i + 1;
    }
    let k = i - start;
    assert(first_exp_at(u, k as int));
    assert(u.take(k as int) =~= t@.subrange(start as int, i as int));
    let ok = mantissa_in(t, start, i) && (i == n || exponent_in(t, i + 1, n));
    proof {
        if i < n {
            assert(u.skip(k + 1) =~= t@.subrange(i + 1, n as int));
        }
        assert forall|e: int| #[trigger] first_exp_at(u, e) implies e == k by {
            if e < k {
                assert(!is_exp_mark(u[e]));
            }
            if e > k {
                assert(!is_exp_mark(u[k as int]));
            }
        }
    }
    ok
}

} // verus!
