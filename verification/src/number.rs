//! Recognizer for the token shapes that read as a signed decimal number.
//!
//! A token starting with `-` is treated as a value, not as an option name,
//! exactly when the whole token parses as a decimal floating-point literal:
//! an optional sign followed by `inf`, `infinity` or `nan` in any case, or by
//! a digit string with at most one `.`, optionally followed by an exponent
//! part `e`/`E`, an optional sign and one or more digits.  The spec functions
//! below state that grammar over character sequences and the exec functions
//! decide it.

use vstd::prelude::*;
use vstd::string::StrSliceExecFns;

verus! {

/// A decimal digit `0`..=`9`, by code point.
pub open spec fn is_digit(c: char) -> bool {
    48 <= c as u32 && c as u32 <= 57
}

/// `a` matches the lowercase letter `b`, ignoring case.  Only the letters of
/// `inf`, `infinity` and `nan` are ever used as `b`.
pub open spec fn matches_ci(a: char, b: char) -> bool {
    ||| a == b
    ||| (b == 'i' && a == 'I')
    ||| (b == 'n' && a == 'N')
    ||| (b == 'f' && a == 'F')
    ||| (b == 'a' && a == 'A')
    ||| (b == 't' && a == 'T')
    ||| (b == 'y' && a == 'Y')
}

/// The special spellings `inf`, `infinity` and `nan`, in any case.
pub open spec fn is_special(s: Seq<char>) -> bool {
    ||| (s.len() == 3 && matches_ci(s[0], 'i') && matches_ci(s[1], 'n') && matches_ci(s[2], 'f'))
    ||| (s.len() == 8 && matches_ci(s[0], 'i') && matches_ci(s[1], 'n') && matches_ci(s[2], 'f')
        && matches_ci(s[3], 'i') && matches_ci(s[4], 'n') && matches_ci(s[5], 'i')
        && matches_ci(s[6], 't') && matches_ci(s[7], 'y'))
    ||| (s.len() == 3 && matches_ci(s[0], 'n') && matches_ci(s[1], 'a') && matches_ci(s[2], 'n'))
}

/// A mantissa: digits with at most one `.` among them and at least one digit,
/// i.e. the shapes `123`, `123.`, `.123` and `12.3`.
pub open spec fn is_mantissa(s: Seq<char>) -> bool {
    &&& (forall|i: int| 0 <= i < s.len() ==> is_digit(#[trigger] s[i]) || s[i] == '.')
    &&& (exists|i: int| 0 <= i < s.len() && is_digit(#[trigger] s[i]))
    &&& (forall|i: int, j: int|
        0 <= i < j < s.len() ==> !(#[trigger] s[i] == '.' && #[trigger] s[j] == '.'))
}

/// Every character of `s` is a decimal digit.
pub open spec fn all_digits(s: Seq<char>) -> bool {
    forall|i: int| 0 <= i < s.len() ==> is_digit(#[trigger] s[i])
}

/// An exponent part, after the `e`/`E`: an optional sign, then one or more
/// digits.
pub open spec fn is_exponent(s: Seq<char>) -> bool {
    if s.len() >= 1 && (s[0] == '+' || s[0] == '-') {
        s.len() >= 2 && all_digits(s.skip(1))
    } else {
        s.len() >= 1 && all_digits(s)
    }
}

/// A number: a mantissa, optionally followed by `e`/`E` and an exponent part.
pub open spec fn is_number(s: Seq<char>) -> bool {
    ||| is_mantissa(s)
    ||| exists|i: int|
        0 <= i < s.len() && (#[trigger] s[i] == 'e' || s[i] == 'E') && is_mantissa(s.take(i))
            && is_exponent(s.skip(i + 1))
}

/// The whole token reads as a signed decimal number literal: an optional
/// leading sign, then a special spelling or a number.
pub open spec fn parses_as_number(s: Seq<char>) -> bool {
    let body = if s.len() >= 1 && (s[0] == '+' || s[0] == '-') {
        s.skip(1)
    } else {
        s
    };
    is_special(body) || is_number(body)
}

/// The characters of `s`, as a vector that can be indexed in place.
pub fn chars_of(s: &str) -> (v: Vec<char>)
    ensures
        v@ == s@,
{
    let n = s.unicode_len();
    let mut v: Vec<char> = Vec::new();
    for i in 0..n
        invariant
            n == s@.len(),
            v@ == s@.take(i as int),
    {
        v.push(s.get_char(i));
        proof {
            assert(v@ =~= s@.take(i + 1));
        }
    }
    proof {
        assert(v@ =~= s@);
    }
    v
}

fn digit_char(c: char) -> (r: bool)
    ensures
        r == is_digit(c),
{
    let x = c as u32;
    48 <= x && x <= 57
}

fn ci_char(a: char, b: char) -> (r: bool)
    ensures
        r == matches_ci(a, b),
{
    a == b || (b == 'i' && a == 'I') || (b == 'n' && a == 'N') || (b == 'f' && a == 'F') || (b
        == 'a' && a == 'A') || (b == 't' && a == 'T') || (b == 'y' && a == 'Y')
}

fn special_from(v: &Vec<char>, start: usize) -> (r: bool)
    requires
        start <= v@.len(),
    ensures
        r == is_special(v@.skip(start as int)),
{
    let ghost s = v@.skip(start as int);
    let n = v.len();
    let m = n - start;
    if m == 3 {
        let inf = ci_char(v[start], 'i') && ci_char(v[start + 1], 'n') && ci_char(v[start + 2], 'f');
        let nan = ci_char(v[start], 'n') && ci_char(v[start + 1], 'a') && ci_char(v[start + 2], 'n');
        proof {
            assert(s[0] == v@[start as int]);
            assert(s[1] == v@[start + 1]);
            assert(s[2] == v@[start + 2]);
        }
        inf || nan
    } else if m == 8 {
        let r = ci_char(v[start], 'i') && ci_char(v[start + 1], 'n') && ci_char(v[start + 2], 'f')
            && ci_char(v[start + 3], 'i') && ci_char(v[start + 4], 'n') && ci_char(
            v[start + 5],
            'i',
        ) && ci_char(v[start + 6], 't') && ci_char(v[start + 7], 'y');
        proof {
            assert forall|i: int| 0 <= i < 8 implies s[i] == v@[start + i] by {}
        }
        r
    } else {
        false
    }
}

fn mantissa_range(v: &Vec<char>, lo: usize, hi: usize) -> (r: bool)
    requires
        lo <= hi <= v@.len(),
    ensures
        r == is_mantissa(v@.subrange(lo as int, hi as int)),
{
    let ghost s = v@.subrange(lo as int, hi as int);
    let mut seen_digit = false;
    let mut seen_dot = false;
    let mut k = lo;
    while k < hi
        invariant
            lo <= k <= hi <= v@.len(),
            s == v@.subrange(lo as int, hi as int),
            seen_digit <==> exists|t: int| lo <= t < k && is_digit(#[trigger] v@[t]),
            seen_dot <==> exists|t: int| lo <= t < k && #[trigger] v@[t] == '.',
            forall|t: int| lo <= t < k ==> is_digit(#[trigger] v@[t]) || v@[t] == '.',
            forall|t1: int, t2: int|
                lo <= t1 < t2 < k ==> !(#[trigger] v@[t1] == '.' && #[trigger] v@[t2] == '.'),
        decreases hi - k,
    {
        let c = v[k];
        if digit_char(c) {
            seen_digit = true;
        } else if c == '.' {
            if seen_dot {
                proof {
                    let t = choose|t: int| lo <= t < k && #[trigger] v@[t] == '.';
                    assert(s[t - lo] == '.');
                    assert(s[k - lo] == '.');
                    assert(!is_mantissa(s));
                }
                return false;
            }
            seen_dot = true;
        } else {
            proof {
                assert(s[k - lo] == v@[k as int]);
                assert(!is_mantissa(s));
            }
            return false;
        }
        k = k + 1;
    }
    proof {
        if seen_digit {
            let t = choose|t: int| lo <= t < hi && is_digit(#[trigger] v@[t]);
            assert(is_digit(s[t - lo]));
            assert forall|i: int| 0 <= i < s.len() implies is_digit(#[trigger] s[i]) || s[i]
                == '.' by {
                assert(s[i] == v@[lo + i]);
            }
            assert forall|i: int, j: int| 0 <= i < j < s.len() implies !(#[trigger] s[i] == '.'
                && #[trigger] s[j] == '.') by {
                assert(s[i] == v@[lo + i]);
                assert(s[j] == v@[lo + j]);
            }
            assert(is_mantissa(s));
        } else {
            if is_mantissa(s) {
                let i = choose|i: int| 0 <= i < s.len() && is_digit(#[trigger] s[i]);
                assert(is_digit(v@[lo + i]));
                assert(false);
            }
        }
    }
    seen_digit
}

fn exponent_range(v: &Vec<char>, lo: usize, hi: usize) -> (r: bool)
    requires
        lo <= hi <= v@.len(),
    ensures
        r == is_exponent(v@.subrange(lo as int, hi as int)),
{
    let ghost s = v@.subrange(lo as int, hi as int);
    let l = if lo < hi && (v[lo] == '+' || v[lo] == '-') {
        lo + 1
    } else {
        lo
    };
    let ghost body = if s.len() >= 1 && (s[0] == '+' || s[0] == '-') {
        s.skip(1)
    } else {
        s
    };
    proof {
        assert(body =~= v@.subrange(l as int, hi as int));
    }
    if l == hi {
        return false;
    }
    let mut k = l;
    while k < hi
        invariant
            lo <= l <= k <= hi <= v@.len(),
            s == v@.subrange(lo as int, hi as int),
            body == v@.subrange(l as int, hi as int),
            body == (if s.len() >= 1 && (s[0] == '+' || s[0] == '-') {
                s.skip(1)
            } else {
                s
            }),
            forall|t: int| l <= t < k ==> is_digit(#[trigger] v@[t]),
        decreases hi - k,
    {
        if !digit_char(v[k]) {
            proof {
                assert(body[k - l] == v@[k as int]);
                assert(!all_digits(body));
                assert(!is_exponent(s));
            }
            return false;
        }
        k = k + 1;
    }
    proof {
        assert forall|i: int| 0 <= i < body.len() implies is_digit(#[trigger] body[i]) by {
            assert(body[i] == v@[l + i]);
        }
        assert(all_digits(body));
        assert(is_exponent(s));
    }
    true
}

/// The index of the first `e`/`E` at or after `start`, or the length when
/// there is none.
fn find_exp(v: &Vec<char>, start: usize) -> (r: usize)
    requires
        start <= v@.len(),
    ensures
        start <= r <= v@.len(),
        forall|t: int| start <= t < r ==> !(#[trigger] v@[t] == 'e' || v@[t] == 'E'),
        r < v@.len() ==> (v@[r as int] == 'e' || v@[r as int] == 'E'),
{
    let n = v.len();
    let mut p = start;
    while p < n
        invariant
            start <= p <= n == v@.len(),
            forall|t: int| start <= t < p ==> !(#[trigger] v@[t] == 'e' || v@[t] == 'E'),
        decreases n - p,
    {
        let c = v[p];
        if c == 'e' || c == 'E' {
            return p;
        }
        p = p + 1;
    }
    n
}

fn number_from(v: &Vec<char>, start: usize) -> (r: bool)
    requires
        start <= v@.len(),
    ensures
        r == is_number(v@.skip(start as int)),
{
    let ghost body = v@.skip(start as int);
    let n = v.len();
    let p = find_exp(v, start);
    if p == n {
        let b = mantissa_range(v, start, n);
        proof {
            assert(body =~= v@.subrange(start as int, n as int));
            if !b && is_number(body) {
                let i = choose|i: int|
                    0 <= i < body.len() && (#[trigger] body[i] == 'e' || body[i] == 'E')
                        && is_mantissa(body.take(i)) && is_exponent(body.skip(i + 1));
                assert(body[i] == v@[start + i]);
                assert(false);
            }
        }
        b
    } else {
        let mb = mantissa_range(v, start, p);
        let eb = exponent_range(v, p + 1, n);
        let ghost pi = p - start;
        proof {
            assert(body[pi] == v@[p as int]);
            assert(body.take(pi) =~= v@.subrange(start as int, p as int));
            assert(body.skip(pi + 1) =~= v@.subrange(p + 1, n as int));
        }
        if mb && eb {
            proof {
                assert(0 <= pi < body.len() && (body[pi] == 'e' || body[pi] == 'E') && is_mantissa(
                    body.take(pi),
                ) && is_exponent(body.skip(pi + 1)));
            }
            true
        } else {
            proof {
                assert(!(is_digit(body[pi]) || body[pi] == '.'));
                assert(!is_mantissa(body));
                if is_number(body) {
                    let i = choose|i: int|
                        0 <= i < body.len() && (#[trigger] body[i] == 'e' || body[i] == 'E')
                            && is_mantissa(body.take(i)) && is_exponent(body.skip(i + 1));
                    if i < pi {
                        assert(body[i] == v@[start + i]);
                        assert(false);
                    } else if i > pi {
                        assert(body.take(i)[pi] == body[pi]);
                        assert(!is_mantissa(body.take(i)));
                        assert(false);
                    } else {
                        assert(false);
                    }
                }
            }
            false
        }
    }
}

/// Decides whether the whole token reads as a signed decimal number literal,
/// the probe that separates option names from negative-number values.
pub fn parse_probe(s: &str) -> (r: bool)
    ensures
        r == parses_as_number(s@),
{
    let v = chars_of(s);
    let n = v.len();
    let start: usize = if n >= 1 && (v[0] == '+' || v[0] == '-') {
        1
    } else {
        0
    };
    proof {
        if start == 0 {
            assert(v@.skip(0) =~= s@);
        }
    }
    if special_from(&v, start) {
        true
    } else {
        number_from(&v, start)
    }
}

} // verus!
