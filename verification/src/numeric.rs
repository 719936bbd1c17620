use vstd::prelude::*;
use crate::text::{eq_ignore_case, eq_ignore_case_seq, tail_from};

verus! {

pub open spec fn is_digit(c: char) -> bool {
    48 <= c as u32 && c as u32 <= 57
}

/// One or more decimal digits.
pub open spec fn is_count(s: Seq<char>) -> bool {
    s.len() >= 1 && (forall|i: int| 0 <= i < s.len() ==> is_digit(s[i]))
}

/// The sequence with one leading sign character removed, if present.
pub open spec fn strip_sign(s: Seq<char>) -> Seq<char> {
    if s.len() >= 1 && (s[0] == '+' || s[0] == '-') {
        s.drop_first()
    } else {
        s
    }
}

/// The mantissa of a decimal literal: digits, optionally with one point,
/// and at least one character besides the point.
pub open spec fn is_mantissa(s: Seq<char>) -> bool {
    is_count(s) || (s.len() >= 2 && exists|i: int|
        0 <= i < s.len() && #[trigger] s[i] == '.' && (forall|j: int|
            0 <= j < s.len() && j != i ==> is_digit(s[j])))
}

/// A mantissa optionally followed by an exponent marker and a signed count.
pub open spec fn is_number(s: Seq<char>) -> bool {
    is_mantissa(s) || (exists|i: int|
        0 <= i < s.len() && (#[trigger] s[i] == 'e' || s[i] == 'E') && is_mantissa(s.take(i))
            && is_count(strip_sign(s.skip(i + 1))))
}

/// The strings the standard library's 64-bit floating-point parser accepts,
/// as its documentation lays them out: an optional sign, then one of the
/// case-insensitive words `inf`, `infinity` and `nan`, or a number.
pub open spec fn is_float_literal(s: Seq<char>) -> bool {
    let t = strip_sign(s);
    eq_ignore_case_seq(t, "inf"@) || eq_ignore_case_seq(t, "infinity"@) || eq_ignore_case_seq(
        t,
        "nan"@,
    ) || is_number(t)
}

/// A sequence holding a character that is neither a digit nor a point is no
/// mantissa.
proof fn lemma_mantissa_all_digit_or_dot(s: Seq<char>, k: int)
    requires
        0 <= k < s.len(),
        !is_digit(s[k]),
        s[k] != '.',
    ensures
        !is_mantissa(s),
{
    if is_mantissa(s) {
        if is_count(s) {
            assert(is_digit(s[k]));
        } else {
            let i = choose|i: int|
                0 <= i < s.len() && #[trigger] s[i] == '.' && (forall|j: int|
                    0 <= j < s.len() && j != i ==> is_digit(s[j]));
            assert(i != k);
            assert(is_digit(s[k]));
        }
    }
}

/// Whether the first `hi` characters form a mantissa.
fn is_mantissa_prefix(v: &Vec<char>, hi: usize) -> (r: bool)
    requires
        hi <= v@.len(),
    ensures
        r == is_mantissa(v@.take(hi as int)),
{
    let ghost s = v@.take(hi as int);
    let mut n_dots: usize = 0;
    let mut first_dot: usize = 0;
    let mut second_dot: usize = 0;
    let mut has_bad: bool = false;
    let mut bad_idx: usize = 0;
    let mut i: usize = 0;
    while i < hi
        invariant
            hi <= v@.len(),
            s == v@.take(hi as int),
            i <= hi,
            n_dots <= i,
            !has_bad ==> (forall|j: int| 0 <= j < i ==> is_digit(s[j]) || s[j] == '.'),
            has_bad ==> bad_idx < i && !is_digit(s[bad_idx as int]) && s[bad_idx as int] != '.',
            n_dots == 0 ==> (forall|j: int| 0 <= j < i ==> s[j] != '.'),
            n_dots == 1 ==> first_dot < i && s[first_dot as int] == '.' && (forall|j: int|
                0 <= j < i && j != first_dot ==> s[j] != '.'),
            n_dots >= 2 ==> first_dot < second_dot < i && s[first_dot as int] == '.'
                && s[second_dot as int] == '.',
        decreases hi - i,
    {
        let c = v[i];
        proof {
            assert(s[i as int] == v@[i as int]);
        }
        let code = c as u32;
        if 48 <= code && code <= 57 {
            // a digit
        } else if c == '.' {
            if n_dots == 0 {
                first_dot = i;
            } else if n_dots == 1 {
                second_dot = i;
            }
            if n_dots < 2 {
                n_dots = n_dots + 1;
            }
        } else {
            if !has_bad {
                has_bad = true;
                bad_idx = i;
            }
        }
        i = i + 1;
    }
    if has_bad {
        proof {
            lemma_mantissa_all_digit_or_dot(s, bad_idx as int);
        }
        false
    } else if n_dots == 0 {
        proof {
            if hi >= 1 {
                assert(is_count(s));
            }
            if is_mantissa(s) && hi == 0 {
                assert(false);
            }
        }
        hi >= 1
    } else if n_dots == 1 {
        proof {
            if hi >= 2 {
                assert(forall|j: int| 0 <= j < s.len() && j != first_dot ==> is_digit(s[j]));
                assert(is_mantissa(s));
            } else {
                assert(s.len() == 1);
                assert(!is_count(s));
            }
        }
        hi >= 2
    } else {
        proof {
            assert(!is_digit(s[first_dot as int]));
            assert(!is_count(s));
            assert forall|i0: int|
                !(0 <= i0 < s.len() && #[trigger] s[i0] == '.' && (forall|j: int|
                    0 <= j < s.len() && j != i0 ==> is_digit(s[j]))) by {
                if 0 <= i0 < s.len() && s[i0] == '.' {
                    if i0 != first_dot {
                        assert(!is_digit(s[first_dot as int]));
                    } else {
                        assert(!is_digit(s[second_dot as int]));
                    }
                }
            }
        }
        false
    }
}

/// Whether the characters from `k` on, less one optional sign, form a count.
fn is_signed_count_from(v: &Vec<char>, k: usize) -> (r: bool)
    requires
        k <= v@.len(),
    ensures
        r == is_count(strip_sign(v@.skip(k as int))),
{
    let ghost s0 = v@.skip(k as int);
    let mut p: usize = k;
    if p < v.len() && (v[p] == '+' || v[p] == '-') {
        proof {
            assert(s0[0] == v@[k as int]);
            assert(s0.drop_first() =~= v@.skip(k as int + 1));
        }
        p = p + 1;
    }
    let ghost t = v@.skip(p as int);
    proof {
        assert(strip_sign(s0) == t);
    }
    if p >= v.len() {
        proof {
            assert(t.len() == 0);
        }
        return false;
    }
    let mut i: usize = p;
    while i < v.len()
        invariant
            p <= i <= v@.len(),
            t == v@.skip(p as int),
            t == strip_sign(v@.skip(k as int)),
            forall|j: int| 0 <= j < i - p ==> is_digit(t[j]),
        decreases v@.len() - i,
    {
        let code = v[i] as u32;
        proof {
            assert(t[i - p] == v@[i as int]);
        }
        if !(48 <= code && code <= 57) {
            proof {
                assert(!is_digit(t[i - p]));
            }
            return false;
        }
        i = i + 1;
    }
    proof {
        assert(t.len() >= 1);
        assert(is_count(t));
    }
    true
}

/// Whether the characters form a number: a mantissa with an optional
/// exponent part.
fn is_number_chars(t: &Vec<char>) -> (r: bool)
    ensures
        r == is_number(t@),
{
    let n = t.len();
    let mut e: usize = 0;
    let mut found = false;
    let mut i: usize = 0;
    while i < n && !found
        invariant
            n == t@.len(),
            i <= n,
            !found ==> (forall|j: int| 0 <= j < i ==> t@[j] != 'e' && t@[j] != 'E'),
            found ==> e < i && (t@[e as int] == 'e' || t@[e as int] == 'E') && (forall|j: int|
                0 <= j < e ==> t@[j] != 'e' && t@[j] != 'E'),
        decreases n - i,
    {
        let c = t[i];
        if c == 'e' || c == 'E' {
            found = true;
            e = i;
        }
        i = i + 1;
    }
    if found {
        let m = is_mantissa_prefix(t, e);
        let x = is_signed_count_from(t, e + 1);
        proof {
            if m && x {
                assert(is_number(t@));
            } else {
                lemma_mantissa_all_digit_or_dot(t@, e as int);
                assert forall|i0: int|
                    !(0 <= i0 < t@.len() && (#[trigger] t@[i0] == 'e' || t@[i0] == 'E')
                        && is_mantissa(t@.take(i0)) && is_count(strip_sign(t@.skip(i0 + 1)))) by {
                    if 0 <= i0 < t@.len() && (t@[i0] == 'e' || t@[i0] == 'E') {
                        if i0 > e {
                            assert(t@.take(i0)[e as int] == t@[e as int]);
                            lemma_mantissa_all_digit_or_dot(t@.take(i0), e as int);
                        } else if i0 == e {
                            assert(!(m && x));
                        }
                    }
                }
                assert(!is_number(t@));
            }
        }
        m && x
    } else {
        let m = is_mantissa_prefix(t, n);
        proof {
            assert(t@.take(n as int) =~= t@);
            if !m {
                assert forall|i0: int|
                    !(0 <= i0 < t@.len() && (#[trigger] t@[i0] == 'e' || t@[i0] == 'E')
                        && is_mantissa(t@.take(i0)) && is_count(strip_sign(t@.skip(i0 + 1)))) by {}
                assert(!is_number(t@));
            }
        }
        m
    }
}

/// Whether the characters are a floating-point literal that the standard
/// parser accepts.
pub fn is_valid_numeric(s: &Vec<char>) -> (r: bool)
    ensures
        r == is_float_literal(s@),
{
    let start: usize = if s.len() >= 1 && (s[0] == '+' || s[0] == '-') {
        1
    } else {
        0
    };
    let t = tail_from(s, start);
    proof {
        if start == 1 {
            assert(s@.drop_first() =~= s@.skip(1));
        } else {
            assert(s@.skip(0) =~= s@);
        }
        assert(t@ == strip_sign(s@));
    }
    if eq_ignore_case(&t, "inf") || eq_ignore_case(&t, "infinity") || eq_ignore_case(&t, "nan") {
        return true;
    }
    is_number_chars(&t)
}

} // verus!
