//! The grammar of floating-point literals.  Coefficient fields are kept as
//! text; a field is accepted exactly when it matches this grammar (an
//! optional sign, then `inf`, `infinity` or `nan` in any case, or a decimal
//! number with an optional exponent).

use vstd::prelude::*;

verus! {

pub open spec fn is_digit(c: char) -> bool {
    '0' <= c && c <= '9'
}

pub open spec fn all_digits(s: Seq<char>) -> bool {
    forall|i: int| 0 <= i < s.len() ==> is_digit(#[trigger] s[i])
}

/// An upper-case ASCII letter folded to lower case.
pub open spec fn lower(c: char) -> char {
    if 'A' <= c && c <= 'Z' {
        ((c as u8) + 32) as char
    } else {
        c
    }
}

/// `inf`, `infinity` or `nan`, in any mix of cases.
pub open spec fn is_special(s: Seq<char>) -> bool {
    ||| (s.len() == 3 && lower(s[0]) == 'i' && lower(s[1]) == 'n' && lower(s[2]) == 'f')
    ||| (s.len() == 8 && lower(s[0]) == 'i' && lower(s[1]) == 'n' && lower(s[2]) == 'f'
        && lower(s[3]) == 'i' && lower(s[4]) == 'n' && lower(s[5]) == 'i' && lower(s[6]) == 't'
        && lower(s[7]) == 'y')
    ||| (s.len() == 3 && lower(s[0]) == 'n' && lower(s[1]) == 'a' && lower(s[2]) == 'n')
}

/// Digits with one optional leading sign, as in an exponent.
pub open spec fn sign_digits(s: Seq<char>) -> bool {
    if s.len() > 0 && (s[0] == '+' || s[0] == '-') {
        s.len() > 1 && all_digits(s.skip(1))
    } else {
        s.len() > 0 && all_digits(s)
    }
}

/// `Digit+`, `Digit+ . Digit*` or `Digit* . Digit+`.
pub open spec fn is_mantissa(s: Seq<char>) -> bool {
    ||| (s.len() > 0 && all_digits(s))
    ||| (s.len() > 1 && exists|i: int|
        0 <= i < s.len() && s[i] == '.' && all_digits(#[trigger] s.take(i)) && all_digits(
            s.skip(i + 1),
        ))
}

/// `e` or `E` followed by optionally signed digits.
pub open spec fn is_exp(s: Seq<char>) -> bool {
    s.len() >= 2 && (s[0] == 'e' || s[0] == 'E') && sign_digits(s.skip(1))
}

/// A mantissa with an optional exponent part.
pub open spec fn is_number(s: Seq<char>) -> bool {
    ||| is_mantissa(s)
    ||| (exists|i: int| 0 < i < s.len() && is_mantissa(#[trigger] s.take(i)) && is_exp(s.skip(i)))
}

/// The whole grammar: an optional sign, then a special name or a number.
#[verifier::opaque]
pub open spec fn is_float_literal(s: Seq<char>) -> bool {
    if s.len() > 0 && (s[0] == '+' || s[0] == '-') {
        is_special(s.skip(1)) || is_number(s.skip(1))
    } else {
        is_special(s) || is_number(s)
    }
}

fn lower_char(c: char) -> (r: char)
    ensures
        r == lower(c),
{
    if 'A' <= c && c <= 'Z' {
        ((c as u8) + 32) as char
    } else {
        c
    }
}

/// Whether `s[a..b]` consists of digits only.
fn digits_range(s: &str, a: usize, b: usize) -> (r: bool)
    requires
        a <= b <= s@.len(),
    ensures
        r == all_digits(s@.subrange(a as int, b as int)),
{
    let ghost sub = s@.subrange(a as int, b as int);
    let mut i: usize = a;
    while i < b
        invariant
            a <= i <= b <= s@.len(),
            sub == s@.subrange(a as int, b as int),
            forall|j: int| 0 <= j < i - a ==> is_digit(#[trigger] sub[j]),
        decreases b - i,
    {
        let c = s.get_char(i);
        proof {
            assert(sub[i - a] == s@[i as int]);
        }
        if !('0' <= c && c <= '9') {
            return false;
        }
        i += 1;
    }
    true
}

/// Whether the body `s[start..]` is one of the special names.
fn check_special(s: &str, start: usize) -> (r: bool)
    requires
        start <= s@.len(),
    ensures
        r == is_special(s@.skip(start as int)),
{
    let ghost b = s@.skip(start as int);
    let n = s.unicode_len();
    let m = n - start;
    proof {
        assert(b.len() == m);
        assert(forall|j: int| 0 <= j < b.len() ==> b[j] == s@[start + j]);
    }
    if m == 3 {
        let c0 = lower_char(s.get_char(start));
        let c1 = lower_char(s.get_char(start + 1));
        let c2 = lower_char(s.get_char(start + 2));
        (c0 == 'i' && c1 == 'n' && c2 == 'f') || (c0 == 'n' && c1 == 'a' && c2 == 'n')
    } else if m == 8 {
        let c0 = lower_char(s.get_char(start));
        let c1 = lower_char(s.get_char(start + 1));
        let c2 = lower_char(s.get_char(start + 2));
        let c3 = lower_char(s.get_char(start + 3));
        let c4 = lower_char(s.get_char(start + 4));
        let c5 = lower_char(s.get_char(start + 5));
        let c6 = lower_char(s.get_char(start + 6));
        let c7 = lower_char(s.get_char(start + 7));
        c0 == 'i' && c1 == 'n' && c2 == 'f' && c3 == 'i' && c4 == 'n' && c5 == 'i' && c6 == 't'
            && c7 == 'y'
    } else {
        false
    }
}

/// Whether `s[a..b]` is a mantissa.
fn check_mantissa(s: &str, a: usize, b: usize) -> (r: bool)
    requires
        a <= b <= s@.len(),
    ensures
        r == is_mantissa(s@.subrange(a as int, b as int)),
{
    let ghost sub = s@.subrange(a as int, b as int);
    // find the first '.' in [a, b)
    let mut d: usize = a;
    while d < b && s.get_char(d) != '.'
        invariant
            a <= d <= b <= s@.len(),
            forall|j: int| a <= j < d ==> s@[j] != '.',
        decreases b - d,
    {
        d += 1;
    }
    proof {
        assert(forall|j: int| 0 <= j < sub.len() ==> sub[j] == s@[a + j]);
    }
    if d == b {
        // no dot: only the all-digits form can hold
        let r = b > a && digits_range(s, a, b);
        proof {
            if !r && is_mantissa(sub) {
                if sub.len() > 1 {
                    let i = choose|i: int|
                        0 <= i < sub.len() && sub[i] == '.' && all_digits(#[trigger] sub.take(i))
                            && all_digits(sub.skip(i + 1));
                    assert(s@[a + i] == '.');
                }
            }
        }
        return r;
    }
    // s@[d] == '.', and it is the first dot
    let r = (b - a > 1) && digits_range(s, a, d) && digits_range(s, d + 1, b);
    proof {
        let di = d - a;
        assert(sub[di] == '.');
        assert(sub.take(di) =~= s@.subrange(a as int, d as int));
        assert(sub.skip(di + 1) =~= s@.subrange(d + 1, b as int));
        // the all-digits form never holds: sub has a dot
        assert(!(sub.len() > 0 && all_digits(sub))) by {
            assert(sub[di] == '.' && !is_digit('.'));
        }
        if r {
            assert(is_mantissa(sub)) by {
                assert(0 <= di < sub.len() && sub[di] == '.' && all_digits(sub.take(di))
                    && all_digits(sub.skip(di + 1)));
            }
        }
        if !r && is_mantissa(sub) {
            let i = choose|i: int|
                0 <= i < sub.len() && sub[i] == '.' && all_digits(#[trigger] sub.take(i))
                    && all_digits(sub.skip(i + 1));
            // the witness dot must be the first dot
            assert(a + i >= d) by {
                assert(s@[a + i] == '.');
            }
            assert(i <= di) by {
                if i > di {
                    assert(sub.take(i)[di] == '.');
                    assert(is_digit('.'));
                }
            }
            assert(i == di);
            assert(false);
        }
    }
    r
}

/// Whether the field `s` is a floating-point literal.
#[verifier::rlimit(100)]
#[verifier::spinoff_prover]
pub fn check_float(s: &str) -> (r: bool)
    ensures
        r == is_float_literal(s@),
{
    proof {
        reveal(is_float_literal);
    }
    let n = s.unicode_len();
    if n == 0 {
        proof {
            assert(!is_mantissa(s@));
            assert(!is_number(s@));
        }
        return false;
    }
    let c0 = s.get_char(0);
    let start: usize = if c0 == '+' || c0 == '-' {
        1
    } else {
        0
    };
    let ghost b = s@.skip(start as int);
    proof {
        if start == 0 {
            assert(b =~= s@);
        }
        assert(b.len() == n - start);
        assert(forall|j: int| 0 <= j < b.len() ==> b[j] == s@[start + j]);
        assert(is_float_literal(s@) == (is_special(b) || is_number(b)));
    }
    if check_special(s, start) {
        return true;
    }
    // find the first exponent marker in the body
    let mut e: usize = start;
    while e < n && s.get_char(e) != 'e' && s.get_char(e) != 'E'
        invariant
            start <= e <= n,
            n == s@.len(),
            forall|j: int| start <= j < e ==> s@[j] != 'e' && s@[j] != 'E',
        decreases n - e,
    {
        e += 1;
    }
    let mant = check_mantissa(s, start, e);
    proof {
        assert(s@.subrange(start as int, e as int) =~= b.take(e - start));
    }
    if e == n {
        // no exponent marker anywhere in the body
        proof {
            assert(b.take(e - start) =~= b);
            if is_number(b) && !is_mantissa(b) {
                let i = choose|i: int|
                    0 < i < b.len() && is_mantissa(#[trigger] b.take(i)) && is_exp(b.skip(i));
                assert(b.skip(i)[0] == s@[start + i]);
                assert(false);
            }
        }
        return mant;
    }
    // s@[e] is 'e' or 'E', the first such in the body
    proof {
        let ei = e - start;
        // the mantissa-only form cannot hold: b has an exponent marker
        if is_mantissa(b) {
            if b.len() > 0 && all_digits(b) {
                assert(is_digit(b[ei]));
                assert(false);
            } else {
                let i = choose|i: int|
                    0 <= i < b.len() && b[i] == '.' && all_digits(#[trigger] b.take(i))
                        && all_digits(b.skip(i + 1));
                if ei < i {
                    assert(b.take(i)[ei] == b[ei]);
                    assert(is_digit(b[ei]));
                } else if ei > i {
                    assert(b.skip(i + 1)[ei - i - 1] == b[ei]);
                    assert(is_digit(b[ei]));
                }
                assert(false);
            }
        }
    }
    if !mant {
        // no split can work either: the split point must be the first marker
        proof {
            let ei = e - start;
            if is_number(b) {
                let i = choose|i: int|
                    0 < i < b.len() && is_mantissa(#[trigger] b.take(i)) && is_exp(b.skip(i));
                assert(b.skip(i)[0] == b[i]);
                assert(i >= ei) by {
                    if i < ei {
                        assert(b[i] == s@[start + i]);
                    }
                }
                assert(i <= ei) by {
                    if i > ei {
                        let t = b.take(i);
                        assert(t[ei] == b[ei]);
                        if t.len() > 0 && all_digits(t) {
                            assert(is_digit(b[ei]));
                        } else {
                            let k = choose|k: int|
                                0 <= k < t.len() && t[k] == '.' && all_digits(
                                    #[trigger] t.take(k),
                                ) && all_digits(t.skip(k + 1));
                            if ei < k {
                                assert(t.take(k)[ei] == t[ei]);
                                assert(is_digit(t[ei]));
                            } else if ei > k {
                                assert(t.skip(k + 1)[ei - k - 1] == t[ei]);
                                assert(is_digit(t[ei]));
                            }
                        }
                        assert(false);
                    }
                }
                assert(false);
            }
        }
        return false;
    }
    // mantissa before the marker is good; now the exponent tail must be
    // optionally signed digits
    let mut k: usize = e + 1;
    if k < n {
        let ck = s.get_char(k);
        if ck == '+' || ck == '-' {
            k += 1;
        }
    }
    let expo = k < n && digits_range(s, k, n);
    proof {
        let ei = e - start;
        let tail = b.skip(ei);
        assert(tail.len() == n - e);
        assert(forall|j: int| 0 <= j < tail.len() ==> tail[j] == s@[e + j]);
        assert(s@.subrange(k as int, n as int) =~= tail.skip(1).skip(k - e - 1));
        if expo {
            assert(is_exp(tail)) by {
                let st = tail.skip(1);
                assert(forall|j: int| 0 <= j < st.len() ==> st[j] == s@[e + 1 + j]);
                if k == e + 1 {
                    assert(st =~= s@.subrange(k as int, n as int));
                } else {
                    assert(st[0] == s@[e + 1]);
                    assert(st.skip(1) =~= s@.subrange(k as int, n as int));
                }
            };
            assert(is_number(b)) by {
                assert(0 < ei < b.len() && is_mantissa(b.take(ei)) && is_exp(b.skip(ei)));
            };
        } else {
            assert(!is_exp(tail)) by {
                if is_exp(tail) {
                    let st = tail.skip(1);
                    assert(forall|j: int| 0 <= j < st.len() ==> st[j] == s@[e + 1 + j]);
                    if st.len() > 0 && (st[0] == '+' || st[0] == '-') {
                        assert(k == e + 2);
                        assert(st.skip(1) =~= s@.subrange(k as int, n as int));
                        assert(st.len() > 1 && all_digits(st.skip(1)));
                        assert(k < n);
                    } else {
                        assert(k == e + 1);
                        assert(st =~= s@.subrange(k as int, n as int));
                        assert(st.len() > 0 && all_digits(st));
                        assert(k < n);
                    }
                    assert(false);
                }
            };
            if is_number(b) {
                let i = choose|i: int|
                    0 < i < b.len() && is_mantissa(#[trigger] b.take(i)) && is_exp(b.skip(i));
                assert(b.skip(i)[0] == b[i]);
                assert(i >= ei) by {
                    if i < ei {
                        assert(b[i] == s@[start + i]);
                    }
                }
                assert(i <= ei) by {
                    if i > ei {
                        let t = b.take(i);
                        assert(t[ei] == b[ei]);
                        if t.len() > 0 && all_digits(t) {
                            assert(is_digit(b[ei]));
                        } else {
                            let kk = choose|kk: int|
                                0 <= kk < t.len() && t[kk] == '.' && all_digits(
                                    #[trigger] t.take(kk),
                                ) && all_digits(t.skip(kk + 1));
                            if ei < kk {
                                assert(t.take(kk)[ei] == t[ei]);
                                assert(is_digit(t[ei]));
                            } else if ei > kk {
                                assert(t.skip(kk + 1)[ei - kk - 1] == t[ei]);
                                assert(is_digit(t[ei]));
                            }
                        }
                        assert(false);
                    }
                }
                assert(is_exp(tail));
                assert(false);
            }
        }
    }
    expo
}

} // verus!
