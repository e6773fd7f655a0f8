//! The text of a number token, and when it denotes a floating-point value.
//!
//! A number token is the longest run of characters from `-+0123456789eE.`
//! that starts at a `-` or a digit.  It denotes a number exactly when it
//! follows the decimal grammar that the standard library's float parser
//! accepts (case-insensitive in the exponent marker):
//!
//! ```text
//! Float    ::= Sign? Mantissa Exponent?
//! Mantissa ::= Digit+ | Digit+ '.' Digit* | Digit* '.' Digit+
//! Exponent ::= ('e' | 'E') Sign? Digit+
//! Sign     ::= '+' | '-'
//! ```
use vstd::prelude::*;

verus! {

pub open spec fn is_digit(c: char) -> bool {
    '0' <= c && c <= '9'
}

pub open spec fn is_sign(c: char) -> bool {
    c == '+' || c == '-'
}

pub open spec fn is_exponent_marker(c: char) -> bool {
    c == 'e' || c == 'E'
}

/// The characters that a number token is made of.
pub open spec fn is_number_char(c: char) -> bool {
    is_sign(c) || is_digit(c) || is_exponent_marker(c) || c == '.'
}

pub open spec fn all_digits(s: Seq<char>) -> bool {
    forall|i: int| 0 <= i < s.len() ==> #[trigger] is_digit(s[i])
}

/// `Digit+ | Digit+ '.' Digit* | Digit* '.' Digit+`
pub open spec fn is_mantissa(m: Seq<char>) -> bool {
    ||| (m.len() > 0 && all_digits(m))
    ||| exists|d: int|
        0 <= d < m.len() && #[trigger] m[d] == '.' && m.len() >= 2 && all_digits(m.take(d))
            && all_digits(m.skip(d + 1))
}

/// Empty, or `('e' | 'E') Sign? Digit+`
pub open spec fn is_exponent(x: Seq<char>) -> bool {
    ||| x.len() == 0
    ||| {
        &&& x.len() >= 2
        &&& is_exponent_marker(x[0])
        &&& {
            let r = x.drop_first();
            let ds = if is_sign(r[0]) {
                r.drop_first()
            } else {
                r
            };
            ds.len() > 0 && all_digits(ds)
        }
    }
}

/// The unsigned part of a number's text.
pub open spec fn unsigned_part(s: Seq<char>) -> Seq<char> {
    if s.len() > 0 && is_sign(s[0]) {
        s.drop_first()
    } else {
        s
    }
}

/// `Sign? Mantissa Exponent?`: the text denotes a floating-point value.
pub open spec fn is_float_text(s: Seq<char>) -> bool {
    let b = unsigned_part(s);
    exists|e: int| 0 <= e <= b.len() && is_mantissa(#[trigger] b.take(e)) && is_exponent(b.skip(e))
}

pub open spec fn is_mantissa_char(c: char) -> bool {
    is_digit(c) || c == '.'
}

proof fn lemma_mantissa_split_unique(b: Seq<char>, e: int, e2: int)
    requires
        0 <= e <= b.len(),
        0 <= e2 <= b.len(),
        forall|i: int| 0 <= i < e ==> #[trigger] is_mantissa_char(b[i]),
        e < b.len() ==> !is_mantissa_char(b[e]),
        is_mantissa(b.take(e2)),
        is_exponent(b.skip(e2)),
    ensures
        e2 == e,
{
    if e2 < e {
        assert(b.skip(e2)[0] == b[e2]);
        assert(is_mantissa_char(b[e2]));
    } else if e2 > e {
        let m = b.take(e2);
        assert(m[e] == b[e]);
        if m.len() > 0 && all_digits(m) {
            assert(is_digit(m[e]));
        } else {
            let d = choose|d: int|
                0 <= d < m.len() && #[trigger] m[d] == '.' && m.len() >= 2 && all_digits(m.take(d))
                    && all_digits(m.skip(d + 1));
            if e < d {
                assert(m.take(d)[e] == m[e]);
                assert(is_digit(m.take(d)[e]));
            } else if e > d {
                assert(m.skip(d + 1)[e - d - 1] == m[e]);
                assert(is_digit(m.skip(d + 1)[e - d - 1]));
            }
        }
    }
}

/// Decides `is_mantissa` for a text made only of digits and dots, from
/// three facts about it: a digit in it (if any), its first dot (if any), and
/// a second dot (if any).
proof fn lemma_mantissa_verdict(m: Seq<char>, digit_w: int, dot: int, dot2: int)
    requires
        forall|k: int| 0 <= k < m.len() ==> #[trigger] is_mantissa_char(m[k]),
        digit_w == -1 ==> forall|k: int| 0 <= k < m.len() ==> #[trigger] m[k] == '.',
        digit_w != -1 ==> 0 <= digit_w < m.len() && is_digit(m[digit_w]),
        dot == -1 ==> dot2 == -1 && forall|k: int| 0 <= k < m.len() ==> #[trigger] is_digit(m[k]),
        dot != -1 ==> {
            &&& 0 <= dot < m.len()
            &&& m[dot] == '.'
            &&& dot2 == -1 ==> forall|k: int| 0 <= k < m.len() && k != dot ==> #[trigger] is_digit(m[k])
            &&& dot2 != -1 ==> 0 <= dot2 < m.len() && dot2 != dot && m[dot2] == '.'
        },
    ensures
        is_mantissa(m) == (digit_w != -1 && dot2 == -1),
{
    if digit_w != -1 && dot2 == -1 {
        if dot != -1 {
            assert(digit_w != dot);
            assert forall|k: int| 0 <= k < m.take(dot).len() implies #[trigger] is_digit(m.take(dot)[k]) by {
                assert(m.take(dot)[k] == m[k]);
            }
            assert forall|k: int| 0 <= k < m.skip(dot + 1).len() implies #[trigger] is_digit(
                m.skip(dot + 1)[k],
            ) by {
                assert(m.skip(dot + 1)[k] == m[dot + 1 + k]);
            }
        }
    } else if is_mantissa(m) {
        if m.len() > 0 && all_digits(m) {
            if digit_w == -1 {
                assert(m[0] == '.');
                assert(is_digit(m[0]));
            } else {
                assert(is_digit(m[dot]));
            }
        } else {
            let dd = choose|dd: int|
                0 <= dd < m.len() && #[trigger] m[dd] == '.' && m.len() >= 2 && all_digits(m.take(dd))
                    && all_digits(m.skip(dd + 1));
            // a second dot-like position z != dd that must be a digit
            let z: int = if digit_w == -1 {
                if dd == 0 {
                    1
                } else {
                    0
                }
            } else if dot != dd {
                dot
            } else {
                dot2
            };
            assert(m[z] == '.');
            if z < dd {
                assert(m.take(dd)[z] == m[z]);
                assert(is_digit(m.take(dd)[z]));
            } else {
                assert(m.skip(dd + 1)[z - dd - 1] == m[z]);
                assert(is_digit(m.skip(dd + 1)[z - dd - 1]));
            }
        }
    }
}

/// Scans the run of digits and dots that starts at `start`, and says
/// whether it is a mantissa.
fn scan_mantissa(s: &Vec<char>, start: usize) -> (res: (usize, bool))
    requires
        start <= s.len(),
    ensures
        start <= res.0 <= s.len(),
        forall|k: int| start <= k < res.0 ==> #[trigger] is_mantissa_char(s@[k]),
        res.0 < s.len() ==> !is_mantissa_char(s@[res.0 as int]),
        res.1 == is_mantissa(s@.subrange(start as int, res.0 as int)),
{
    let n = s.len();
    let mut i: usize = start;
    let mut has_digit = false;
    let mut dot: Option<usize> = None;
    let mut two_dots = false;
    let ghost mut digit_w: int = -1;
    let ghost mut dot2: int = -1;
    while i < n && (('0' <= s[i] && s[i] <= '9') || s[i] == '.')
        invariant
            start <= i <= n,
            n == s@.len(),
            forall|k: int| start <= k < i ==> #[trigger] is_mantissa_char(s@[k]),
            has_digit == (digit_w != -1),
            two_dots == (dot2 != -1),
            digit_w == -1 ==> forall|k: int| start <= k < i ==> #[trigger] s@[k] == '.',
            digit_w != -1 ==> start <= digit_w < i && is_digit(s@[digit_w]),
            dot is None ==> dot2 == -1 && forall|k: int| start <= k < i ==> #[trigger] is_digit(s@[k]),
            dot matches Some(d) ==> {
                &&& start <= d < i
                &&& s@[d as int] == '.'
                &&& dot2 == -1 ==> forall|k: int| start <= k < i && k != d ==> #[trigger] is_digit(s@[k])
                &&& dot2 != -1 ==> start <= dot2 < i && dot2 != d && s@[dot2] == '.'
            },
        decreases n - i,
    {
        if s[i] == '.' {
            match dot {
                None => {
                    dot = Some(i);
                },
                Some(_) => {
                    if !two_dots {
                        proof {
                            dot2 = i as int;
                        }
                    }
                    two_dots = true;
                },
            }
        } else {
            if !has_digit {
                proof {
                    digit_w = i as int;
                }
            }
            has_digit = true;
        }
        i = i + 1;
    }
    proof {
        let m = s@.subrange(start as int, i as int);
        let dw = if digit_w == -1 { -1 } else { digit_w - start };
        let dt = match dot { None => -1, Some(d) => d - start };
        let d2 = if dot2 == -1 { -1 } else { dot2 - start };
        assert forall|k: int| 0 <= k < m.len() implies #[trigger] is_mantissa_char(m[k]) by {
            assert(m[k] == s@[start + k]);
        }
        if digit_w == -1 {
            assert forall|k: int| 0 <= k < m.len() implies #[trigger] m[k] == '.' by {
                assert(m[k] == s@[start + k]);
            }
        }
        if dot is None {
            assert forall|k: int| 0 <= k < m.len() implies #[trigger] is_digit(m[k]) by {
                assert(m[k] == s@[start + k]);
            }
        } else if dot2 == -1 {
            assert forall|k: int| 0 <= k < m.len() && k != dt implies #[trigger] is_digit(m[k]) by {
                assert(m[k] == s@[start + k]);
            }
        }
        lemma_mantissa_verdict(m, dw, dt, d2);
    }
    (i, has_digit && !two_dots)
}

/// Whether the characters from `e` to the end form an exponent (or nothing).
fn check_exponent(s: &Vec<char>, e: usize) -> (ok: bool)
    requires
        e <= s.len(),
    ensures
        ok == is_exponent(s@.skip(e as int)),
{
    let n = s.len();
    let ghost x = s@.skip(e as int);
    if e == n {
        return true;
    }
    if !(s[e] == 'e' || s[e] == 'E') {
        assert(x[0] == s@[e as int]);
        return false;
    }
    let mut j: usize = e + 1;
    if j < n && (s[j] == '+' || s[j] == '-') {
        j = j + 1;
    }
    let digits_start = j;
    while j < n && '0' <= s[j] && s[j] <= '9'
        invariant
            digits_start <= j <= n,
            n == s@.len(),
            forall|k: int| digits_start <= k < j ==> #[trigger] is_digit(s@[k]),
        decreases n - j,
    {
        j = j + 1;
    }
    let ok = j == n && j > digits_start;
    proof {
        if e + 1 < n {
            let r = x.drop_first();
            assert(r[0] == s@[e + 1]);
            let ds = if is_sign(r[0]) {
                r.drop_first()
            } else {
                r
            };
            assert(ds == s@.skip(digits_start as int));
            if ok {
                assert forall|k: int| 0 <= k < ds.len() implies #[trigger] is_digit(ds[k]) by {
                    assert(ds[k] == s@[digits_start + k]);
                }
            } else if j < n && all_digits(ds) {
                assert(ds[j - digits_start] == s@[j as int]);
                assert(is_digit(ds[j - digits_start]));
            }
        }
    }
    ok
}

/// Whether the text of a number token denotes a floating-point value.
pub fn check_float_text(s: &Vec<char>) -> (ok: bool)
    ensures
        ok == is_float_text(s@),
{
    let n = s.len();
    let start: usize = if n > 0 && (s[0] == '+' || s[0] == '-') {
        1
    } else {
        0
    };
    let ghost b = unsigned_part(s@);
    assert(b == s@.skip(start as int));
    let (e, mantissa_ok) = scan_mantissa(s, start);
    let exponent_ok = check_exponent(s, e);
    proof {
        let ge: int = e - start;
        assert(b.take(ge) == s@.subrange(start as int, e as int));
        assert(b.skip(ge) == s@.skip(e as int));
        assert forall|k: int| 0 <= k < ge implies #[trigger] is_mantissa_char(b[k]) by {
            assert(b[k] == s@[start + k]);
        }
        if ge < b.len() {
            assert(b[ge] == s@[e as int]);
        }
        if mantissa_ok && exponent_ok {
            assert(is_mantissa(b.take(ge)) && is_exponent(b.skip(ge)));
        } else if is_float_text(s@) {
            let e2 = choose|e2: int|
                0 <= e2 <= b.len() && is_mantissa(#[trigger] b.take(e2)) && is_exponent(b.skip(e2));
            lemma_mantissa_split_unique(b, ge, e2);
        }
    }
    mantissa_ok && exponent_ok
}

} // verus!
