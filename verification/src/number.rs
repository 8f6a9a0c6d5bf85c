//! Recognition of the decimal floating-point syntax that `f64::from_str`
//! accepts.
//!
//! std documents that syntax as a grammar (ASCII case-insensitive):
//!
//! ```text
//! Float  ::= Sign? ( 'inf' | 'infinity' | 'nan' | Number )
//! Number ::= ( Digit+ | Digit+ '.' Digit* | Digit* '.' Digit+ ) Exp?
//! Exp    ::= 'e' Sign? Digit+
//! Sign   ::= [+-]
//! Digit  ::= [0-9]
//! ```
//!
//! Only whether a string parses matters to the library, never the value, so
//! the grammar is stated here and recognised without any floating point.

use vstd::prelude::*;
use crate::text::{eq_ignore_ascii_case_spec, chars_of};

verus! {

pub open spec fn is_digit(c: char) -> bool {
    '0' <= c <= '9'
}

pub open spec fn is_sign(c: char) -> bool {
    c == '+' || c == '-'
}

pub open spec fn is_exp_mark(c: char) -> bool {
    c == 'e' || c == 'E'
}

pub open spec fn all_digits(s: Seq<char>) -> bool {
    forall|i: int| 0 <= i < s.len() ==> is_digit(#[trigger] s[i])
}

/// `Digit+ | Digit+ '.' Digit* | Digit* '.' Digit+`
pub open spec fn is_mantissa(m: Seq<char>) -> bool {
    ||| (m.len() > 0 && all_digits(m))
    ||| exists|d: int|
        0 <= d < m.len() && #[trigger] m[d] == '.' && all_digits(m.take(d)) && all_digits(
            m.skip(d + 1),
        ) && m.len() >= 2
}

/// `Sign? Digit+`
pub open spec fn is_exponent_digits(x: Seq<char>) -> bool {
    if x.len() > 0 && is_sign(x[0]) {
        x.len() > 1 && all_digits(x.drop_first())
    } else {
        x.len() > 0 && all_digits(x)
    }
}

/// `Number` of the grammar.
pub open spec fn is_number(b: Seq<char>) -> bool {
    ||| is_mantissa(b)
    ||| exists|i: int|
        0 <= i < b.len() && is_exp_mark(#[trigger] b[i]) && is_mantissa(b.take(i))
            && is_exponent_digits(b.skip(i + 1))
}

/// The words `inf`, `infinity` and `nan`, in any ASCII case.
pub open spec fn is_special_word(b: Seq<char>) -> bool {
    ||| eq_ignore_ascii_case_spec(b, seq!['i', 'n', 'f'])
    ||| eq_ignore_ascii_case_spec(b, seq!['i', 'n', 'f', 'i', 'n', 'i', 't', 'y'])
    ||| eq_ignore_ascii_case_spec(b, seq!['n', 'a', 'n'])
}

/// Whether `f64::from_str` accepts `s`: the `Float` rule of the grammar.
pub open spec fn is_float_literal(s: Seq<char>) -> bool {
    let body = if s.len() > 0 && is_sign(s[0]) {
        s.drop_first()
    } else {
        s
    };
    is_special_word(body) || is_number(body)
}

fn digits_between(v: &Vec<char>, lo: usize, hi: usize) -> (r: bool)
    requires
        lo <= hi <= v.len(),
    ensures
        r == all_digits(v@.subrange(lo as int, hi as int)),
{
    let mut i = lo;
    while i < hi
        invariant
            lo <= i <= hi <= v.len(),
            all_digits(v@.subrange(lo as int, i as int)),
        decreases hi - i,
    {
        if !('0' <= v[i] && v[i] <= '9') {
            assert(v@.subrange(lo as int, hi as int)[i - lo] == v@[i as int]);
            return false;
        }
        i = i + 1;
        assert forall|j: int| 0 <= j < i - lo implies is_digit(
            #[trigger] v@.subrange(lo as int, i as int)[j],
        ) by {
            if j < i - 1 - lo {
                assert(v@.subrange(lo as int, i as int)[j] == v@.subrange(lo as int, i - 1)[j]);
            }
        }
    }
    true
}

/// First index in `lo..hi` holding `c`, or `hi`.
fn find_char(v: &Vec<char>, lo: usize, hi: usize, c: char) -> (r: usize)
    requires
        lo <= hi <= v.len(),
    ensures
        lo <= r <= hi,
        r < hi ==> v@[r as int] == c,
        forall|j: int| lo <= j < r ==> v@[j] != c,
{
    let mut i = lo;
    while i < hi
        invariant
            lo <= i <= hi <= v.len(),
            forall|j: int| lo <= j < i ==> v@[j] != c,
        decreases hi - i,
    {
        if v[i] == c {
            return i;
        }
        i = i + 1;
    }
    hi
}

fn mantissa_between(v: &Vec<char>, lo: usize, hi: usize) -> (r: bool)
    requires
        lo <= hi <= v.len(),
    ensures
        r == is_mantissa(v@.subrange(lo as int, hi as int)),
{
    let ghost m = v@.subrange(lo as int, hi as int);
    let d = find_char(v, lo, hi, '.');
    if d == hi {
        let r = hi > lo && digits_between(v, lo, hi);
        proof {
            if !r {
                assert forall|k: int|
                    0 <= k < m.len() && #[trigger] m[k] == '.' implies !(all_digits(m.take(k))
                    && all_digits(m.skip(k + 1)) && m.len() >= 2) by {
                    assert(m[k] == v@[lo + k]);
                }
            }
        }
        r
    } else {
        let k = d - lo;
        assert(m[k as int] == '.');
        let left = digits_between(v, lo, d);
        let right = digits_between(v, d + 1, hi);
        assert(m.take(k as int) =~= v@.subrange(lo as int, d as int));
        assert(m.skip(k + 1) =~= v@.subrange(d + 1, hi as int));
        let r = left && right && hi - lo >= 2;
        proof {
            if !r {
                assert(!is_digit(m[k as int]));
                assert forall|k2: int|
                    0 <= k2 < m.len() && #[trigger] m[k2] == '.' implies !(all_digits(m.take(k2))
                    && all_digits(m.skip(k2 + 1)) && m.len() >= 2) by {
                    if k2 != k {
                        assert(m[k2] == v@[lo + k2]);
                        if k2 < k {
                            assert(v@[lo + k2] != '.');
                        } else {
                            assert(m.take(k2)[k as int] == '.');
                        }
                    }
                }
            }
        }
        r
    }
}

fn exponent_between(v: &Vec<char>, lo: usize, hi: usize) -> (r: bool)
    requires
        lo <= hi <= v.len(),
    ensures
        r == is_exponent_digits(v@.subrange(lo as int, hi as int)),
{
    let ghost x = v@.subrange(lo as int, hi as int);
    if lo < hi && (v[lo] == '+' || v[lo] == '-') {
        assert(x.drop_first() =~= v@.subrange(lo + 1, hi as int));
        hi - lo > 1 && digits_between(v, lo + 1, hi)
    } else {
        hi > lo && digits_between(v, lo, hi)
    }
}

/// Whether `b` (as `v[lo..hi]`) is a `Number` of the grammar.
fn number_between(v: &Vec<char>, lo: usize, hi: usize) -> (r: bool)
    requires
        lo <= hi <= v.len(),
    ensures
        r == is_number(v@.subrange(lo as int, hi as int)),
{
    let ghost b = v@.subrange(lo as int, hi as int);
    let e1 = find_char(v, lo, hi, 'e');
    let e2 = find_char(v, lo, hi, 'E');
    let e = if e1 < e2 {
        e1
    } else {
        e2
    };
    proof {
        assert forall|j: int| lo <= j < e implies !is_exp_mark(#[trigger] v@[j]) by {}
    }
    if e == hi {
        let r = mantissa_between(v, lo, hi);
        proof {
            assert(b =~= v@.subrange(lo as int, hi as int));
            assert forall|i: int| 0 <= i < b.len() implies !is_exp_mark(#[trigger] b[i]) by {
                assert(b[i] == v@[lo + i]);
            }
        }
        r
    } else {
        let k = e - lo;
        assert(b[k as int] == v@[e as int]);
        assert(is_exp_mark(b[k as int]));
        let m = mantissa_between(v, lo, e);
        let x = exponent_between(v, e + 1, hi);
        assert(b.take(k as int) =~= v@.subrange(lo as int, e as int));
        assert(b.skip(k + 1) =~= v@.subrange(e + 1, hi as int));
        let r = m && x;
        proof {
            // a mantissa holds no exponent mark, so `k` is the only candidate
            assert forall|mm: Seq<char>| #[trigger] is_mantissa(mm) implies forall|j: int|
                0 <= j < mm.len() ==> !is_exp_mark(#[trigger] mm[j]) by {
                if mm.len() > 0 && all_digits(mm) {
                } else {
                    let d = choose|d: int|
                        0 <= d < mm.len() && #[trigger] mm[d] == '.' && all_digits(mm.take(d))
                            && all_digits(mm.skip(d + 1)) && mm.len() >= 2;
                    assert forall|j: int| 0 <= j < mm.len() implies !is_exp_mark(
                        #[trigger] mm[j],
                    ) by {
                        if j < d {
                            assert(mm.take(d)[j] == mm[j]);
                        } else if j > d {
                            assert(mm.skip(d + 1)[j - d - 1] == mm[j]);
                        }
                    }
                }
            }
            if is_mantissa(b) {
                assert(!is_exp_mark(b[k as int]));
            }
            if !r {
                assert forall|i: int|
                    0 <= i < b.len() && is_exp_mark(#[trigger] b[i]) implies !(is_mantissa(
                    b.take(i),
                ) && is_exponent_digits(b.skip(i + 1))) by {
                    if i < k {
                        assert(b[i] == v@[lo + i]);
                    } else if i > k {
                        assert(b.take(i)[k as int] == b[k as int]);
                    }
                }
            }
        }
        r
    }
}

fn special_between(v: &Vec<char>, lo: usize, hi: usize) -> (r: bool)
    requires
        lo <= hi <= v.len(),
    ensures
        r == is_special_word(v@.subrange(lo as int, hi as int)),
{
    let mut w: Vec<char> = Vec::new();
    let mut i = lo;
    while i < hi
        invariant
            lo <= i <= hi <= v.len(),
            w@ == v@.subrange(lo as int, i as int),
        decreases hi - i,
    {
        w.push(v[i]);
        i = i + 1;
    }
    let inf = vec!['i', 'n', 'f'];
    let infinity = vec!['i', 'n', 'f', 'i', 'n', 'i', 't', 'y'];
    let nan = vec!['n', 'a', 'n'];
    assert(inf@ =~= seq!['i', 'n', 'f']);
    assert(infinity@ =~= seq!['i', 'n', 'f', 'i', 'n', 'i', 't', 'y']);
    assert(nan@ =~= seq!['n', 'a', 'n']);
    crate::text::eq_ignore_ascii_case_chars(&w, &inf) || crate::text::eq_ignore_ascii_case_chars(
        &w,
        &infinity,
    ) || crate::text::eq_ignore_ascii_case_chars(&w, &nan)
}

/// Whether `value` is text that `f64::from_str` accepts.
pub fn is_float_text(value: &str) -> (r: bool)
    ensures
        r == is_float_literal(value@),
{
    let v = chars_of(value);
    let n = v.len();
    let lo: usize = if n > 0 && (v[0] == '+' || v[0] == '-') {
        1
    } else {
        0
    };
    proof {
        if lo == 1 {
            assert(v@.subrange(1, n as int) =~= v@.drop_first());
        } else {
            assert(v@.subrange(0, n as int) =~= v@);
        }
    }
    special_between(&v, lo, n) || number_between(&v, lo, n)
}

} // verus!
