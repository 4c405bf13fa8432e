//! The classified scalar leaf values of the tree: integers, float-shaped
//! numbers, and free-text symbols.

use vstd::prelude::*;
use vstd::string::StrSliceExecFns;

verus! {

/// A decimal digit.
pub open spec fn is_digit(c: char) -> bool {
    48 <= c as u32 <= 57
}

/// The numeric value of a decimal digit.
pub open spec fn digit_val(c: char) -> int {
    c as u32 - 48
}

/// Every character of `s` is a decimal digit.
pub open spec fn all_digits(s: Seq<char>) -> bool {
    forall|i: int| 0 <= i < s.len() ==> is_digit(s[i])
}

/// A non-empty run of decimal digits.
pub open spec fn is_digits(s: Seq<char>) -> bool {
    s.len() >= 1 && all_digits(s)
}

/// The value of a digit run read in base 10.
pub open spec fn digits_value(s: Seq<char>) -> int
    decreases s.len(),
{
    if s.len() == 0 {
        0
    } else {
        digits_value(s.drop_last()) * 10 + digit_val(s.last())
    }
}

/// Integer literal shape: an optional leading minus, then only digits.
pub open spec fn is_int_token(s: Seq<char>) -> bool {
    if s.len() >= 1 && s[0] == '-' {
        is_digits(s.skip(1))
    } else {
        is_digits(s)
    }
}

/// The signed value of an integer-shaped token.
pub open spec fn int_token_value(s: Seq<char>) -> int {
    if s.len() >= 1 && s[0] == '-' {
        -digits_value(s.skip(1))
    } else {
        digits_value(s)
    }
}

/// An integer-shaped token whose value fits the target integer width.
pub open spec fn is_int_atom(s: Seq<char>) -> bool {
    is_int_token(s) && i64::MIN <= int_token_value(s) <= i64::MAX
}

/// A `+` or `-` sign.
pub open spec fn is_sign(c: char) -> bool {
    c == '+' || c == '-'
}

/// The mantissa of a decimal float literal: a digit run, or a digit run with
/// exactly one point somewhere in it (and at least one digit).
pub open spec fn is_mantissa(m: Seq<char>) -> bool {
    is_digits(m) || (m.len() >= 2 && exists|k: int|
        0 <= k < m.len() && m[k] == '.' && (forall|i: int|
            0 <= i < m.len() && i != k ==> is_digit(#[trigger] m[i])))
}

/// What may follow the exponent marker: an optional sign, then digits.
pub open spec fn is_exp_tail(t: Seq<char>) -> bool {
    if t.len() >= 1 && is_sign(t[0]) {
        is_digits(t.skip(1))
    } else {
        is_digits(t)
    }
}

/// A decimal float body: a mantissa, optionally followed by `e` or `E` and an
/// exponent.
pub open spec fn is_number(b: Seq<char>) -> bool {
    is_mantissa(b) || exists|k: int|
        0 <= k < b.len() && (#[trigger] b[k] == 'e' || b[k] == 'E') && is_mantissa(b.take(k))
            && is_exp_tail(b.skip(k + 1))
}

/// `c` equals the lowercase letter `l`, ignoring ASCII case.
pub open spec fn matches_ci(c: char, l: char) -> bool {
    c == l || c as u32 + 32 == l as u32
}

/// The case-insensitive special float bodies: `inf`, `infinity` and `nan`.
pub open spec fn is_special_float(b: Seq<char>) -> bool {
    ||| (b.len() == 3 && matches_ci(b[0], 'i') && matches_ci(b[1], 'n') && matches_ci(b[2], 'f'))
    ||| (b.len() == 8 && matches_ci(b[0], 'i') && matches_ci(b[1], 'n') && matches_ci(b[2], 'f')
        && matches_ci(b[3], 'i') && matches_ci(b[4], 'n') && matches_ci(b[5], 'i')
        && matches_ci(b[6], 't') && matches_ci(b[7], 'y'))
    ||| (b.len() == 3 && matches_ci(b[0], 'n') && matches_ci(b[1], 'a') && matches_ci(b[2], 'n'))
}

/// Float literal shape, after the standard decimal/exponent syntax: an
/// optional sign, then a special body or a decimal number body.
pub open spec fn is_float_token(s: Seq<char>) -> bool {
    let b = if s.len() >= 1 && is_sign(s[0]) {
        s.skip(1)
    } else {
        s
    };
    is_special_float(b) || is_number(b)
}

/// Classification of one non-parenthesis token, first shape that fits wins:
/// a fitting integer, else a float-shaped literal, else a symbol verbatim.
pub open spec fn spec_classify(s: Seq<char>) -> AtomV {
    if is_int_atom(s) {
        AtomV::Int(int_token_value(s))
    } else if is_float_token(s) {
        AtomV::Float(s)
    } else {
        AtomV::Symbol(s)
    }
}

/// The mathematical model of an [`Atom`]: the integer as an unbounded `int`,
/// the other two variants as the character sequence they carry.
pub enum AtomV {
    Int(int),
    Float(Seq<char>),
    Symbol(Seq<char>),
}

/// A classified scalar: a signed integer, a float-shaped numeric literal kept
/// as its exact source text, or a symbol kept verbatim.
#[derive(Debug, Clone)]
pub enum Atom {
    Int(i64),
    Float(String),
    Symbol(String),
}

impl View for Atom {
    type V = AtomV;

    open spec fn view(&self) -> AtomV {
        match self {
            Atom::Int(i) => AtomV::Int(*i as int),
            Atom::Float(s) => AtomV::Float(s@),
            Atom::Symbol(s) => AtomV::Symbol(s@),
        }
    }
}

proof fn lemma_digits_value_nonneg(s: Seq<char>)
    requires
        all_digits(s),
    ensures
        digits_value(s) >= 0,
    decreases s.len(),
{
    if s.len() > 0 {
        assert forall|i: int| 0 <= i < s.drop_last().len() implies is_digit(
            s.drop_last()[i],
        ) by {
            assert(s.drop_last()[i] == s[i]);
        }
        lemma_digits_value_nonneg(s.drop_last());
        assert(is_digit(s.last()));
    }
}

proof fn lemma_digits_value_push(s: Seq<char>, c: char)
    ensures
        digits_value(s.push(c)) == digits_value(s) * 10 + digit_val(c),
{
    assert(s.push(c).drop_last() =~= s);
    assert(s.push(c).last() == c);
}

/// Reads `s` as a signed base-10 integer literal: `Some` exactly when `s` is
/// integer-shaped and its value fits, and then the returned value is it.
fn scan_int(s: &str) -> (r: Option<i64>)
    ensures
        match r {
            Some(v) => is_int_atom(s@) && v as int == int_token_value(s@),
            None => !is_int_atom(s@),
        },
{
    let n = s.unicode_len();
    let neg = n >= 1 && s.get_char(0) == '-';
    let start: usize = if neg {
        1
    } else {
        0
    };
    if n == start {
        // no digits at all
        return None;
    }
    let mut mag: u64 = 0;
    let mut too_big = false;
    let mut i = start;
    while i < n
        invariant
            start <= i <= n,
            n == s@.len(),
            n >= start + 1,
            neg <==> (s@.len() >= 1 && s@[0] == '-'),
            start == if neg {
                1int
            } else {
                0int
            },
            all_digits(s@.subrange(start as int, i as int)),
            !too_big ==> mag as int == digits_value(s@.subrange(start as int, i as int)) && mag
                <= 9223372036854775808u64,
            too_big ==> digits_value(s@.subrange(start as int, i as int)) > 9223372036854775808,
        decreases n - i,
    {
        let c = s.get_char(i);
        let cu = c as u32;
        if cu < 48 || cu > 57 {
            proof {
                let digits = if neg {
                    s@.skip(1)
                } else {
                    s@
                };
                assert(digits[i as int - start as int] == s@[i as int]);
                assert(!all_digits(digits));
            }
            return None;
        }
        let d: u64 = (cu - 48) as u64;
        proof {
            let pre = s@.subrange(start as int, i as int);
            assert(s@.subrange(start as int, i as int + 1) =~= pre.push(s@[i as int]));
            lemma_digits_value_push(pre, s@[i as int]);
            if !too_big {
                lemma_digits_value_nonneg(pre);
            }
        }
        if too_big {
            proof {
                let pre = s@.subrange(start as int, i as int);
                lemma_digits_value_nonneg(pre);
            }
        } else if mag > 1844674407370955160 {
            too_big = true;
        } else {
            mag = mag * 10 + d;
            if mag > 9223372036854775808 {
                too_big = true;
            }
        }
        i += 1;
    }
    proof {
        let digits = if neg {
            s@.skip(1)
        } else {
            s@
        };
        assert(s@.subrange(start as int, n as int) =~= digits);
        assert(is_int_token(s@));
        assert(int_token_value(s@) == if neg {
            -digits_value(digits)
        } else {
            digits_value(digits)
        });
    }
    if too_big {
        return None;
    }
    if neg {
        if mag == 9223372036854775808 {
            Some(i64::MIN)
        } else {
            Some(-(mag as i64))
        }
    } else {
        if mag == 9223372036854775808 {
            None
        } else {
            Some(mag as i64)
        }
    }
}

proof fn lemma_mantissa_chars(m: Seq<char>, i: int)
    requires
        is_mantissa(m),
        0 <= i < m.len(),
    ensures
        is_digit(m[i]) || m[i] == '.',
{
    if !is_digits(m) {
        let k = choose|k: int|
            0 <= k < m.len() && m[k] == '.' && (forall|j: int|
                0 <= j < m.len() && j != k ==> is_digit(#[trigger] m[j]));
        if i != k {
            assert(is_digit(m[i]));
        }
    }
}

/// `c` equals the lowercase letter `l` up to ASCII case.
fn char_ci(c: char, l: char) -> (r: bool)
    ensures
        r == matches_ci(c, l),
{
    c == l || (c as u32) + 32 == (l as u32)
}

/// The characters of `s` in `[a, b)` form a non-empty digit run.
fn check_digits_range(s: &str, a: usize, b: usize) -> (r: bool)
    requires
        a <= b <= s@.len(),
    ensures
        r == is_digits(s@.subrange(a as int, b as int)),
{
    let ghost t = s@.subrange(a as int, b as int);
    if a == b {
        return false;
    }
    let mut i = a;
    while i < b
        invariant
            a <= i <= b <= s@.len(),
            t == s@.subrange(a as int, b as int),
            forall|j: int| a <= j < i ==> is_digit(s@[j]),
        decreases b - i,
    {
        let cu = s.get_char(i) as u32;
        if cu < 48 || cu > 57 {
            proof {
                assert(t[i as int - a as int] == s@[i as int]);
            }
            return false;
        }
        i += 1;
    }
    proof {
        assert forall|j: int| 0 <= j < t.len() implies is_digit(t[j]) by {
            assert(t[j] == s@[a as int + j]);
        }
    }
    true
}

/// The characters of `s` in `[a, b)` form a float mantissa.
fn check_mantissa_range(s: &str, a: usize, b: usize) -> (r: bool)
    requires
        a <= b <= s@.len(),
    ensures
        r == is_mantissa(s@.subrange(a as int, b as int)),
{
    let ghost m = s@.subrange(a as int, b as int);
    let mut ndots: usize = 0;
    let ghost mut dot1: int = 0;
    let ghost mut dot2: int = 0;
    let mut i = a;
    while i < b
        invariant
            a <= i <= b <= s@.len(),
            ndots <= i - a,
            m == s@.subrange(a as int, b as int),
            forall|j: int| a <= j < i ==> (is_digit(s@[j]) || s@[j] == '.'),
            ndots == 0 ==> forall|j: int| a <= j < i ==> is_digit(s@[j]),
            ndots >= 1 ==> a <= dot1 < i && s@[dot1] == '.',
            ndots == 1 ==> forall|j: int| a <= j < i && j != dot1 ==> is_digit(s@[j]),
            ndots >= 2 ==> a <= dot2 < i && s@[dot2] == '.' && dot1 != dot2,
        decreases b - i,
    {
        let c = s.get_char(i);
        let cu = c as u32;
        if cu >= 48 && cu <= 57 {
            // a digit
        } else if c == '.' {
            if ndots == 1 {
                proof {
                    dot2 = i as int;
                }
            } else if ndots == 0 {
                proof {
                    dot1 = i as int;
                }
            }
            if ndots < 2 {
                ndots += 1;
            }
        } else {
            // neither digit nor point: no mantissa shape can hold
            proof {
                assert(m[i as int - a as int] == s@[i as int]);
                if is_mantissa(m) {
                    lemma_mantissa_chars(m, i as int - a as int);
                }
            }
            return false;
        }
        i += 1;
    }
    proof {
        assert forall|j: int| 0 <= j < m.len() implies m[j] == s@[a as int + j] by {}
    }
    if ndots == 0 {
        proof {
            if m.len() >= 2 || m.len() == 1 {
                assert forall|j: int| 0 <= j < m.len() implies is_digit(m[j]) by {
                    assert(m[j] == s@[a as int + j]);
                }
            }
            if is_mantissa(m) && !is_digits(m) {
                let k = choose|k: int|
                    0 <= k < m.len() && m[k] == '.' && (forall|j: int|
                        0 <= j < m.len() && j != k ==> is_digit(#[trigger] m[j]));
                assert(s@[a as int + k] == '.');
            }
        }
        b - a >= 1
    } else if ndots == 1 {
        proof {
            let k0 = dot1 - a;
            assert(m[k0] == '.');
            if b - a >= 2 {
                assert forall|j: int| 0 <= j < m.len() && j != k0 implies is_digit(
                    #[trigger] m[j],
                ) by {
                    assert(m[j] == s@[a as int + j]);
                }
                assert(is_mantissa(m));
            } else {
                // a lone point is no mantissa
                assert(!is_digits(m));
                if is_mantissa(m) {
                    assert(m.len() >= 2);
                }
            }
        }
        b - a >= 2
    } else {
        // two points: every candidate point position leaves another point
        proof {
            assert(m[dot1 - a as int] == '.');
            assert(m[dot2 - a as int] == '.');
            assert(!is_digits(m));
            if is_mantissa(m) {
                let k = choose|k: int|
                    0 <= k < m.len() && m[k] == '.' && (forall|j: int|
                        0 <= j < m.len() && j != k ==> is_digit(#[trigger] m[j]));
                if k != dot1 - a {
                    assert(is_digit(m[dot1 - a]));
                    assert(m[dot1 - a] == s@[dot1]);
                } else {
                    assert(is_digit(m[dot2 - a]));
                    assert(m[dot2 - a] == s@[dot2]);
                }
            }
        }
        false
    }
}

/// The characters of `s` in `[a, b)` form an exponent tail.
fn check_exp_range(s: &str, a: usize, b: usize) -> (r: bool)
    requires
        a <= b <= s@.len(),
    ensures
        r == is_exp_tail(s@.subrange(a as int, b as int)),
{
    let ghost t = s@.subrange(a as int, b as int);
    if a < b {
        let c = s.get_char(a);
        if c == '+' || c == '-' {
            proof {
                assert(t[0] == s@[a as int]);
                assert(t.skip(1) =~= s@.subrange(a as int + 1, b as int));
            }
            return check_digits_range(s, a + 1, b);
        }
    }
    proof {
        if t.len() >= 1 {
            assert(t[0] == s@[a as int]);
        }
    }
    check_digits_range(s, a, b)
}

/// The characters of `s` from `a` on spell `inf`, `infinity` or `nan`,
/// ignoring ASCII case.
fn check_special_range(s: &str, a: usize) -> (r: bool)
    requires
        a <= s@.len(),
    ensures
        r == is_special_float(s@.skip(a as int)),
{
    let ghost b = s@.skip(a as int);
    let n = s.unicode_len();
    let len = n - a;
    proof {
        assert forall|j: int| 0 <= j < b.len() implies b[j] == s@[a as int + j] by {}
    }
    if len == 3 {
        let c0 = s.get_char(a);
        let c1 = s.get_char(a + 1);
        let c2 = s.get_char(a + 2);
        (char_ci(c0, 'i') && char_ci(c1, 'n') && char_ci(c2, 'f')) || (char_ci(c0, 'n')
            && char_ci(c1, 'a') && char_ci(c2, 'n'))
    } else if len == 8 {
        char_ci(s.get_char(a), 'i') && char_ci(s.get_char(a + 1), 'n') && char_ci(
            s.get_char(a + 2),
            'f',
        ) && char_ci(s.get_char(a + 3), 'i') && char_ci(s.get_char(a + 4), 'n') && char_ci(
            s.get_char(a + 5),
            'i',
        ) && char_ci(s.get_char(a + 6), 't') && char_ci(s.get_char(a + 7), 'y')
    } else {
        false
    }
}

/// `s` has the shape of a 64-bit float literal under the standard
/// decimal/exponent syntax.
fn is_float_text(s: &str) -> (r: bool)
    ensures
        r == is_float_token(s@),
{
    let n = s.unicode_len();
    let start: usize = if n >= 1 {
        let c = s.get_char(0);
        if c == '+' || c == '-' {
            1
        } else {
            0
        }
    } else {
        0
    };
    let ghost b = s@.skip(start as int);
    proof {
        if start == 0 {
            assert(b =~= s@);
        }
        assert forall|j: int| 0 <= j < b.len() implies b[j] == s@[start as int + j] by {}
    }
    if check_special_range(s, start) {
        return true;
    }
    let mut i = start;
    while i < n
        invariant
            start <= i <= n,
            n == s@.len(),
            b == s@.skip(start as int),
            !is_special_float(b),
            is_float_token(s@) == (is_special_float(b) || is_number(b)),
            forall|j: int| start <= j < i ==> s@[j] != 'e' && s@[j] != 'E',
        decreases n - i,
    {
        let c = s.get_char(i);
        if c == 'e' || c == 'E' {
            let r1 = check_mantissa_range(s, start, i);
            let r2 = check_exp_range(s, i + 1, n);
            proof {
                let k0 = i as int - start as int;
                assert(b[k0] == s@[i as int]);
                assert(b.take(k0) =~= s@.subrange(start as int, i as int));
                assert(b.skip(k0 + 1) =~= s@.subrange(i as int + 1, n as int));
                if r1 && r2 {
                    assert(is_number(b));
                } else {
                    if is_mantissa(b) {
                        lemma_mantissa_chars(b, k0);
                    }
                    assert forall|k: int|
                        !(0 <= k < b.len() && (#[trigger] b[k] == 'e' || b[k] == 'E')
                            && is_mantissa(b.take(k)) && is_exp_tail(b.skip(k + 1))) by {
                        if 0 <= k < b.len() && (b[k] == 'e' || b[k] == 'E') {
                            if k < k0 {
                                assert(s@[start as int + k] == b[k]);
                            } else if k > k0 {
                                if is_mantissa(b.take(k)) {
                                    assert(b.take(k)[k0] == b[k0]);
                                    lemma_mantissa_chars(b.take(k), k0);
                                }
                            }
                        }
                    }
                    assert(!is_number(b));
                }
            }
            return r1 && r2;
        }
        i += 1;
    }
    let r = check_mantissa_range(s, start, n);
    proof {
        assert(b =~= s@.subrange(start as int, n as int));
        assert forall|k: int|
            !(0 <= k < b.len() && (#[trigger] b[k] == 'e' || b[k] == 'E') && is_mantissa(
                b.take(k),
            ) && is_exp_tail(b.skip(k + 1))) by {
            if 0 <= k < b.len() {
                assert(b[k] == s@[start as int + k]);
            }
        }
    }
    r
}

/// Classifies one non-parenthesis token, never failing: a fitting
/// integer-shaped token becomes `Int`, else a float-shaped one becomes
/// `Float` carrying its text, and anything else is a `Symbol` verbatim.
pub fn parse_atom(atom: &str) -> (r: Atom)
    ensures
        r@ == spec_classify(atom@),
{
    match scan_int(atom) {
        Some(v) => Atom::Int(v),
        None => {
            if is_float_text(atom) {
                Atom::Float(atom.to_owned())
            } else {
                Atom::Symbol(atom.to_owned())
            }
        },
    }
}

impl PartialEq for Atom {
    fn eq(&self, other: &Atom) -> (r: bool) {
        match (self, other) {
            (Atom::Int(a), Atom::Int(b)) => *a == *b,
            (Atom::Float(a), Atom::Float(b)) => *a == *b,
            (Atom::Symbol(a), Atom::Symbol(b)) => *a == *b,
            _ => false,
        }
    }
}

impl vstd::std_specs::cmp::PartialEqSpecImpl for Atom {
    open spec fn obeys_eq_spec() -> bool {
        true
    }

    open spec fn eq_spec(&self, other: &Atom) -> bool {
        self@ == other@
    }
}

} // verus!
