//! A one-operation calculator: the first `<number><operator><number>` in a
//! line, after its spaces are dropped, is evaluated.
//!
//! A number is an optional `-` and a run of decimal digits (`\d`, Unicode); the operator is
//! one of `+ , - . / *` (`,` and `.` evaluate to -1). A line with no such
//! expression evaluates to -1.
use vstd::prelude::*;
use vstd::string::StringExecFns;

use crate::text::{chars_of, is_ascii_digit, spec_parse_signed, parse_signed_chars, lemma_parse_signed_bounds};

verus! {

/// `s` without its spaces.
pub open spec fn without_spaces(s: Seq<char>) -> Seq<char>
    decreases s.len(),
{
    if s.len() == 0 {
        s
    } else if s.last() == ' ' {
        without_spaces(s.drop_last())
    } else {
        without_spaces(s.drop_last()).push(s.last())
    }
}

/// The operator characters the expression accepts.
pub open spec fn is_operator(c: char) -> bool {
    c == '+' || c == ',' || c == '-' || c == '.' || c == '/' || c == '*'
}

/// `[a, e)` is a maximal run of digits that starts at `a`.
pub open spec fn digit_run(s: Seq<char>, a: int, e: int) -> bool {
    &&& 0 <= a <= e <= s.len()
    &&& forall|q: int| a <= q < e ==> decimal_digit(#[trigger] s[q])
    &&& e == s.len() || !decimal_digit(s[e])
}

/// Where the digits of a number that starts at `p` begin: after its `-`.
pub open spec fn digits_from(s: Seq<char>, p: int) -> int {
    if p < s.len() && s[p] == '-' {
        p + 1
    } else {
        p
    }
}

/// An expression starts at `p`: its first number is `[p, e1)`, its
/// operator at `e1`, its second number `[e1 + 1, e3)`.
pub open spec fn match_at(s: Seq<char>, p: int, e1: int, e3: int) -> bool {
    let a = digits_from(s, p);
    let q = e1 + 1;
    let b = digits_from(s, q);
    &&& 0 <= p < s.len()
    &&& digit_run(s, a, e1)
    &&& a < e1
    &&& e1 < s.len()
    &&& is_operator(s[e1])
    &&& digit_run(s, b, e3)
    &&& b < e3
}

pub open spec fn matches_at(s: Seq<char>, p: int) -> bool {
    exists|e1: int, e3: int| match_at(s, p, e1, e3)
}

/// The leftmost expression: it starts at `p`, and none starts earlier.
pub open spec fn leftmost(s: Seq<char>, p: int, e1: int, e3: int) -> bool {
    &&& match_at(s, p, e1, e3)
    &&& forall|q: int| 0 <= q < p ==> !matches_at(s, q)
}

pub open spec fn has_expression(s: Seq<char>) -> bool {
    exists|p: int, e1: int, e3: int| leftmost(s, p, e1, e3)
}

/// The leftmost expression of `s`, where it has one.
pub open spec fn expression(s: Seq<char>) -> (int, int, int) {
    choose|p: int, e1: int, e3: int| leftmost(s, p, e1, e3)
}

pub open spec fn abs(x: int) -> int {
    if x < 0 {
        -x
    } else {
        x
    }
}

/// Division rounding toward zero, as Rust's integer `/`.
pub open spec fn trunc_div(a: int, b: int) -> int {
    let q = abs(a) / abs(b);
    if (a < 0) != (b < 0) {
        -q
    } else {
        q
    }
}

pub open spec fn in_i32(x: int) -> bool {
    i32::MIN <= x <= i32::MAX
}

/// The value of the expression, where its numbers fit in `i32` (`None`
/// otherwise).
pub open spec fn operands(s: Seq<char>) -> Option<(int, char, int)> {
    let (p, e1, e3) = expression(s);
    match (spec_parse_signed(s.subrange(p, e1), i32::MIN as int, i32::MAX as int), spec_parse_signed(
        s.subrange(e1 + 1, e3),
        i32::MIN as int,
        i32::MAX as int,
    )) {
        (Some(x), Some(y)) => Some((x, s[e1], y)),
        _ => None,
    }
}

/// The characters `\d` matches in the `regex` crate: the Unicode decimal
/// digits (general category Nd).
pub uninterp spec fn decimal_digit(c: char) -> bool;

/// Whether `c` alone matches `^\d$` (`Regex::new`, `Regex::is_match`); the
/// contract names the result `decimal_digit(c)` and, for an ASCII
/// character, says it is one of `0` to `9`.
#[verifier::external_body]
fn char_is_decimal(c: char) -> (b: bool)
    ensures
        b == decimal_digit(c),
        (c as u32) < 128 ==> (b <==> is_ascii_digit(c)),
{
    let mut buf = [0u8; 4];
    regex::Regex::new(r"^\d$").unwrap().is_match(c.encode_utf8(&mut buf))
}

/// The lines the calculator evaluates without panicking: where there is
/// an expression, its numbers parse as `i32` (all their digits are ASCII
/// and they fit) and its operation neither overflows nor divides by zero.
pub open spec fn calculation_defined(line: Seq<char>) -> bool {
    let s = without_spaces(line);
    &&& has_expression(s) ==> match operands(s) {
        None => false,
        Some((x, op, y)) => if op == '+' {
            in_i32(x + y)
        } else if op == '-' {
            in_i32(x - y)
        } else if op == '*' {
            in_i32(x * y)
        } else if op == '/' {
            y != 0 && in_i32(trunc_div(x, y))
        } else {
            true
        },
    }
}

/// The value of a line.
pub open spec fn calculation(line: Seq<char>) -> int {
    let s = without_spaces(line);
    if !has_expression(s) {
        -1
    } else {
        match operands(s) {
            None => -1,
            Some((x, op, y)) => if op == '+' {
                x + y
            } else if op == '-' {
                x - y
            } else if op == '*' {
                x * y
            } else if op == '/' {
                trunc_div(x, y)
            } else {
                -1
            },
        }
    }
}


proof fn lemma_digit_run_unique(s: Seq<char>, a: int, e: int, f: int)
    requires
        digit_run(s, a, e),
        digit_run(s, a, f),
    ensures
        e == f,
{
    if e < f {
        assert(decimal_digit(s[e]));
    } else if f < e {
        assert(decimal_digit(s[f]));
    }
}

proof fn lemma_leftmost_unique(s: Seq<char>, p: int, e1: int, e3: int)
    requires
        leftmost(s, p, e1, e3),
    ensures
        has_expression(s),
        expression(s) == (p, e1, e3),
{
    let (q, f1, f3) = expression(s);
    assert(leftmost(s, q, f1, f3));
    if q < p {
        assert(matches_at(s, q));
    } else if p < q {
        assert(matches_at(s, p));
    }
    lemma_digit_run_unique(s, digits_from(s, p), e1, f1);
    lemma_digit_run_unique(s, digits_from(s, e1 + 1), e3, f3);
}

/// End of the run of digits that starts at `a`.
fn run_end(cs: &[char], a: usize) -> (e: usize)
    requires
        a <= cs@.len(),
    ensures
        digit_run(cs@, a as int, e as int),
{
    let mut e = a;
    while e < cs.len() && char_is_decimal(cs[e])
        invariant
            a <= e <= cs@.len(),
            forall|q: int| a <= q < e ==> decimal_digit(#[trigger] cs@[q]),
        decreases cs@.len() - e,
    {
        e = e + 1;
    }
    e
}

fn char_is_operator(c: char) -> (b: bool)
    ensures
        b == is_operator(c),
{
    c == '+' || c == ',' || c == '-' || c == '.' || c == '/' || c == '*'
}

/// The expression that starts at `p`, if one does.
fn match_here(cs: &[char], p: usize) -> (r: Option<(usize, usize)>)
    requires
        p < cs@.len(),
    ensures
        match r {
            Some((e1, e3)) => match_at(cs@, p as int, e1 as int, e3 as int),
            None => !matches_at(cs@, p as int),
        },
{
    let a = if cs[p] == '-' {
        p + 1
    } else {
        p
    };
    let e1 = run_end(cs, a);
    proof {
        assert forall|f1: int, f3: int| match_at(cs@, p as int, f1, f3) implies f1 == e1 by {
            lemma_digit_run_unique(cs@, a as int, e1 as int, f1);
        }
    }
    if e1 == a || e1 >= cs.len() || !char_is_operator(cs[e1]) {
        return None;
    }
    let q = e1 + 1;
    let b = if q < cs.len() && cs[q] == '-' {
        q + 1
    } else {
        q
    };
    let e3 = run_end(cs, b);
    proof {
        assert forall|f1: int, f3: int| match_at(cs@, p as int, f1, f3) implies f3 == e3 by {
            lemma_digit_run_unique(cs@, b as int, e3 as int, f3);
        }
    }
    if e3 == b {
        return None;
    }
    Some((e1, e3))
}

/// The characters of `s` other than spaces.
fn drop_spaces(s: &str) -> (r: Vec<char>)
    ensures
        r@ == without_spaces(s@),
{
    let cs = chars_of(s);
    let mut r: Vec<char> = Vec::new();
    let mut i: usize = 0;
    assert(cs@.subrange(0, 0) =~= Seq::<char>::empty());
    while i < cs.len()
        invariant
            cs@ == s@,
            i <= cs@.len(),
            r@ == without_spaces(cs@.subrange(0, i as int)),
        decreases cs@.len() - i,
    {
        proof {
            let t = cs@.subrange(0, i + 1);
            assert(t.drop_last() =~= cs@.subrange(0, i as int));
        }
        if cs[i] != ' ' {
            r.push(cs[i]);
        }
        i = i + 1;
    }
    assert(cs@.subrange(0, cs@.len() as int) =~= cs@);
    r
}

/// What remains of `a` after taking `trunc_div(a, b)` times `b` is smaller
/// than `b` in size and, unless zero, has the sign of `a`.
proof fn lemma_trunc_div_remainder(a: int, b: int)
    requires
        b != 0,
    ensures
        abs(a - trunc_div(a, b) * b) < abs(b),
        a - trunc_div(a, b) * b == 0 || ((a - trunc_div(a, b) * b < 0) <==> (a < 0)),
{
    let ua = abs(a);
    let ub = abs(b);
    let q = ua / ub;
    let r = ua % ub;
    vstd::arithmetic::div_mod::lemma_fundamental_div_mod(ua, ub);
    assert(0 <= r < ub) by {
        vstd::arithmetic::div_mod::lemma_mod_pos_bound(ua, ub);
    }
    assert(ua == ub * q + r);
    if a >= 0 && b > 0 {
        assert(a - q * b == r) by (nonlinear_arith)
            requires ua == a, ub == b, ua == ub * q + r;
    } else if a < 0 && b < 0 {
        assert(a - q * b == -r) by (nonlinear_arith)
            requires ua == -a, ub == -b, ua == ub * q + r;
    } else if a >= 0 && b < 0 {
        assert(a - (-q) * b == r) by (nonlinear_arith)
            requires ua == a, ub == -b, ua == ub * q + r;
    } else {
        assert(a - (-q) * b == -r) by (nonlinear_arith)
            requires ua == -a, ub == b, ua == ub * q + r;
    }
}

/// What the calculator answers for a line with an expression `x op y`:
/// the sum, difference or product of the two numbers, and for `/` the
/// quotient rounded toward zero, as Rust divides integers: the remainder
/// `x - r * y` is smaller than `y` in size and, unless zero, has the sign
/// of `x`. A line without an expression gives -1.
pub proof fn lemma_calculation_arithmetic(line: Seq<char>)
    ensures
        !has_expression(without_spaces(line)) ==> calculation(line) == -1,
        has_expression(without_spaces(line)) && operands(without_spaces(line)) is Some ==> ({
            let (x, op, y) = operands(without_spaces(line))->0;
            let r = calculation(line);
            &&& op == '+' ==> r == x + y
            &&& op == '-' ==> r == x - y
            &&& op == '*' ==> r == x * y
            &&& op == '/' && y != 0 ==> abs(x - r * y) < abs(y) && (x - r * y == 0 || ((x - r * y < 0) <==> (x < 0)))
        }),
{
    let s = without_spaces(line);
    if has_expression(s) {
        if let Some((x, op, y)) = operands(s) {
            if op == '/' && y != 0 {
                lemma_trunc_div_remainder(x, y);
            }
        }
    }
}

/// Evaluates the first expression of a line (spaces are ignored); -1
/// where there is none, or its operator is `,` or `.`.
pub fn calculator_str(string: &str) -> (r: i32)
    requires
        calculation_defined(string@),
    ensures
        r == calculation(string@),
{
    let cs = drop_spaces(string);
    let ghost s = cs@;
    let mut p: usize = 0;
    while p < cs.len()
        invariant
            s == cs@,
            s == without_spaces(string@),
            calculation_defined(string@),
            p <= s.len(),
            forall|q: int| 0 <= q < p ==> !matches_at(s, q),
        decreases s.len() - p,
    {
        match match_here(cs.as_slice(), p) {
            None => {},
            Some((e1, e3)) => {
                proof {
                    lemma_leftmost_unique(s, p as int, e1 as int, e3 as int);
                }
                let x = match parse_signed_chars(&cs[p..e1], i32::MIN as i64, i32::MAX as i64) {
                    Some(v) => v,
                    None => {
                        proof {
                            assert(false);
                        }
                        0
                    },
                };
                let y = match parse_signed_chars(&cs[e1 + 1..e3], i32::MIN as i64, i32::MAX as i64) {
                    Some(v) => v,
                    None => {
                        proof {
                            assert(false);
                        }
                        0
                    },
                };
                proof {
                    lemma_parse_signed_bounds(s.subrange(p as int, e1 as int), i32::MIN as int, i32::MAX as int);
                    lemma_parse_signed_bounds(s.subrange(e1 + 1, e3 as int), i32::MIN as int, i32::MAX as int);
                }
                let op = cs[e1];
                if op == '+' {
                    return (x + y) as i32;
                } else if op == '-' {
                    return (x - y) as i32;
                } else if op == '*' {
                    assert(-2147483648 <= x <= 2147483647 && -2147483648 <= y <= 2147483647);
                    assert(-4611686018427387904 <= x * y <= 4611686018427387904) by (nonlinear_arith)
                        requires
                            -2147483648 <= x <= 2147483647,
                            -2147483648 <= y <= 2147483647,
                    ;
                    return (x * y) as i32;
                } else if op == '/' {
                    let ax: u64 = if x < 0 {
                        (0 - x) as u64
                    } else {
                        x as u64
                    };
                    let ay: u64 = if y < 0 {
                        (0 - y) as u64
                    } else {
                        y as u64
                    };
                    let q = (ax / ay) as i64;
                    assert(q <= ax);
                    if (x < 0) != (y < 0) {
                        return (0 - q) as i32;
                    } else {
                        return q as i32;
                    }
                } else {
                    return -1;
                }
            },
        }
        p = p + 1;
    }
    proof {
        if has_expression(s) {
            let (q, f1, f3) = expression(s);
            assert(leftmost(s, q, f1, f3));
            assert(matches_at(s, q));
        }
    }
    -1
}

/// Whether `calculator_str` evaluates `string` to the end
/// (`calculation_defined`): ASCII text whose first expression has numbers
/// that fit in `i32` and an operation that neither overflows nor divides
/// by zero.
pub fn calculation_completes(string: &str) -> (b: bool)
    ensures
        b == calculation_defined(string@),
{
    let cs = drop_spaces(string);
    let ghost s = cs@;
    let mut p: usize = 0;
    while p < cs.len()
        invariant
            s == cs@,
            s == without_spaces(string@),
            p <= s.len(),
            forall|q: int| 0 <= q < p ==> !matches_at(s, q),
        decreases s.len() - p,
    {
        match match_here(cs.as_slice(), p) {
            None => {},
            Some((e1, e3)) => {
                proof {
                    lemma_leftmost_unique(s, p as int, e1 as int, e3 as int);
                }
                let x = match parse_signed_chars(&cs[p..e1], i32::MIN as i64, i32::MAX as i64) {
                    Some(v) => v,
                    None => return false,
                };
                let y = match parse_signed_chars(&cs[e1 + 1..e3], i32::MIN as i64, i32::MAX as i64) {
                    Some(v) => v,
                    None => return false,
                };
                proof {
                    lemma_parse_signed_bounds(s.subrange(p as int, e1 as int), i32::MIN as int, i32::MAX as int);
                    lemma_parse_signed_bounds(s.subrange(e1 + 1, e3 as int), i32::MIN as int, i32::MAX as int);
                }
                let op = cs[e1];
                let lo = i32::MIN as i64;
                let hi = i32::MAX as i64;
                if op == '+' {
                    return lo <= x + y && x + y <= hi;
                } else if op == '-' {
                    return lo <= x - y && x - y <= hi;
                } else if op == '*' {
                    assert(-4611686018427387904 <= x * y <= 4611686018427387904) by (nonlinear_arith)
                        requires
                            -2147483648 <= x <= 2147483647,
                            -2147483648 <= y <= 2147483647,
                    ;
                    return lo <= x * y && x * y <= hi;
                } else if op == '/' {
                    if y == 0 {
                        return false;
                    }
                    let ax: u64 = if x < 0 {
                        (0 - x) as u64
                    } else {
                        x as u64
                    };
                    let ay: u64 = if y < 0 {
                        (0 - y) as u64
                    } else {
                        y as u64
                    };
                    let q = (ax / ay) as i64;
                    assert(q <= ax);
                    let t = if (x < 0) != (y < 0) {
                        0 - q
                    } else {
                        q
                    };
                    return lo <= t && t <= hi;
                } else {
                    return true;
                }
            },
        }
        p = p + 1;
    }
    proof {
        if has_expression(s) {
            let (q, f1, f3) = expression(s);
            assert(leftmost(s, q, f1, f3));
            assert(matches_at(s, q));
        }
    }
    true
}

/// The characters of the pieces, one after another.
pub open spec fn joined(v: Seq<&str>) -> Seq<char>
    decreases v.len(),
{
    if v.len() == 0 {
        Seq::empty()
    } else {
        joined(v.drop_last()) + v.last()@
    }
}

/// Evaluates the pieces joined into one line.
pub fn calculator_str_list(string: &[&str]) -> (r: i32)
    requires
        calculation_defined(joined(string@)),
    ensures
        r == calculation(joined(string@)),
{
    let mut line = String::new();
    let mut i: usize = 0;
    assert(string@.subrange(0, 0) =~= Seq::<&str>::empty());
    while i < string.len()
        invariant
            i <= string@.len(),
            line@ == joined(string@.subrange(0, i as int)),
        decreases string@.len() - i,
    {
        proof {
            assert(string@.subrange(0, i + 1).drop_last() =~= string@.subrange(0, i as int));
        }
        line.append(string[i]);
        i = i + 1;
    }
    assert(string@.subrange(0, string@.len() as int) =~= string@);
    calculator_str(line.as_str())
}

} // verus!
