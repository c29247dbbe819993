//! Character-level helpers shared by the command parsers: Unicode white
//! space, trimming, conversion between strings and character vectors, and
//! the textual integer syntax that `str::parse` accepts.

use vstd::prelude::*;
use vstd::string::StrSliceExecFns;

verus! {

/// The characters with the Unicode `White_Space` property.
pub open spec fn is_white_space(c: char) -> bool {
    let n = c as u32;
    ||| 9 <= n <= 13
    ||| n == 32
    ||| n == 0x85
    ||| n == 0xa0
    ||| n == 0x1680
    ||| 0x2000 <= n <= 0x200a
    ||| n == 0x2028
    ||| n == 0x2029
    ||| n == 0x202f
    ||| n == 0x205f
    ||| n == 0x3000
}

/// ASCII white space: space, tab, line feed, form feed, carriage return.
pub open spec fn is_ascii_white_space(c: char) -> bool {
    let n = c as u32;
    n == 32 || n == 9 || n == 10 || n == 12 || n == 13
}

pub open spec fn is_ascii_digit(c: char) -> bool {
    '0' as u32 <= c as u32 <= '9' as u32
}

pub fn char_is_white_space(c: char) -> (b: bool)
    ensures
        b == is_white_space(c),
{
    let n = c as u32;
    (9 <= n && n <= 13) || n == 32 || n == 0x85 || n == 0xa0 || n == 0x1680 || (0x2000 <= n && n
        <= 0x200a) || n == 0x2028 || n == 0x2029 || n == 0x202f || n == 0x205f || n == 0x3000
}

pub fn char_is_ascii_white_space(c: char) -> (b: bool)
    ensures
        b == is_ascii_white_space(c),
{
    let n = c as u32;
    n == 32 || n == 9 || n == 10 || n == 12 || n == 13
}

pub fn char_is_ascii_digit(c: char) -> (b: bool)
    ensures
        b == is_ascii_digit(c),
{
    let n = c as u32;
    48 <= n && n <= 57
}

/// `s` without its leading white space.
pub open spec fn trim_start_chars(s: Seq<char>) -> Seq<char>
    decreases s.len(),
{
    if s.len() > 0 && is_white_space(s[0]) {
        trim_start_chars(s.drop_first())
    } else {
        s
    }
}

/// `s` without its trailing white space.
pub open spec fn trim_end_chars(s: Seq<char>) -> Seq<char>
    decreases s.len(),
{
    if s.len() > 0 && is_white_space(s.last()) {
        trim_end_chars(s.drop_last())
    } else {
        s
    }
}

/// `s` without leading and trailing white space, as `str::trim` gives it.
pub open spec fn trim_chars(s: Seq<char>) -> Seq<char> {
    trim_end_chars(trim_start_chars(s))
}

/// The characters of `s`, in order.
pub fn chars_of(s: &str) -> (v: Vec<char>)
    ensures
        v@ == s@,
{
    let n = s.unicode_len();
    let mut v: Vec<char> = Vec::new();
    let mut i: usize = 0;
    while i < n
        invariant
            n == s@.len(),
            i <= n,
            v@ == s@.subrange(0, i as int),
        decreases n - i,
    {
        v.push(s.get_char(i));
        i = i + 1;
    }
    v
}

/// Appends one character to a string (`String::push`).
#[verifier::external_body]
pub(crate) fn push_char(s: &mut String, c: char)
    ensures
        final(s)@ == old(s)@.push(c),
{
    s.push(c);
}

/// A string holding the characters of `cs`.
pub fn string_from_chars(cs: &[char]) -> (r: String)
    ensures
        r@ == cs@,
{
    let mut r = String::new();
    let mut i: usize = 0;
    while i < cs.len()
        invariant
            i <= cs@.len(),
            r@ == cs@.subrange(0, i as int),
        decreases cs@.len() - i,
    {
        push_char(&mut r, cs[i]);
        i = i + 1;
    }
    r
}

proof fn lemma_trim_start_step(s: Seq<char>, i: int)
    requires
        0 <= i < s.len(),
        is_white_space(s[i]),
    ensures
        trim_start_chars(s.subrange(i, s.len() as int)) == trim_start_chars(
            s.subrange(i + 1, s.len() as int),
        ),
{
    assert(s.subrange(i, s.len() as int).drop_first() =~= s.subrange(i + 1, s.len() as int));
}

proof fn lemma_trim_end_step(s: Seq<char>, i: int, j: int)
    requires
        0 <= i < j <= s.len(),
        is_white_space(s[j - 1]),
    ensures
        trim_end_chars(s.subrange(i, j)) == trim_end_chars(s.subrange(i, j - 1)),
{
    assert(s.subrange(i, j).drop_last() =~= s.subrange(i, j - 1));
}

/// Position bounds of the trimmed part of a character sequence.
pub fn trim_bounds(cs: &[char]) -> (r: (usize, usize))
    ensures
        r.0 <= r.1 <= cs@.len(),
        cs@.subrange(r.0 as int, r.1 as int) == trim_chars(cs@),
{
    let n = cs.len();
    let mut i: usize = 0;
    assert(cs@.subrange(0, n as int) =~= cs@);
    while i < n && char_is_white_space(cs[i])
        invariant
            n == cs@.len(),
            i <= n,
            trim_start_chars(cs@) == trim_start_chars(cs@.subrange(i as int, n as int)),
        decreases n - i,
    {
        proof {
            lemma_trim_start_step(cs@, i as int);
        }
        i = i + 1;
    }
    proof {
        if i < n {
            assert(!is_white_space(cs@.subrange(i as int, n as int)[0]));
        }
    }
    assert(trim_start_chars(cs@) == cs@.subrange(i as int, n as int));
    let mut j: usize = n;
    while j > i && char_is_white_space(cs[j - 1])
        invariant
            n == cs@.len(),
            i <= j <= n,
            trim_chars(cs@) == trim_end_chars(cs@.subrange(i as int, j as int)),
        decreases j - i,
    {
        proof {
            lemma_trim_end_step(cs@, i as int, j as int);
        }
        j = j - 1;
    }
    proof {
        let t = cs@.subrange(i as int, j as int);
        if j > i {
            assert(t.last() == cs@[j - 1]);
        }
    }
    (i, j)
}

/// `s` with leading and trailing white space removed (`str::trim`).
pub fn trim(s: &str) -> (r: String)
    ensures
        r@ == trim_chars(s@),
{
    let cs = chars_of(s);
    let (a, b) = trim_bounds(cs.as_slice());
    let r = s.substring_char(a, b);
    r.to_string()
}

// ---------------------------------------------------------------------
// Integer syntax of `str::parse`
// ---------------------------------------------------------------------

/// Numeric value of a string of decimal digits.
pub open spec fn digits_value(s: Seq<char>) -> int
    decreases s.len(),
{
    if s.len() == 0 {
        0
    } else {
        digits_value(s.drop_last()) * 10 + (s.last() as u32 - '0' as u32)
    }
}

pub open spec fn all_digits(s: Seq<char>) -> bool {
    forall|i: int| 0 <= i < s.len() ==> is_ascii_digit(#[trigger] s[i])
}

/// The digits of an unsigned number: an optional leading `+` is dropped.
pub open spec fn unsigned_digits(s: Seq<char>) -> Seq<char> {
    if s.len() > 0 && s[0] == '+' {
        s.drop_first()
    } else {
        s
    }
}

/// What `s.parse::<uN>()` gives, for an unsigned type whose largest value is `max`.
pub open spec fn spec_parse_unsigned(s: Seq<char>, max: int) -> Option<int> {
    let d = unsigned_digits(s);
    if d.len() > 0 && all_digits(d) && digits_value(d) <= max {
        Some(digits_value(d))
    } else {
        None
    }
}

/// What `s.parse::<iN>()` gives, for a signed type with bounds `min` and `max`.
pub open spec fn spec_parse_signed(s: Seq<char>, min: int, max: int) -> Option<int> {
    if s.len() > 0 && s[0] == '-' {
        let d = s.drop_first();
        if d.len() > 0 && all_digits(d) && -digits_value(d) >= min {
            Some(-digits_value(d))
        } else {
            None
        }
    } else {
        spec_parse_unsigned(s, max)
    }
}

proof fn lemma_digits_value_nonneg(s: Seq<char>)
    requires
        all_digits(s),
    ensures
        digits_value(s) >= 0,
    decreases s.len(),
{
    if s.len() > 0 {
        assert(is_ascii_digit(s[s.len() - 1]));
        assert(all_digits(s.drop_last()));
        lemma_digits_value_nonneg(s.drop_last());
    }
}

proof fn lemma_digits_value_grows(s: Seq<char>, k: int, j: int)
    requires
        all_digits(s),
        0 <= k <= j <= s.len(),
    ensures
        digits_value(s.subrange(0, k)) <= digits_value(s.subrange(0, j)),
    decreases j - k,
{
    if k < j {
        lemma_digits_value_grows(s, k, j - 1);
        let t = s.subrange(0, j);
        assert(t.drop_last() =~= s.subrange(0, j - 1));
        assert(all_digits(s.subrange(0, j - 1)));
        lemma_digits_value_nonneg(s.subrange(0, j - 1));
        assert(is_ascii_digit(s[j - 1]));
    }
}

/// Value of the decimal digits `cs[start..]`, or `None` when a character
/// is not a digit, there is none, or the value exceeds `max`.
fn digits_to_value(cs: &[char], start: usize, max: u64) -> (r: Option<u64>)
    requires
        start <= cs@.len(),
    ensures
        ({
            let d = cs@.subrange(start as int, cs@.len() as int);
            match r {
                Some(v) => d.len() > 0 && all_digits(d) && digits_value(d) <= max && v
                    == digits_value(d),
                None => !(d.len() > 0 && all_digits(d) && digits_value(d) <= max),
            }
        }),
{
    let ghost d = cs@.subrange(start as int, cs@.len() as int);
    let n = cs.len();
    if start == n {
        return None;
    }
    let mut i: usize = start;
    let mut acc: u128 = 0;
    while i < n
        invariant
            start <= i <= n,
            n == cs@.len(),
            d == cs@.subrange(start as int, n as int),
            all_digits(d.subrange(0, i - start)),
            acc == digits_value(d.subrange(0, i - start)),
            acc <= max,
        decreases n - i,
    {
        let c = cs[i];
        if !char_is_ascii_digit(c) {
            assert(d[i - start] == c);
            return None;
        }
        let dv = (c as u32 - 48) as u128;
        acc = acc * 10 + dv;
        proof {
            let t = d.subrange(0, i + 1 - start);
            assert(t.drop_last() =~= d.subrange(0, i - start));
            assert(t.last() == c);
            assert(all_digits(t)) by {
                assert forall|k: int| 0 <= k < t.len() implies is_ascii_digit(#[trigger] t[k]) by {
                    if k < t.len() - 1 {
                        assert(t[k] == d.subrange(0, i - start)[k]);
                    }
                }
            }
        }
        i = i + 1;
        if acc > max as u128 {
            proof {
                if all_digits(d) {
                    lemma_digits_value_grows(d, i - start, d.len() as int);
                    assert(d.subrange(0, d.len() as int) =~= d);
                }
            }
            return None;
        }
    }
    assert(d.subrange(0, n - start) =~= d);
    Some(acc as u64)
}

/// A parsed signed number lies within the bounds it was parsed for.
pub proof fn lemma_parse_signed_bounds(s: Seq<char>, min: int, max: int)
    requires
        min < 0 <= max,
        spec_parse_signed(s, min, max) is Some,
    ensures
        min <= spec_parse_signed(s, min, max)->0 <= max,
{
    if s.len() > 0 && s[0] == '-' {
        lemma_digits_value_nonneg(s.drop_first());
    } else {
        lemma_digits_value_nonneg(unsigned_digits(s));
    }
}

/// `cs.parse::<uN>()` for an unsigned type whose largest value is `max`.
pub fn parse_unsigned_chars(cs: &[char], max: u64) -> (r: Option<u64>)
    ensures
        match r {
            Some(v) => spec_parse_unsigned(cs@, max as int) == Some(v as int),
            None => spec_parse_unsigned(cs@, max as int) is None,
        },
{
    if cs.len() > 0 && cs[0] == '+' {
        assert(cs@.subrange(1, cs@.len() as int) =~= cs@.drop_first());
        digits_to_value(cs, 1, max)
    } else {
        assert(cs@.subrange(0, cs@.len() as int) =~= cs@);
        digits_to_value(cs, 0, max)
    }
}

/// `cs.parse::<iN>()` for a signed type with bounds `min < 0 <= max`.
pub fn parse_signed_chars(cs: &[char], min: i64, max: i64) -> (r: Option<i64>)
    requires
        min < 0 <= max,
    ensures
        match r {
            Some(v) => spec_parse_signed(cs@, min as int, max as int) == Some(v as int),
            None => spec_parse_signed(cs@, min as int, max as int) is None,
        },
{
    if cs.len() > 0 && cs[0] == '-' {
        assert(cs@.subrange(1, cs@.len() as int) =~= cs@.drop_first());
        let bound = (0i128 - min as i128) as u64;
        match digits_to_value(cs, 1, bound) {
            Some(v) => Some((0i128 - v as i128) as i64),
            None => None,
        }
    } else {
        match parse_unsigned_chars(cs, max as u64) {
            Some(v) => Some(v as i64),
            None => None,
        }
    }
}

/// `s.parse::<usize>()`, as an `Option`.
pub fn parse_usize(s: &str) -> (r: Option<usize>)
    ensures
        match r {
            Some(v) => spec_parse_unsigned(s@, usize::MAX as int) == Some(v as int),
            None => spec_parse_unsigned(s@, usize::MAX as int) is None,
        },
{
    let cs = chars_of(s);
    match parse_unsigned_chars(cs.as_slice(), usize::MAX as u64) {
        Some(v) => Some(v as usize),
        None => None,
    }
}

/// The pieces of `s` between occurrences of `sep`, as `str::split(sep)`
/// gives them (an empty string gives one empty piece).
pub open spec fn split_chars(s: Seq<char>, sep: char) -> Seq<Seq<char>>
    decreases s.len(),
{
    if s.len() == 0 {
        seq![Seq::<char>::empty()]
    } else {
        let r = split_chars(s.drop_last(), sep);
        if s.last() == sep {
            r.push(Seq::<char>::empty())
        } else {
            r.update(r.len() - 1, r.last().push(s.last()))
        }
    }
}

pub proof fn lemma_split_chars_nonempty(s: Seq<char>, sep: char)
    ensures
        split_chars(s, sep).len() >= 1,
    decreases s.len(),
{
    if s.len() > 0 {
        lemma_split_chars_nonempty(s.drop_last(), sep);
    }
}

/// `cs` split at every occurrence of `sep`.
pub fn split_on(cs: &[char], sep: char) -> (r: Vec<Vec<char>>)
    ensures
        r@.len() == split_chars(cs@, sep).len(),
        forall|i: int| 0 <= i < r@.len() ==> (#[trigger] r@[i])@ == split_chars(cs@, sep)[i],
{
    let mut r: Vec<Vec<char>> = Vec::new();
    let mut cur: Vec<char> = Vec::new();
    let mut i: usize = 0;
    assert(cs@.subrange(0, 0) =~= Seq::<char>::empty());
    while i < cs.len()
        invariant
            i <= cs@.len(),
            ({
                let sp = split_chars(cs@.subrange(0, i as int), sep);
                &&& sp.len() == r@.len() + 1
                &&& forall|q: int| 0 <= q < r@.len() ==> (#[trigger] r@[q])@ == sp[q]
                &&& cur@ == sp.last()
            }),
        decreases cs@.len() - i,
    {
        let c = cs[i];
        proof {
            let t = cs@.subrange(0, i + 1);
            assert(t.drop_last() =~= cs@.subrange(0, i as int));
            assert(t.last() == c);
            lemma_split_chars_nonempty(cs@.subrange(0, i as int), sep);
        }
        if c == sep {
            let done = cur;
            r.push(done);
            cur = Vec::new();
        } else {
            cur.push(c);
        }
        i = i + 1;
    }
    assert(cs@.subrange(0, cs@.len() as int) =~= cs@);
    r.push(cur);
    r
}


// ---------------------------------------------------------------------
// Splitting at runs of white space
// ---------------------------------------------------------------------

/// Separator test of `split_ascii_whitespace` (`ascii`) or `split_whitespace`.
pub open spec fn is_separator(c: char, ascii: bool) -> bool {
    if ascii {
        is_ascii_white_space(c)
    } else {
        is_white_space(c)
    }
}

pub fn char_is_separator(c: char, ascii: bool) -> (b: bool)
    ensures
        b == is_separator(c, ascii),
{
    if ascii {
        char_is_ascii_white_space(c)
    } else {
        char_is_white_space(c)
    }
}

/// The maximal runs of non-separator characters of `s`, in order: what
/// `split_ascii_whitespace` (`ascii`) or `split_whitespace` yields.
pub open spec fn tokens(s: Seq<char>, ascii: bool) -> Seq<Seq<char>>
    decreases s.len(),
{
    if s.len() == 0 {
        Seq::empty()
    } else {
        let r = tokens(s.drop_last(), ascii);
        let c = s.last();
        if is_separator(c, ascii) {
            r
        } else if s.len() >= 2 && !is_separator(s[s.len() - 2], ascii) {
            r.update(r.len() - 1, r.last().push(c))
        } else {
            r.push(seq![c])
        }
    }
}

/// A string whose last character is not a separator has at least one token.
pub proof fn lemma_tokens_nonempty(s: Seq<char>, ascii: bool)
    requires
        s.len() > 0,
        !is_separator(s.last(), ascii),
    ensures
        tokens(s, ascii).len() > 0,
    decreases s.len(),
{
    if s.len() >= 2 && !is_separator(s[s.len() - 2], ascii) {
        lemma_tokens_nonempty(s.drop_last(), ascii);
    }
}

/// The tokens of `cs`, each as its characters.
pub fn split_tokens(cs: &[char], ascii: bool) -> (r: Vec<Vec<char>>)
    ensures
        r@.len() == tokens(cs@, ascii).len(),
        forall|q: int| 0 <= q < r@.len() ==> (#[trigger] r@[q])@ == tokens(cs@, ascii)[q],
{
    let mut r: Vec<Vec<char>> = Vec::new();
    let mut cur: Vec<char> = Vec::new();
    let mut in_token = false;
    let mut i: usize = 0;
    while i < cs.len()
        invariant
            i <= cs@.len(),
            in_token <==> (i > 0 && !is_separator(cs@[i - 1], ascii)),
            ({
                let t = tokens(cs@.subrange(0, i as int), ascii);
                &&& t.len() == r@.len() + (if in_token { 1int } else { 0int })
                &&& forall|q: int| 0 <= q < r@.len() ==> (#[trigger] r@[q])@ == t[q]
                &&& in_token ==> cur@ == t.last()
            }),
        decreases cs@.len() - i,
    {
        let c = cs[i];
        proof {
            let p = cs@.subrange(0, i + 1);
            assert(p.drop_last() =~= cs@.subrange(0, i as int));
            assert(p.last() == c);
            if i > 0 {
                assert(p[p.len() - 2] == cs@[i - 1]);
            }
        }
        if char_is_separator(c, ascii) {
            if in_token {
                let done = cur;
                r.push(done);
                cur = Vec::new();
                in_token = false;
            }
        } else if in_token {
            cur.push(c);
        } else {
            cur = Vec::new();
            cur.push(c);
            in_token = true;
        }
        i = i + 1;
    }
    if in_token {
        r.push(cur);
    }
    assert(cs@.subrange(0, cs@.len() as int) =~= cs@);
    r
}


/// `cs` spells `lit`.
pub fn spells(cs: &[char], lit: &str) -> (b: bool)
    ensures
        b == (cs@ == lit@),
{
    let n = lit.unicode_len();
    if cs.len() != n {
        return false;
    }
    let mut i: usize = 0;
    while i < n
        invariant
            n == lit@.len() == cs@.len(),
            i <= n,
            forall|q: int| 0 <= q < i ==> cs@[q] == lit@[q],
        decreases n - i,
    {
        if cs[i] != lit.get_char(i) {
            return false;
        }
        i = i + 1;
    }
    assert(cs@ =~= lit@);
    true
}


// ---------------------------------------------------------------------
// Decimal text of integers (their `Display`)
// ---------------------------------------------------------------------

/// The decimal digit of `d`, for `d < 10`.
pub open spec fn digit_char(d: nat) -> char {
    (('0' as u32) + d) as char
}

/// The decimal text of `n`, without leading zeros.
pub open spec fn decimal(n: nat) -> Seq<char>
    decreases n,
{
    if n < 10 {
        seq![digit_char(n)]
    } else {
        decimal(n / 10).push(digit_char(n % 10))
    }
}

/// The decimal text of `n`, with a `-` before a negative number.
pub open spec fn signed_decimal(n: int) -> Seq<char> {
    if n < 0 {
        seq!['-'] + decimal((-n) as nat)
    } else {
        decimal(n as nat)
    }
}

/// Appends the decimal text of `n`.
pub fn push_decimal(s: &mut String, n: u64)
    ensures
        final(s)@ == old(s)@ + decimal(n as nat),
    decreases n,
{
    if n >= 10 {
        push_decimal(s, n / 10);
    }
    let d = (n % 10) as u32;
    let c = char_of_digit(d);
    push_char(s, c);
    proof {
        if n >= 10 {
            assert(decimal(n as nat) == decimal((n / 10) as nat).push(digit_char((n % 10) as nat)));
        }
    }
}

fn char_of_digit(d: u32) -> (c: char)
    requires
        d < 10,
    ensures
        c == digit_char(d as nat),
{
    match d {
        0 => '0',
        1 => '1',
        2 => '2',
        3 => '3',
        4 => '4',
        5 => '5',
        6 => '6',
        7 => '7',
        8 => '8',
        _ => '9',
    }
}

/// Appends the decimal text of `n`, with its sign.
pub fn push_signed_decimal(s: &mut String, n: i64)
    ensures
        final(s)@ == old(s)@ + signed_decimal(n as int),
{
    if n < 0 {
        push_char(s, '-');
        let m: u64 = (0i128 - n as i128) as u64;
        push_decimal(s, m);
        assert(s@ =~= old(s)@ + signed_decimal(n as int));
    } else {
        push_decimal(s, n as u64);
    }
}

} // verus!
