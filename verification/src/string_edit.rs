//! A line editor: commands that set, clear, cut and grow a string, change
//! its case, and apply a Vigenère cipher to its bytes.
use vstd::prelude::*;
use vstd::string::StringExecFns;

use crate::text::{spells, chars_of, push_char, string_from_chars, tokens, split_tokens, spec_parse_unsigned, parse_unsigned_chars};

verus! {

// ---------------------------------------------------------------------
// UTF-8
// ---------------------------------------------------------------------

/// Number of bytes that encode `c` in UTF-8.
pub open spec fn utf8_width(c: char) -> nat {
    let n = c as u32;
    if n < 0x80 {
        1
    } else if n < 0x800 {
        2
    } else if n < 0x10000 {
        3
    } else {
        4
    }
}

/// The UTF-8 encoding of one character.
pub open spec fn utf8_of(c: char) -> Seq<u8> {
    let n = c as u32;
    if n < 0x80 {
        seq![c as u8]
    } else if n < 0x800 {
        seq![(0xC0u32 | (n >> 6u32)) as u8, (0x80u32 | (n & 0x3Fu32)) as u8]
    } else if n < 0x10000 {
        seq![
            (0xE0u32 | (n >> 12u32)) as u8,
            (0x80u32 | ((n >> 6u32) & 0x3Fu32)) as u8,
            (0x80u32 | (n & 0x3Fu32)) as u8,
        ]
    } else {
        seq![
            (0xF0u32 | (n >> 18u32)) as u8,
            (0x80u32 | ((n >> 12u32) & 0x3Fu32)) as u8,
            (0x80u32 | ((n >> 6u32) & 0x3Fu32)) as u8,
            (0x80u32 | (n & 0x3Fu32)) as u8,
        ]
    }
}

/// The UTF-8 encoding of a string: its bytes, as `str::as_bytes` gives them.
pub open spec fn utf8(s: Seq<char>) -> Seq<u8>
    decreases s.len(),
{
    if s.len() == 0 {
        Seq::empty()
    } else {
        utf8(s.drop_last()) + utf8_of(s.last())
    }
}

/// The character at byte offset `b` of `s` starts at character `m`
/// (`m == s.len()` for the end of the string).
pub open spec fn boundary_at(s: Seq<char>, b: int, m: int) -> bool {
    0 <= m <= s.len() && utf8(s.subrange(0, m)).len() == b
}

/// Byte offset `b` falls on a character boundary of `s`.
pub open spec fn is_boundary(s: Seq<char>, b: int) -> bool {
    exists|m: int| boundary_at(s, b, m)
}

/// The character index of byte offset `b`, where it is a boundary.
pub open spec fn char_index(s: Seq<char>, b: int) -> int {
    choose|m: int| boundary_at(s, b, m)
}

proof fn lemma_utf8_of_len(c: char)
    ensures
        utf8_of(c).len() == utf8_width(c),
        1 <= utf8_width(c) <= 4,
{
}

/// The encoding of a prefix grows with the prefix.
proof fn lemma_utf8_prefix_grows(s: Seq<char>, m: int, n: int)
    requires
        0 <= m < n <= s.len(),
    ensures
        utf8(s.subrange(0, m)).len() < utf8(s.subrange(0, n)).len(),
    decreases n - m,
{
    let p = s.subrange(0, n);
    assert(p.drop_last() =~= s.subrange(0, n - 1));
    lemma_utf8_of_len(p.last());
    if m < n - 1 {
        lemma_utf8_prefix_grows(s, m, n - 1);
    }
}

proof fn lemma_boundary_unique(s: Seq<char>, b: int, m: int)
    requires
        boundary_at(s, b, m),
    ensures
        char_index(s, b) == m,
{
    let w = char_index(s, b);
    assert(boundary_at(s, b, w));
    if w < m {
        lemma_utf8_prefix_grows(s, w, m);
    } else if m < w {
        lemma_utf8_prefix_grows(s, m, w);
    }
}

/// The character index of byte offset `b` of `cs`, where `b` is a
/// character boundary.
fn find_boundary(cs: &[char], b: usize) -> (r: Option<usize>)
    ensures
        match r {
            Some(m) => boundary_at(cs@, b as int, m as int) && char_index(cs@, b as int) == m,
            None => !is_boundary(cs@, b as int),
        },
{
    let mut m: usize = 0;
    let mut off: usize = 0;
    assert(cs@.subrange(0, 0) =~= Seq::<char>::empty());
    while m < cs.len() && off < b
        invariant
            m <= cs@.len(),
            off == utf8(cs@.subrange(0, m as int)).len(),
            off <= b || m == 0,
            forall|q: int| 0 <= q < m ==> utf8(cs@.subrange(0, q)).len() < b,
        decreases cs@.len() - m,
    {
        let c = cs[m];
        let n = c as u32;
        let w: usize = if n < 0x80 {
            1
        } else if n < 0x800 {
            2
        } else if n < 0x10000 {
            3
        } else {
            4
        };
        proof {
            let p = cs@.subrange(0, m + 1);
            assert(p.drop_last() =~= cs@.subrange(0, m as int));
            lemma_utf8_of_len(c);
        }
        if w > b - off {
            proof {
                assert forall|q: int| #![auto] m < q <= cs@.len() implies utf8(cs@.subrange(0, q)).len() > b by {
                    if q > m + 1 {
                        lemma_utf8_prefix_grows(cs@, m + 1, q);
                    }
                }
                assert forall|q: int| !boundary_at(cs@, b as int, q) by {
                    if 0 <= q <= cs@.len() && q < m {
                        assert(utf8(cs@.subrange(0, q)).len() < b);
                    }
                }
            }
            return None;
        }
        off = off + w;
        m = m + 1;
    }
    if off == b {
        proof {
            lemma_boundary_unique(cs@, b as int, m as int);
        }
        Some(m)
    } else {
        proof {
            assert forall|q: int| !boundary_at(cs@, b as int, q) by {
                if 0 <= q <= cs@.len() {
                    if q < m {
                        assert(utf8(cs@.subrange(0, q)).len() < b);
                    } else if q > m {
                        lemma_utf8_prefix_grows(cs@, m as int, q);
                    }
                }
            }
        }
        None
    }
}

/// The bytes of `cs` in UTF-8.
pub fn utf8_bytes(cs: &[char]) -> (r: Vec<u8>)
    ensures
        r@ == utf8(cs@),
{
    let mut r: Vec<u8> = Vec::new();
    let mut i: usize = 0;
    assert(cs@.subrange(0, 0) =~= Seq::<char>::empty());
    while i < cs.len()
        invariant
            i <= cs@.len(),
            r@ == utf8(cs@.subrange(0, i as int)),
        decreases cs@.len() - i,
    {
        let c = cs[i];
        let n = c as u32;
        if n < 0x80 {
            r.push(c as u8);
        } else if n < 0x800 {
            r.push((0xC0u32 | (n >> 6u32)) as u8);
            r.push((0x80u32 | (n & 0x3Fu32)) as u8);
        } else if n < 0x10000 {
            r.push((0xE0u32 | (n >> 12u32)) as u8);
            r.push((0x80u32 | ((n >> 6u32) & 0x3Fu32)) as u8);
            r.push((0x80u32 | (n & 0x3Fu32)) as u8);
        } else {
            r.push((0xF0u32 | (n >> 18u32)) as u8);
            r.push((0x80u32 | ((n >> 12u32) & 0x3Fu32)) as u8);
            r.push((0x80u32 | ((n >> 6u32) & 0x3Fu32)) as u8);
            r.push((0x80u32 | (n & 0x3Fu32)) as u8);
        }
        proof {
            let p = cs@.subrange(0, i + 1);
            assert(p.drop_last() =~= cs@.subrange(0, i as int));
            assert(p.last() == c);
        }
        assert(r@ =~= utf8(cs@.subrange(0, i + 1)));
        i = i + 1;
    }
    assert(cs@.subrange(0, cs@.len() as int) =~= cs@);
    r
}


// ---------------------------------------------------------------------
// The Vigenère cipher, byte by byte
// ---------------------------------------------------------------------

pub open spec fn is_upper(c: u8) -> bool {
    65 <= c <= 90
}

pub open spec fn is_lower(c: u8) -> bool {
    97 <= c <= 122
}

/// Code of `A` for an upper-case letter, of `a` for a lower-case one.
pub open spec fn base_of(c: u8) -> int {
    if is_upper(c) {
        65
    } else {
        97
    }
}

/// Ciphering byte `c` with key byte `k` stays within `u8` arithmetic.
pub open spec fn cipher_defined(c: u8, k: u8) -> bool {
    (is_upper(c) || is_lower(c)) ==> {
        let b = base_of(c);
        &&& (c - b) + k <= 255
        &&& (c - b) + k - b >= 0
    }
}

/// `c` shifted forward by `k`, within its alphabet; other bytes as they are.
pub open spec fn ciphered(c: u8, k: u8) -> char {
    if is_upper(c) || is_lower(c) {
        let b = base_of(c);
        ((b + ((c - b) + k - b) % 26) as u8) as char
    } else {
        c as char
    }
}

/// Deciphering byte `c` with key byte `k` stays within `u8` arithmetic.
pub open spec fn decipher_defined(c: u8, k: u8) -> bool {
    (is_upper(c) || is_lower(c)) ==> {
        let b = base_of(c);
        &&& k >= b
        &&& (c - b) < (k - b) ==> (k - b) - (c - b) <= 26
    }
}

/// `c` shifted back by `k`, within its alphabet; other bytes as they are.
pub open spec fn deciphered(c: u8, k: u8) -> char {
    if is_upper(c) || is_lower(c) {
        let b = base_of(c);
        let d = if (c - b) < (k - b) {
            26 - ((k - b) - (c - b))
        } else {
            (c - b) - (k - b)
        };
        ((b + d % 26) as u8) as char
    } else {
        c as char
    }
}

/// A letter ciphered with a key letter of its own case deciphers back to
/// itself; so does every other byte.
pub proof fn lemma_decipher_undoes_cipher(c: u8, k: u8)
    requires
        is_upper(c) ==> is_upper(k),
        is_lower(c) ==> is_lower(k),
    ensures
        cipher_defined(c, k),
        decipher_defined(ciphered(c, k) as u8, k),
        deciphered(ciphered(c, k) as u8, k) == c as char,
{
    if is_upper(c) || is_lower(c) {
        let b = base_of(c);
        let x = (c - b) + (k - b);
        assert(0 <= x < 52);
        let e = b + x % 26;
        assert(ciphered(c, k) as u8 == e);
        if x < 26 {
            assert(x % 26 == x);
        } else {
            assert(x % 26 == x - 26);
        }
    }
}

/// An editing command.
pub enum Operation {
    SetString(String),
    Clear,
    /// Remove the character at this byte offset.
    Remove(usize),
    /// Insert a string at this byte offset.
    Insert(usize, String),
    Uppercase,
    Lowercase,
    VigenereCipher(String),
    VigenereDecipher(String),
}

/// Case mapping of `str::to_uppercase`, by the Unicode tables.
pub uninterp spec fn uppercase(s: Seq<char>) -> Seq<char>;

/// Case mapping of `str::to_lowercase`, by the Unicode tables.
pub uninterp spec fn lowercase(s: Seq<char>) -> Seq<char>;

/// `str::to_uppercase`: the contract names its result `uppercase(s)` and
/// says nothing more of it.
#[verifier::external_body]
fn to_uppercase(s: &str) -> (r: String)
    ensures
        r@ == uppercase(s@),
{
    s.to_uppercase()
}

/// `str::to_lowercase`: the contract names its result `lowercase(s)` and
/// says nothing more of it.
#[verifier::external_body]
fn to_lowercase(s: &str) -> (r: String)
    ensures
        r@ == lowercase(s@),
{
    s.to_lowercase()
}

/// Each byte of `input` ciphered (or deciphered) with the key byte at the
/// same position, the key repeated as often as needed.
pub open spec fn vigenere(input: Seq<char>, key: Seq<char>, back: bool) -> Seq<char> {
    let x = utf8(input);
    let k = utf8(key);
    Seq::new(
        x.len(),
        |i: int|
            if back {
                deciphered(x[i], k[i % (k.len() as int)])
            } else {
                ciphered(x[i], k[i % (k.len() as int)])
            },
    )
}

/// Every byte of `input` can be ciphered (or deciphered) with its key byte.
pub open spec fn vigenere_defined(input: Seq<char>, key: Seq<char>, back: bool) -> bool {
    let x = utf8(input);
    let k = utf8(key);
    &&& k.len() > 0
    &&& forall|i: int|
        0 <= i < x.len() ==> if back {
            decipher_defined(x[i], #[trigger] k[i % (k.len() as int)])
        } else {
            cipher_defined(x[i], k[i % (k.len() as int)])
        }
}

/// The inputs on which an operation is defined: an offset on a character
/// boundary (and, to remove, before the end), a non-empty key, and no byte
/// whose cipher arithmetic leaves `u8`.
pub open spec fn operation_defined(op: Operation, input: Seq<char>) -> bool {
    match op {
        Operation::Remove(idx) => is_boundary(input, idx as int) && char_index(input, idx as int) < input.len(),
        Operation::Insert(idx, _) => is_boundary(input, idx as int),
        Operation::VigenereCipher(key) => vigenere_defined(input, key@, false),
        Operation::VigenereDecipher(key) => vigenere_defined(input, key@, true),
        _ => true,
    }
}

/// The string an operation makes of `input`.
pub open spec fn operation_result(op: Operation, input: Seq<char>) -> Seq<char> {
    match op {
        Operation::SetString(s) => s@,
        Operation::Clear => Seq::empty(),
        Operation::Remove(idx) => input.remove(char_index(input, idx as int)),
        Operation::Insert(idx, s) => {
            let m = char_index(input, idx as int);
            input.subrange(0, m) + s@ + input.subrange(m, input.len() as int)
        },
        Operation::Uppercase => uppercase(input),
        Operation::Lowercase => lowercase(input),
        Operation::VigenereCipher(key) => vigenere(input, key@, false),
        Operation::VigenereDecipher(key) => vigenere(input, key@, true),
    }
}

impl Operation {
    /// The Vigenère cipher of `*c` under key byte `k`.
    pub fn cipher(c: &u8, k: u8) -> (r: char)
        requires
            cipher_defined(*c, k),
        ensures
            r == ciphered(*c, k),
    {
        if 65 <= *c && *c <= 90 {
            let b: u8 = 65;
            (b + ((*c - b + k - b) % 26)) as char
        } else if 97 <= *c && *c <= 122 {
            let b: u8 = 97;
            (b + ((*c - b + k - b) % 26)) as char
        } else {
            *c as char
        }
    }

    /// The Vigenère decipher of `*c` under key byte `k`.
    pub fn decipher(c: &u8, k: u8) -> (r: char)
        requires
            decipher_defined(*c, k),
        ensures
            r == deciphered(*c, k),
    {
        if 65 <= *c && *c <= 90 {
            let b: u8 = 65;
            let mut c = *c - b;
            let mut k = k - b;
            if c < k {
                k = k - c;
                c = 26;
            }
            (b + ((c - k) % 26)) as char
        } else if 97 <= *c && *c <= 122 {
            let b: u8 = 97;
            let mut c = *c - b;
            let mut k = k - b;
            if c < k {
                k = k - c;
                c = 26;
            }
            (b + ((c - k) % 26)) as char
        } else {
            *c as char
        }
    }

    /// `input` edited by this operation.
    pub fn apply(&self, input: &str) -> (r: String)
        requires
            operation_defined(*self, input@),
        ensures
            r@ == operation_result(*self, input@),
    {
        match self {
            Operation::SetString(s) => s.clone(),
            Operation::Clear => String::new(),
            Operation::Remove(idx) => {
                let mut cs = chars_of(input);
                let m = match find_boundary(cs.as_slice(), *idx) {
                    Some(m) => m,
                    None => {
                        proof {
                            assert(false);
                        }
                        0
                    },
                };
                cs.remove(m);
                string_from_chars(cs.as_slice())
            },
            Operation::Insert(idx, s) => {
                let cs = chars_of(input);
                let m = match find_boundary(cs.as_slice(), *idx) {
                    Some(m) => m,
                    None => {
                        proof {
                            assert(false);
                        }
                        0
                    },
                };
                let ins = chars_of(s.as_str());
                let mut out: Vec<char> = Vec::new();
                let mut i: usize = 0;
                while i < m
                    invariant
                        m <= cs@.len(),
                        i <= m,
                        out@ == cs@.subrange(0, i as int),
                    decreases m - i,
                {
                    out.push(cs[i]);
                    i = i + 1;
                }
                let mut j: usize = 0;
                while j < ins.len()
                    invariant
                        j <= ins@.len(),
                        out@ == cs@.subrange(0, m as int) + ins@.subrange(0, j as int),
                    decreases ins@.len() - j,
                {
                    out.push(ins[j]);
                    j = j + 1;
                }
                assert(ins@.subrange(0, ins@.len() as int) =~= ins@);
                let mut i: usize = m;
                while i < cs.len()
                    invariant
                        m <= i <= cs@.len(),
                        out@ == cs@.subrange(0, m as int) + ins@ + cs@.subrange(m as int, i as int),
                    decreases cs@.len() - i,
                {
                    out.push(cs[i]);
                    i = i + 1;
                }
                string_from_chars(out.as_slice())
            },
            Operation::Uppercase => to_uppercase(input),
            Operation::Lowercase => to_lowercase(input),
            Operation::VigenereCipher(key) => Operation::vigenere_apply(input, key.as_str(), false),
            Operation::VigenereDecipher(key) => Operation::vigenere_apply(input, key.as_str(), true),
        }
    }

    fn vigenere_apply(input: &str, key: &str, back: bool) -> (r: String)
        requires
            vigenere_defined(input@, key@, back),
        ensures
            r@ == vigenere(input@, key@, back),
    {
        let ic = chars_of(input);
        let kc = chars_of(key);
        let x = utf8_bytes(ic.as_slice());
        let k = utf8_bytes(kc.as_slice());
        let mut res = String::new();
        let mut i: usize = 0;
        while i < x.len()
            invariant
                x@ == utf8(input@),
                k@ == utf8(key@),
                k@.len() > 0,
                vigenere_defined(input@, key@, back),
                i <= x@.len(),
                res@ == vigenere(input@, key@, back).subrange(0, i as int),
            decreases x@.len() - i,
        {
            let kb = k[i % k.len()];
            let c = if back {
                Operation::decipher(&x[i], kb)
            } else {
                Operation::cipher(&x[i], kb)
            };
            push_char(&mut res, c);
            assert(res@ =~= vigenere(input@, key@, back).subrange(0, i + 1));
            i = i + 1;
        }
        assert(res@ =~= vigenere(input@, key@, back));
        res
    }
}


// ---------------------------------------------------------------------
// Reading commands
// ---------------------------------------------------------------------

/// What `s` is after its first `n` spaces: the last piece of
/// `s.splitn(n + 1, ' ')`, where `s` has that many spaces.
pub open spec fn after_spaces(s: Seq<char>, n: nat) -> Option<Seq<char>>
    decreases s.len(),
{
    if n == 0 {
        Some(s)
    } else if s.len() == 0 {
        None
    } else if s[0] == ' ' {
        after_spaces(s.drop_first(), (n - 1) as nat)
    } else {
        after_spaces(s.drop_first(), n)
    }
}

/// A command line, read as far as its words go.
pub enum ParsedOperation {
    Failed(Seq<char>),
    SetString(Seq<char>),
    Clear,
    Remove(int),
    Insert(int, Seq<char>),
    Uppercase,
    Lowercase,
    Cipher(Seq<char>),
    Decipher(Seq<char>),
}

/// The rest of `s` from byte offset `b`.
pub open spec fn from_byte(s: Seq<char>, b: int) -> Seq<char> {
    s.subrange(char_index(s, b), s.len() as int)
}

/// The index word after `Remove` or `Insert`, and what reading it gives.
pub open spec fn index_word(t: Seq<Seq<char>>, usage: Seq<char>) -> Result<int, Seq<char>> {
    if t.len() < 2 {
        Err(usage)
    } else {
        match spec_parse_unsigned(t[1], usize::MAX as int) {
            None => Err("Index must be an integer"@),
            Some(i) => Ok(i),
        }
    }
}

/// The lines that can be read: a first word; for `Set`, `Vigenere cipher`
/// and `Vigenere decipher` a character boundary at the fixed offset of the
/// argument; for `Insert` with a valid index, a second space before the
/// string; for `Vigenere`, a mode word.
pub open spec fn parse_defined(s: Seq<char>) -> bool {
    let t = tokens(s, false);
    &&& t.len() > 0
    &&& t[0] == "Set"@ ==> is_boundary(s, 4)
    &&& (t[0] == "Insert"@ && index_word(t, "Command usage:\n Insert index string"@) is Ok) ==> after_spaces(s, 2) is Some
    &&& t[0] == "Vigenere"@ ==> {
        &&& t.len() >= 2
        &&& t[1] == "cipher"@ ==> is_boundary(s, 16)
        &&& t[1] == "decipher"@ ==> is_boundary(s, 18)
    }
}

/// What a command line reads as.
pub open spec fn parse_outcome(s: Seq<char>) -> ParsedOperation {
    let t = tokens(s, false);
    let op = t[0];
    if op == "Set"@ {
        ParsedOperation::SetString(from_byte(s, 4))
    } else if op == "Clear"@ {
        ParsedOperation::Clear
    } else if op == "Remove"@ {
        match index_word(t, "Command usage:\n Remove index"@) {
            Err(e) => ParsedOperation::Failed(e),
            Ok(i) => ParsedOperation::Remove(i),
        }
    } else if op == "Insert"@ {
        match index_word(t, "Command usage:\n Insert index string"@) {
            Err(e) => ParsedOperation::Failed(e),
            Ok(i) => ParsedOperation::Insert(i, after_spaces(s, 2)->0),
        }
    } else if op == "Uppercase"@ {
        ParsedOperation::Uppercase
    } else if op == "Lowercase"@ {
        ParsedOperation::Lowercase
    } else if op == "Vigenere"@ {
        if t[1] == "cipher"@ {
            ParsedOperation::Cipher(from_byte(s, 16))
        } else if t[1] == "decipher"@ {
            ParsedOperation::Decipher(from_byte(s, 18))
        } else {
            ParsedOperation::Failed("Option only supports cipher and decipher"@)
        }
    } else {
        ParsedOperation::Failed("Invalid operation"@)
    }
}

/// `r` is what `o` describes.
pub open spec fn parsed_as(r: Result<Operation, String>, o: ParsedOperation) -> bool {
    match o {
        ParsedOperation::Failed(e) => r is Err && r->Err_0@ == e,
        ParsedOperation::SetString(x) => r matches Ok(Operation::SetString(y)) && y@ == x,
        ParsedOperation::Clear => r matches Ok(Operation::Clear),
        ParsedOperation::Remove(i) => r matches Ok(Operation::Remove(j)) && j == i,
        ParsedOperation::Insert(i, x) => r matches Ok(Operation::Insert(j, y)) && j == i && y@ == x,
        ParsedOperation::Uppercase => r matches Ok(Operation::Uppercase),
        ParsedOperation::Lowercase => r matches Ok(Operation::Lowercase),
        ParsedOperation::Cipher(x) => r matches Ok(Operation::VigenereCipher(y)) && y@ == x,
        ParsedOperation::Decipher(x) => r matches Ok(Operation::VigenereDecipher(y)) && y@ == x,
    }
}

/// The rest of `s` from byte offset `b`, where `b` is a boundary.
fn rest_from_byte(s: &str, cs: &Vec<char>, b: usize) -> (r: String)
    requires
        cs@ == s@,
        is_boundary(s@, b as int),
    ensures
        r@ == from_byte(s@, b as int),
{
    match find_boundary(cs.as_slice(), b) {
        Some(m) => s.substring_char(m, cs.len()).to_string(),
        None => {
            proof {
                assert(false);
            }
            String::new()
        },
    }
}

/// The character index just after the `n`-th space of `cs`, if it has
/// that many.
fn after_spaces_index(cs: &[char], n: usize) -> (r: Option<usize>)
    ensures
        match r {
            Some(i) => i <= cs@.len() && after_spaces(cs@, n as nat) == Some(cs@.subrange(i as int, cs@.len() as int)),
            None => after_spaces(cs@, n as nat) is None,
        },
{
    let mut i: usize = 0;
    let mut left: usize = n;
    assert(cs@.subrange(0, cs@.len() as int) =~= cs@);
    while left > 0 && i < cs.len()
        invariant
            i <= cs@.len(),
            left <= n,
            after_spaces(cs@, n as nat) == after_spaces(cs@.subrange(i as int, cs@.len() as int), left as nat),
        decreases cs@.len() - i,
    {
        proof {
            let t = cs@.subrange(i as int, cs@.len() as int);
            assert(t.drop_first() =~= cs@.subrange(i + 1, cs@.len() as int));
        }
        if cs[i] == ' ' {
            left = left - 1;
        }
        i = i + 1;
    }
    if left == 0 {
        Some(i)
    } else {
        None
    }
}

impl Operation {
    /// Reads a command line (the `FromStr` of the editor).
    pub fn parse(s: &str) -> (r: Result<Operation, String>)
        requires
            parse_defined(s@),
        ensures
            parsed_as(r, parse_outcome(s@)),
    {
        let ghost tw = tokens(s@, false);
        let cs = chars_of(s);
        let t = split_tokens(cs.as_slice(), false);
        proof {
            assert(t@[0]@ == tw[0]);
        }
        let op = t[0].as_slice();
        if spells(op, "Set") {
            Ok(Operation::SetString(rest_from_byte(s, &cs, 4)))
        } else if spells(op, "Clear") {
            Ok(Operation::Clear)
        } else if spells(op, "Remove") || spells(op, "Insert") {
            let remove = spells(op, "Remove");
            if t.len() < 2 {
                if remove {
                    return Err(String::from_str("Command usage:\n Remove index"));
                } else {
                    return Err(String::from_str("Command usage:\n Insert index string"));
                }
            }
            proof {
                assert(t@[1]@ == tw[1]);
            }
            let idx = match parse_unsigned_chars(t[1].as_slice(), usize::MAX as u64) {
                Some(v) => v as usize,
                None => return Err(String::from_str("Index must be an integer")),
            };
            if remove {
                Ok(Operation::Remove(idx))
            } else {
                match after_spaces_index(cs.as_slice(), 2) {
                    Some(i) => Ok(Operation::Insert(idx, s.substring_char(i, cs.len()).to_string())),
                    None => {
                        proof {
                            assert(false);
                        }
                        Err(String::new())
                    },
                }
            }
        } else if spells(op, "Uppercase") {
            Ok(Operation::Uppercase)
        } else if spells(op, "Lowercase") {
            Ok(Operation::Lowercase)
        } else if spells(op, "Vigenere") {
            proof {
                assert(t@[1]@ == tw[1]);
            }
            let mode = t[1].as_slice();
            if spells(mode, "cipher") {
                Ok(Operation::VigenereCipher(rest_from_byte(s, &cs, 16)))
            } else if spells(mode, "decipher") {
                Ok(Operation::VigenereDecipher(rest_from_byte(s, &cs, 18)))
            } else {
                Err(String::from_str("Option only supports cipher and decipher"))
            }
        } else {
            Err(String::from_str("Invalid operation"))
        }
    }

    /// Whether reading `s` runs to its end (`parse_defined`).
    pub fn parse_completes(s: &str) -> (b: bool)
        ensures
            b == parse_defined(s@),
    {
        proof {
            reveal_strlit("Set");
            reveal_strlit("Insert");
            reveal_strlit("Vigenere");
            reveal_strlit("cipher");
            reveal_strlit("decipher");
        }
        let ghost tw = tokens(s@, false);
        let cs = chars_of(s);
        let t = split_tokens(cs.as_slice(), false);
        if t.len() == 0 {
            return false;
        }
        proof {
            assert(t@[0]@ == tw[0]);
        }
        let op = t[0].as_slice();
        if spells(op, "Set") {
            find_boundary(cs.as_slice(), 4).is_some()
        } else if spells(op, "Insert") {
            if t.len() < 2 {
                return true;
            }
            proof {
                assert(t@[1]@ == tw[1]);
            }
            match parse_unsigned_chars(t[1].as_slice(), usize::MAX as u64) {
                None => true,
                Some(_) => after_spaces_index(cs.as_slice(), 2).is_some(),
            }
        } else if spells(op, "Vigenere") {
            if t.len() < 2 {
                return false;
            }
            proof {
                assert(t@[1]@ == tw[1]);
            }
            let mode = t[1].as_slice();
            if spells(mode, "cipher") {
                find_boundary(cs.as_slice(), 16).is_some()
            } else if spells(mode, "decipher") {
                find_boundary(cs.as_slice(), 18).is_some()
            } else {
                true
            }
        } else {
            true
        }
    }

    /// Whether this operation runs to its end on `input`
    /// (`operation_defined`).
    pub fn applies_to(&self, input: &str) -> (b: bool)
        ensures
            b == operation_defined(*self, input@),
    {
        match self {
            Operation::Remove(idx) => {
                let cs = chars_of(input);
                match find_boundary(cs.as_slice(), *idx) {
                    Some(m) => m < cs.len(),
                    None => false,
                }
            },
            Operation::Insert(idx, _) => {
                let cs = chars_of(input);
                find_boundary(cs.as_slice(), *idx).is_some()
            },
            Operation::VigenereCipher(key) => vigenere_applies(input, key.as_str(), false),
            Operation::VigenereDecipher(key) => vigenere_applies(input, key.as_str(), true),
            _ => true,
        }
    }
}


fn is_letter(c: u8) -> (b: bool)
    ensures
        b == (is_upper(c) || is_lower(c)),
{
    (65 <= c && c <= 90) || (97 <= c && c <= 122)
}

/// Whether every byte of `input` can be ciphered (or deciphered) with its
/// key byte (`vigenere_defined`).
fn vigenere_applies(input: &str, key: &str, back: bool) -> (b: bool)
    ensures
        b == vigenere_defined(input@, key@, back),
{
    let ic = chars_of(input);
    let kc = chars_of(key);
    let x = utf8_bytes(ic.as_slice());
    let k = utf8_bytes(kc.as_slice());
    if k.len() == 0 {
        return false;
    }
    let mut i: usize = 0;
    while i < x.len()
        invariant
            x@ == utf8(input@),
            k@ == utf8(key@),
            k@.len() > 0,
            i <= x@.len(),
            forall|q: int|
                0 <= q < i ==> if back {
                    decipher_defined(x@[q], #[trigger] k@[q % (k@.len() as int)])
                } else {
                    cipher_defined(x@[q], k@[q % (k@.len() as int)])
                },
        decreases x@.len() - i,
    {
        let c = x[i];
        let kb = k[i % k.len()];
        let ok = if !is_letter(c) {
            true
        } else {
            let b: u8 = if 65 <= c && c <= 90 {
                65
            } else {
                97
            };
            if back {
                kb >= b && (c - b >= kb - b || (kb - b) - (c - b) <= 26)
            } else {
                (c - b) as u32 + kb as u32 <= 255 && (c - b) as u32 + kb as u32 >= b as u32
            }
        };
        if !ok {
            return false;
        }
        i = i + 1;
    }
    true
}


/// Every character of `s` is ASCII.
pub open spec fn all_ascii(s: Seq<char>) -> bool {
    forall|i: int| 0 <= i < s.len() ==> ((#[trigger] s[i]) as u32) < 128
}

/// An ASCII string is encoded one byte per character.
proof fn lemma_utf8_ascii(s: Seq<char>)
    requires
        all_ascii(s),
    ensures
        utf8(s).len() == s.len(),
        forall|i: int| 0 <= i < s.len() ==> #[trigger] utf8(s)[i] == s[i] as u8,
    decreases s.len(),
{
    if s.len() > 0 {
        let p = s.drop_last();
        assert forall|i: int| 0 <= i < p.len() implies ((#[trigger] p[i]) as u32) < 128 by {
            assert(p[i] == s[i]);
        }
        lemma_utf8_ascii(p);
        let c = s.last();
        assert((c as u32) < 128);
        assert(utf8_of(c) =~= seq![c as u8]);
    }
}

/// One ASCII character through the cipher and back.
proof fn lemma_round_trip_char(ch: char, k: u8)
    requires
        (ch as u32) < 128,
        is_upper(ch as u8) ==> is_upper(k),
        is_lower(ch as u8) ==> is_lower(k),
    ensures
        cipher_defined(ch as u8, k),
        (ciphered(ch as u8, k) as u32) < 128,
        decipher_defined(ciphered(ch as u8, k) as u8, k),
        deciphered(ciphered(ch as u8, k) as u8, k) == ch,
{
    let c = ch as u8;
    assert(c as u32 == ch as u32);
    lemma_decipher_undoes_cipher(c, k);
    if is_upper(c) || is_lower(c) {
        let b = base_of(c);
        let x = (c - b) + (k - b);
        assert(0 <= x % 26 < 26);
    } else {
        assert((c as char) as u32 == c as u32);
    }
    assert((c as char) as u32 == ch as u32);
}

/// Deciphering with the key that ciphered gives the text back, for ASCII
/// text each of whose letters meets a key letter of its own case.
pub proof fn lemma_vigenere_round_trip(input: Seq<char>, key: Seq<char>)
    requires
        all_ascii(input),
        utf8(key).len() > 0,
        forall|i: int|
            0 <= i < input.len() ==> {
                let c = (#[trigger] input[i]) as u8;
                let k = utf8(key)[i % (utf8(key).len() as int)];
                &&& is_upper(c) ==> is_upper(k)
                &&& is_lower(c) ==> is_lower(k)
            },
    ensures
        vigenere_defined(input, key, false),
        vigenere_defined(vigenere(input, key, false), key, true),
        vigenere(vigenere(input, key, false), key, true) == input,
{
    lemma_utf8_ascii(input);
    let k = utf8(key);
    let e = vigenere(input, key, false);
    assert forall|i: int| 0 <= i < input.len() implies {
        &&& cipher_defined(utf8(input)[i], #[trigger] k[i % (k.len() as int)])
        &&& (e[i] as u32) < 128
        &&& decipher_defined(e[i] as u8, k[i % (k.len() as int)])
        &&& deciphered(e[i] as u8, k[i % (k.len() as int)]) == input[i]
    } by {
        assert(utf8(input)[i] == input[i] as u8);
        assert(0 <= i % (k.len() as int) < k.len());
        lemma_round_trip_char(input[i], k[i % (k.len() as int)]);
    }
    assert forall|i: int| 0 <= i < e.len() implies ((#[trigger] e[i]) as u32) < 128 by {
        assert(0 <= i % (k.len() as int) < k.len());
        assert(k[i % (k.len() as int)] == k[i % (k.len() as int)]);
    }
    lemma_utf8_ascii(e);
    assert forall|i: int| 0 <= i < utf8(e).len() implies decipher_defined(utf8(e)[i], #[trigger] k[i % (k.len() as int)]) by {
        assert(utf8(e)[i] == e[i] as u8);
    }
    let d = vigenere(e, key, true);
    assert forall|i: int| 0 <= i < input.len() implies d[i] == input[i] by {
        assert(utf8(e)[i] == e[i] as u8);
        assert(k[i % (k.len() as int)] == k[i % (k.len() as int)]);
    }
    assert(d =~= input);
}


/// Removing the one character just inserted at a byte offset gives back
/// the string.
pub proof fn lemma_remove_undoes_insert(input: Seq<char>, idx: usize, s: String)
    requires
        is_boundary(input, idx as int),
        s@.len() == 1,
    ensures
        ({
            let grown = operation_result(Operation::Insert(idx, s), input);
            &&& operation_defined(Operation::Remove(idx), grown)
            &&& operation_result(Operation::Remove(idx), grown) == input
        }),
{
    let m = char_index(input, idx as int);
    assert(boundary_at(input, idx as int, m));
    let grown = input.subrange(0, m) + s@ + input.subrange(m, input.len() as int);
    assert(grown.subrange(0, m) =~= input.subrange(0, m));
    assert(boundary_at(grown, idx as int, m));
    lemma_boundary_unique(grown, idx as int, m);
    assert(grown.remove(m) =~= input);
}

} // verus!
