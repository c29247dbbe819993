//! Coordinates in a cubic store: row, shelf and zone, each below the
//! store's side length `m`. Inside the cube, coordinates are ordered
//! row-major, and `linear` numbers them `0 .. m*m*m` in that order.

use vstd::prelude::*;
use crate::text::{
    chars_of, parse_unsigned_chars, spec_parse_unsigned, split_chars, split_on, trim_bounds,
    trim_chars,
};

verus! {

/// A place in the store: `(row, shelf, zone)`.
#[derive(PartialEq, Eq, Structural, Clone, Ord, Debug)]
pub struct StoreCoords(pub usize, pub usize, pub usize);

/// All three coordinates lie below `m`.
pub open spec fn in_cube(c: StoreCoords, m: int) -> bool {
    c.0 < m && c.1 < m && c.2 < m
}

/// Row-major number of a place: `(row * m + shelf) * m + zone`.
pub open spec fn linear(c: StoreCoords, m: int) -> int {
    (c.0 * m + c.1) * m + c.2
}

/// The place whose row-major number is `x`.
pub open spec fn delinear(x: int, m: int) -> StoreCoords {
    StoreCoords((x / (m * m)) as usize, ((x / m) % m) as usize, (x % m) as usize)
}

/// Lexicographic order on `(row, shelf, zone)`, the order of `<` on places.
pub open spec fn coords_lt(a: StoreCoords, b: StoreCoords) -> bool {
    ||| a.0 < b.0
    ||| a.0 == b.0 && a.1 < b.1
    ||| a.0 == b.0 && a.1 == b.1 && a.2 < b.2
}

pub open spec fn coords_le(a: StoreCoords, b: StoreCoords) -> bool {
    coords_lt(a, b) || a == b
}

/// `a` comes at or before `b` in row-major order (`a <= b`).
pub fn coords_le_exec(a: &StoreCoords, b: &StoreCoords) -> (r: bool)
    ensures
        r == coords_le(*a, *b),
{
    a.0 < b.0 || (a.0 == b.0 && (a.1 < b.1 || (a.1 == b.1 && a.2 <= b.2)))
}

/// The place after `c` in row-major order of a store of side `m`
/// (`None` after the last place).
pub open spec fn spec_next(c: StoreCoords, m: int) -> Option<StoreCoords> {
    if c.2 != m - 1 {
        Some(StoreCoords(c.0, c.1, (c.2 + 1) as usize))
    } else if c.1 != m - 1 {
        Some(StoreCoords(c.0, (c.1 + 1) as usize, 0))
    } else if c.0 != m - 1 {
        Some(StoreCoords((c.0 + 1) as usize, 0, 0))
    } else {
        None
    }
}

/// The place before `c` in row-major order (`None` before the first place).
pub open spec fn spec_previous(c: StoreCoords, m: int) -> Option<StoreCoords> {
    if c.2 != 0 {
        Some(StoreCoords(c.0, c.1, (c.2 - 1) as usize))
    } else if c.1 != 0 {
        Some(StoreCoords(c.0, (c.1 - 1) as usize, (m - 1) as usize))
    } else if c.0 != 0 {
        Some(StoreCoords((c.0 - 1) as usize, (m - 1) as usize, (m - 1) as usize))
    } else {
        None
    }
}

/// `next` computes without overflow.
pub open spec fn next_defined(c: StoreCoords, m: int) -> bool {
    &&& m >= 1
    &&& c.2 != m - 1 ==> c.2 < usize::MAX
    &&& c.2 == m - 1 && c.1 != m - 1 ==> c.1 < usize::MAX
    &&& c.2 == m - 1 && c.1 == m - 1 && c.0 != m - 1 ==> c.0 < usize::MAX
}

impl StoreCoords {
    /// The place before this one in a store of side `store_max_idx`.
    pub fn previous(&self, store_max_idx: usize) -> (r: Option<Self>)
        requires
            store_max_idx >= 1,
        ensures
            r == spec_previous(*self, store_max_idx as int),
    {
        if self.2 != 0 {
            return Some(StoreCoords(self.0, self.1, self.2 - 1));
        }
        if self.1 != 0 {
            return Some(StoreCoords(self.0, self.1 - 1, store_max_idx - 1));
        }
        if self.0 != 0 {
            return Some(StoreCoords(self.0 - 1, store_max_idx - 1, store_max_idx - 1));
        }
        None
    }

    /// The place after this one in a store of side `store_max_idx`.
    pub fn next(&self, store_max_idx: usize) -> (r: Option<Self>)
        requires
            next_defined(*self, store_max_idx as int),
        ensures
            r == spec_next(*self, store_max_idx as int),
    {
        if self.2 != store_max_idx - 1 {
            return Some(StoreCoords(self.0, self.1, self.2 + 1));
        }
        if self.1 != store_max_idx - 1 {
            return Some(StoreCoords(self.0, self.1 + 1, 0));
        }
        if self.0 != store_max_idx - 1 {
            return Some(StoreCoords(self.0 + 1, 0, 0));
        }
        None
    }

    /// A copy of these coordinates.
    pub fn copy(&self) -> (r: Self)
        ensures
            r == *self,
    {
        StoreCoords(self.0, self.1, self.2)
    }

    /// Reads `"row shelf zone"`: the trimmed text split at single spaces
    /// must give exactly three unsigned numbers.
    pub fn parse(s: &str) -> (r: Result<StoreCoords, ()>)
        ensures
            r == spec_parse_coords(s@),
    {
        let cs = chars_of(s);
        let (a, b) = trim_bounds(cs.as_slice());
        let ghost t = trim_chars(s@);
        let mut t_chars: Vec<char> = Vec::new();
        let mut i: usize = a;
        while i < b
            invariant
                a <= i <= b <= cs@.len(),
                t_chars@ == cs@.subrange(a as int, i as int),
            decreases b - i,
        {
            t_chars.push(cs[i]);
            i = i + 1;
        }
        assert(t_chars@ == t);
        let pieces = split_on(t_chars.as_slice(), ' ');
        if pieces.len() < 1 {
            return Err(());
        }
        let row = match parse_unsigned_chars(pieces[0].as_slice(), usize::MAX as u64) {
            Some(v) => v as usize,
            None => return Err(()),
        };
        if pieces.len() < 2 {
            return Err(());
        }
        let shelf = match parse_unsigned_chars(pieces[1].as_slice(), usize::MAX as u64) {
            Some(v) => v as usize,
            None => return Err(()),
        };
        if pieces.len() < 3 {
            return Err(());
        }
        let zone = match parse_unsigned_chars(pieces[2].as_slice(), usize::MAX as u64) {
            Some(v) => v as usize,
            None => return Err(()),
        };
        if pieces.len() > 3 {
            return Err(());
        }
        Ok(StoreCoords(row, shelf, zone))
    }
}

/// What `StoreCoords::parse` gives for the text `s`.
pub open spec fn spec_parse_coords(s: Seq<char>) -> Result<StoreCoords, ()> {
    let p = split_chars(trim_chars(s), ' ');
    let m = usize::MAX as int;
    if p.len() == 3 && spec_parse_unsigned(p[0], m) is Some && spec_parse_unsigned(p[1], m) is Some
        && spec_parse_unsigned(p[2], m) is Some {
        Ok(
            StoreCoords(
                spec_parse_unsigned(p[0], m)->0 as usize,
                spec_parse_unsigned(p[1], m)->0 as usize,
                spec_parse_unsigned(p[2], m)->0 as usize,
            ),
        )
    } else {
        Err(())
    }
}

impl From<(usize, usize, usize)> for StoreCoords {
    fn from(value: (usize, usize, usize)) -> (r: Self) {
        StoreCoords(value.0, value.1, value.2)
    }
}

impl vstd::std_specs::convert::FromSpecImpl<(usize, usize, usize)> for StoreCoords {
    open spec fn obeys_from_spec() -> bool {
        true
    }

    open spec fn from_spec(v: (usize, usize, usize)) -> Self {
        StoreCoords(v.0, v.1, v.2)
    }
}

impl core::str::FromStr for StoreCoords {
    type Err = ();

    fn from_str(s: &str) -> (r: Result<Self, Self::Err>)
        ensures
            r == spec_parse_coords(s@),
    {
        StoreCoords::parse(s)
    }
}

impl<'a> From<&'a StoreCoords> for (usize, usize, usize) {
    fn from(value: &'a StoreCoords) -> (r: Self) {
        (value.0, value.1, value.2)
    }
}

impl<'a> vstd::std_specs::convert::FromSpecImpl<&'a StoreCoords> for (usize, usize, usize) {
    open spec fn obeys_from_spec() -> bool {
        true
    }

    open spec fn from_spec(v: &'a StoreCoords) -> Self {
        (v.0, v.1, v.2)
    }
}

/// Coordinates together with the side length of their store; they step
/// through the store in row-major order.
#[derive(Clone, Ord, Eq, PartialEq, Debug)]
pub struct LimitStoreCoords {
    coords: StoreCoords,
    max_idx: usize,
}

impl LimitStoreCoords {
    pub closed spec fn spec_coords(&self) -> StoreCoords {
        self.coords
    }

    pub closed spec fn spec_max_idx(&self) -> usize {
        self.max_idx
    }

    /// The value `from_with_max(coords, max_idx)` builds.
    pub closed spec fn spec_from_with_max(coords: StoreCoords, max_idx: usize) -> Self {
        LimitStoreCoords { coords, max_idx }
    }

    /// A built value holds the coordinates and the side length it was given.
    pub proof fn lemma_from_with_max(coords: StoreCoords, max_idx: usize)
        ensures
            Self::spec_from_with_max(coords, max_idx).spec_coords() == coords,
            Self::spec_from_with_max(coords, max_idx).spec_max_idx() == max_idx,
    {
    }

    pub fn from_with_max(coords: StoreCoords, max_idx: usize) -> (r: Self)
        ensures
            r == Self::spec_from_with_max(coords, max_idx),
            r.spec_coords() == coords,
            r.spec_max_idx() == max_idx,
    {
        LimitStoreCoords { coords, max_idx }
    }

    /// The side length of the store.
    pub fn max_idx(&self) -> (r: usize)
        ensures
            r == self.spec_max_idx(),
    {
        self.max_idx
    }

    /// The coordinates (the conversion `StoreCoords::from(&limit)`).
    pub fn coords(&self) -> (r: StoreCoords)
        ensures
            r == self.spec_coords(),
    {
        self.coords.copy()
    }

    /// The next place; after the last place, `(m, m, m)`.
    pub fn add_one(&self) -> (r: Self)
        requires
            next_defined(self.spec_coords(), self.spec_max_idx() as int),
        ensures
            r.spec_max_idx() == self.spec_max_idx(),
            r.spec_coords() == match spec_next(self.spec_coords(), self.spec_max_idx() as int) {
                Some(c) => c,
                None => StoreCoords(self.spec_max_idx(), self.spec_max_idx(), self.spec_max_idx()),
            },
    {
        let coords = match self.coords.next(self.max_idx) {
            Some(c) => c,
            None => StoreCoords(self.max_idx, self.max_idx, self.max_idx),
        };
        LimitStoreCoords { coords, max_idx: self.max_idx }
    }

    /// The previous place; before the first place, `(m, m, m)`.
    pub fn sub_one(&self) -> (r: Self)
        requires
            self.spec_max_idx() >= 1,
        ensures
            r.spec_max_idx() == self.spec_max_idx(),
            r.spec_coords() == match spec_previous(self.spec_coords(), self.spec_max_idx() as int) {
                Some(c) => c,
                None => StoreCoords(self.spec_max_idx(), self.spec_max_idx(), self.spec_max_idx()),
            },
    {
        let coords = match self.coords.previous(self.max_idx) {
            Some(c) => c,
            None => StoreCoords(self.max_idx, self.max_idx, self.max_idx),
        };
        LimitStoreCoords { coords, max_idx: self.max_idx }
    }
}

impl<'a> From<&'a LimitStoreCoords> for StoreCoords {
    fn from(value: &'a LimitStoreCoords) -> (r: Self) {
        value.coords()
    }
}

impl<'a> vstd::std_specs::convert::FromSpecImpl<&'a LimitStoreCoords> for StoreCoords {
    open spec fn obeys_from_spec() -> bool {
        true
    }

    open spec fn from_spec(v: &'a LimitStoreCoords) -> Self {
        v.spec_coords()
    }
}

// ---------------------------------------------------------------------
// Row-major numbering
// ---------------------------------------------------------------------

pub proof fn lemma_linear_bounds(c: StoreCoords, m: int)
    requires
        in_cube(c, m),
    ensures
        0 <= linear(c, m) < m * m * m,
{
    let a = c.0 as int;
    let b = c.1 as int;
    let z = c.2 as int;
    assert(0 <= (a * m + b) * m + z < m * m * m) by (nonlinear_arith)
        requires
            0 <= a < m,
            0 <= b < m,
            0 <= z < m,
    {
        assert(a * m + b <= (m - 1) * m + (m - 1));
        assert(a * m + b < m * m);
        assert((a * m + b) * m <= (m * m - 1) * m);
    }
}

/// Numbering and un-numbering undo each other inside the cube.
pub proof fn lemma_delinear(x: int, m: int)
    requires
        1 <= m <= usize::MAX,
        0 <= x < m * m * m,
    ensures
        in_cube(delinear(x, m), m),
        linear(delinear(x, m), m) == x,
        delinear(x, m) == StoreCoords(
            (x / (m * m)) as usize,
            ((x % (m * m)) / m) as usize,
            ((x % (m * m)) % m) as usize,
        ),
{
    let q = x / (m * m);
    let r = x % (m * m);
    let j = r / m;
    let k = r % m;
    assert(x == q * (m * m) + r && 0 <= r < m * m && 0 <= q < m) by (nonlinear_arith)
        requires
            m >= 1,
            0 <= x < m * m * m,
            q == x / (m * m),
            r == x % (m * m),
    {
        assert(m * m > 0);
        assert(x == (m * m) * q + r);
    }
    assert(r == j * m + k && 0 <= k < m && 0 <= j < m) by (nonlinear_arith)
        requires
            m >= 1,
            0 <= r < m * m,
            j == r / m,
            k == r % m,
    {
    }
    assert((x / m) % m == j && x / m == q * m + j) by (nonlinear_arith)
        requires
            m >= 1,
            x == q * (m * m) + j * m + k,
            0 <= k < m,
            0 <= j < m,
            0 <= q,
    {
        assert(x == (q * m + j) * m + k);
        vstd::arithmetic::div_mod::lemma_fundamental_div_mod_converse(x, m, q * m + j, k);
        vstd::arithmetic::div_mod::lemma_fundamental_div_mod_converse(q * m + j, m, q, j);
    }
    assert(x == (q * m + j) * m + k) by (nonlinear_arith)
        requires
            x == q * (m * m) + r,
            r == j * m + k,
    {
    }
    assert(x % m == k) by (nonlinear_arith)
        requires
            m >= 1,
            x == (q * m + j) * m + k,
            0 <= k < m,
    {
        vstd::arithmetic::div_mod::lemma_fundamental_div_mod_converse(x, m, q * m + j, k);
    }
}

/// Inside the cube, lexicographic order is the order of the numbers.
pub proof fn lemma_linear_order(a: StoreCoords, b: StoreCoords, m: int)
    requires
        in_cube(a, m),
        in_cube(b, m),
    ensures
        coords_lt(a, b) <==> linear(a, m) < linear(b, m),
        a == b <==> linear(a, m) == linear(b, m),
{
    let (a0, a1, a2) = (a.0 as int, a.1 as int, a.2 as int);
    let (b0, b1, b2) = (b.0 as int, b.1 as int, b.2 as int);
    assert(a0 < b0 ==> (a0 * m + a1) * m + a2 < (b0 * m + b1) * m + b2) by (nonlinear_arith)
        requires
            0 <= a0 < m,
            0 <= a1 < m,
            0 <= a2 < m,
            0 <= b0 < m,
            0 <= b1 < m,
            0 <= b2 < m,
    {
        if a0 < b0 {
            assert(a0 * m + a1 < b0 * m) by {
                assert((a0 + 1) * m <= b0 * m);
            }
            assert((a0 * m + a1 + 1) * m <= (b0 * m) * m);
        }
    }
    assert(b0 < a0 ==> (b0 * m + b1) * m + b2 < (a0 * m + a1) * m + a2) by (nonlinear_arith)
        requires
            0 <= a0 < m,
            0 <= a1 < m,
            0 <= a2 < m,
            0 <= b0 < m,
            0 <= b1 < m,
            0 <= b2 < m,
    {
        if b0 < a0 {
            assert(b0 * m + b1 < a0 * m) by {
                assert((b0 + 1) * m <= a0 * m);
            }
            assert((b0 * m + b1 + 1) * m <= (a0 * m) * m);
        }
    }
    assert(a0 == b0 && a1 < b1 ==> (a0 * m + a1) * m + a2 < (b0 * m + b1) * m + b2)
        by (nonlinear_arith)
        requires
            0 <= a2 < m,
            0 <= b2 < m,
    {
        if a0 == b0 && a1 < b1 {
            assert((a0 * m + a1 + 1) * m <= (b0 * m + b1) * m);
        }
    }
    assert(a0 == b0 && b1 < a1 ==> (b0 * m + b1) * m + b2 < (a0 * m + a1) * m + a2)
        by (nonlinear_arith)
        requires
            0 <= a2 < m,
            0 <= b2 < m,
    {
        if a0 == b0 && b1 < a1 {
            assert((b0 * m + b1 + 1) * m <= (a0 * m + a1) * m);
        }
    }
}

/// Inside the cube, `next` steps to the following number, and gives `None`
/// only at the last place.
pub proof fn lemma_next_linear(c: StoreCoords, m: int)
    requires
        1 <= m <= usize::MAX,
        in_cube(c, m),
    ensures
        spec_next(c, m) is None <==> linear(c, m) == m * m * m - 1,
        spec_next(c, m) matches Some(d) ==> in_cube(d, m) && linear(d, m) == linear(c, m) + 1,
{
    lemma_linear_bounds(c, m);
    let last = StoreCoords((m - 1) as usize, (m - 1) as usize, (m - 1) as usize);
    assert(linear(last, m) == m * m * m - 1) by (nonlinear_arith)
        requires
            m >= 1,
            linear(last, m) == ((m - 1) * m + (m - 1)) * m + (m - 1),
    {
    }
    lemma_linear_order(c, last, m);
    match spec_next(c, m) {
        Some(d) => {
            let (c0, c1, c2) = (c.0 as int, c.1 as int, c.2 as int);
            if c.2 != m - 1 {
            } else if c.1 != m - 1 {
                assert((c0 * m + c1 + 1) * m + 0 == (c0 * m + c1) * m + (m - 1) + 1)
                    by (nonlinear_arith);
            } else {
                assert(((c0 + 1) * m + 0) * m + 0 == (c0 * m + (m - 1)) * m + (m - 1) + 1)
                    by (nonlinear_arith);
            }
        },
        None => {},
    }
}

/// Inside the cube, `previous` steps to the preceding number, and gives
/// `None` only at the first place.
pub proof fn lemma_previous_linear(c: StoreCoords, m: int)
    requires
        1 <= m <= usize::MAX,
        in_cube(c, m),
    ensures
        spec_previous(c, m) is None <==> linear(c, m) == 0,
        spec_previous(c, m) matches Some(d) ==> in_cube(d, m) && linear(d, m) == linear(c, m) - 1,
{
    let (c0, c1, c2) = (c.0 as int, c.1 as int, c.2 as int);
    assert(linear(c, m) == 0 <==> (c0 == 0 && c1 == 0 && c2 == 0)) by (nonlinear_arith)
        requires
            linear(c, m) == (c0 * m + c1) * m + c2,
            0 <= c0 < m,
            0 <= c1 < m,
            0 <= c2 < m,
    {
    }
    match spec_previous(c, m) {
        Some(d) => {
            if c.2 != 0 {
            } else if c.1 != 0 {
                assert((c0 * m + (c1 - 1)) * m + (m - 1) == (c0 * m + c1) * m + 0 - 1)
                    by (nonlinear_arith);
            } else {
                assert(((c0 - 1) * m + (m - 1)) * m + (m - 1) == (c0 * m + 0) * m + 0 - 1)
                    by (nonlinear_arith);
            }
        },
        None => {},
    }
}

/// Stepping forward and then back returns to the same place.
pub proof fn lemma_previous_of_next(c: StoreCoords, m: int)
    requires
        1 <= m <= usize::MAX,
        in_cube(c, m),
        spec_next(c, m) is Some,
    ensures
        spec_previous(spec_next(c, m)->0, m) == Some(c),
{
    let d = spec_next(c, m)->0;
    lemma_next_linear(c, m);
    lemma_previous_linear(d, m);
    let e = spec_previous(d, m)->0;
    lemma_linear_order(e, c, m);
}

} // verus!
