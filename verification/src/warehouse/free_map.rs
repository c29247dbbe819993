//! The free places of a cubic store, kept as ranges of row-major place
//! numbers so that runs of consecutive free places are found at once.

use vstd::prelude::*;
use rangemap::RangeInclusiveSet;
use core::ops::RangeInclusive;
use crate::warehouse::coords::{
    StoreCoords, in_cube, linear, delinear, coords_le, coords_lt, lemma_linear_bounds,
    lemma_delinear, lemma_linear_order,
};
use crate::warehouse::range_set::{
    range_set_contents, range_set_new, range_set_insert, range_set_remove, range_set_contains,
    range_set_overlaps, range_set_ranges, range_set_overlapping, is_run_list,
    is_overlapping_run_list, joined, lemma_run_list_unique,
};

verus! {

/// The two ends of an inclusive range (`RangeInclusive::into_inner`).
#[verifier::external_body]
pub(crate) fn range_ends(range: RangeInclusive<StoreCoords>) -> (r: (StoreCoords, StoreCoords))
    ensures
        r == (range@.start, range@.end),
{
    range.into_inner()
}

/// The places of a store of side `m` that lie between `a` and `b` in
/// row-major order, both included.
pub open spec fn places_between(a: StoreCoords, b: StoreCoords, m: int) -> Set<StoreCoords> {
    Set::new(|c: StoreCoords| in_cube(c, m) && coords_le(a, c) && coords_le(c, b))
}

/// All places of a store of side `m`.
pub open spec fn all_places(m: int) -> Set<StoreCoords> {
    Set::new(|c: StoreCoords| in_cube(c, m))
}

/// The row-major numbers of the ends of each range.
pub open spec fn range_numbers(r: Seq<RangeInclusive<StoreCoords>>, m: int) -> Seq<(u64, u64)> {
    r.map_values(
        |x: RangeInclusive<StoreCoords>| (linear(x@.start, m) as u64, linear(x@.end, m) as u64),
    )
}

/// Each range runs between two places of the store.
pub open spec fn ranges_in_cube(r: Seq<RangeInclusive<StoreCoords>>, m: int) -> bool {
    forall|i: int|
        0 <= i < r.len() ==> in_cube((#[trigger] r[i])@.start, m) && in_cube(r[i]@.end, m)
            && !r[i]@.exhausted
}

/// The free places of a store of side `store_max_idx`.
pub struct FreeMap {
    store_max_idx: usize,
    map: RangeInclusiveSet<u64>,
}

impl FreeMap {
    /// Side length of the store.
    pub closed spec fn side(&self) -> int {
        self.store_max_idx as int
    }

    /// Row-major numbers of the free places.
    pub closed spec fn free_numbers(&self) -> Set<u64> {
        range_set_contents(self.map)
    }

    /// The free places.
    pub open spec fn free_places(&self) -> Set<StoreCoords> {
        Set::new(
            |c: StoreCoords|
                in_cube(c, self.side()) && self.free_numbers().contains(linear(c, self.side()) as u64),
        )
    }

    pub closed spec fn wf(&self) -> bool {
        &&& 1 <= self.store_max_idx
        &&& self.store_max_idx * self.store_max_idx * self.store_max_idx <= u64::MAX
        &&& forall|x: u64| #[trigger]
            self.free_numbers().contains(x) ==> x < self.store_max_idx * self.store_max_idx
                * self.store_max_idx
    }

    /// In a well-formed map the side fits the numbering and every free
    /// number is that of a free place.
    pub proof fn lemma_wf(&self)
        requires
            self.wf(),
        ensures
            1 <= self.side() <= usize::MAX,
            self.side() * self.side() * self.side() <= u64::MAX,
            forall|x: u64| #[trigger]
                self.free_numbers().contains(x) ==> x < self.side() * self.side() * self.side()
                    && self.free_places().contains(delinear(x as int, self.side()))
                    && linear(delinear(x as int, self.side()), self.side()) == x,
    {
        assert forall|x: u64| #[trigger] self.free_numbers().contains(x) implies x < self.side()
            * self.side() * self.side() && self.free_places().contains(
            delinear(x as int, self.side()),
        ) && linear(delinear(x as int, self.side()), self.side()) == x by {
            lemma_delinear(x as int, self.side());
        }
    }

    /// The row-major number of an in-store place.
    fn number_of(&self, c: &StoreCoords) -> (r: u64)
        requires
            self.wf(),
            in_cube(*c, self.side()),
        ensures
            r == linear(*c, self.side()),
    {
        let m = self.store_max_idx as u64;
        proof {
            lemma_linear_bounds(*c, self.side());
            let (a, b) = (c.0 as int, c.1 as int);
            let mi = m as int;
            assert(a * mi + b < mi * mi && a * mi <= mi * mi * mi && mi * mi <= mi * mi * mi)
                by (nonlinear_arith)
                requires
                    0 <= a < mi,
                    0 <= b < mi,
                    1 <= mi,
            {
                assert(a * mi + b < mi * mi);
                assert(mi * mi <= mi * mi * mi);
            }
            assert((a * mi + b) * mi <= mi * mi * mi) by (nonlinear_arith)
                requires
                    0 <= a * mi + b < mi * mi,
                    1 <= mi,
            {
            }
        }
        let p0 = c.0 as u64 * m;
        let p1 = p0 + c.1 as u64;
        let p2 = p1 * m;
        p2 + c.2 as u64
    }

    /// The place with a given row-major number.
    fn place_of(&self, x: u64) -> (r: StoreCoords)
        requires
            self.wf(),
            x < self.side() * self.side() * self.side(),
        ensures
            r == delinear(x as int, self.side()),
            in_cube(r, self.side()),
            linear(r, self.side()) == x,
    {
        let m = self.store_max_idx as u64;
        proof {
            lemma_delinear(x as int, self.side());
            let mi = m as int;
            assert(mi * mi <= mi * mi * mi) by (nonlinear_arith)
                requires
                    1 <= mi,
            {
            }
        }
        let mm = m * m;
        let rem = x % mm;
        StoreCoords((x / mm) as usize, (rem / m) as usize, (rem % m) as usize)
    }

    proof fn lemma_places_of_numbers(&self, lo: StoreCoords, hi: StoreCoords)
        requires
            self.wf(),
            in_cube(lo, self.side()),
            in_cube(hi, self.side()),
        ensures
            forall|c: StoreCoords|
                in_cube(c, self.side()) ==> ((coords_le(lo, c) && coords_le(c, hi)) <==> (
                linear(lo, self.side()) <= #[trigger] linear(c, self.side()) <= linear(
                    hi,
                    self.side(),
                ))),
    {
        assert forall|c: StoreCoords| in_cube(c, self.side()) implies ((coords_le(lo, c)
            && coords_le(c, hi)) <==> (linear(lo, self.side()) <= #[trigger] linear(
            c,
            self.side(),
        ) <= linear(hi, self.side()))) by {
            lemma_linear_order(lo, c, self.side());
            lemma_linear_order(c, hi, self.side());
        }
    }

    /// A map of a store of side `store_max_idx` in which every place is free.
    pub fn new(store_max_idx: usize) -> (r: FreeMap)
        requires
            1 <= store_max_idx,
            store_max_idx * store_max_idx * store_max_idx <= u64::MAX,
        ensures
            r.wf(),
            r.side() == store_max_idx,
            r.free_places() == all_places(store_max_idx as int),
    {
        let m = store_max_idx as u64;
        proof {
            let mi = m as int;
            assert(mi * mi <= mi * mi * mi) by (nonlinear_arith)
                requires
                    1 <= mi,
            {
            }
        }
        proof {
            let mi = m as int;
            assert(1 <= mi * mi * mi) by (nonlinear_arith)
                requires
                    1 <= mi,
            {
            }
        }
        let last = m * m * m - 1;
        let mut map = range_set_new();
        range_set_insert(&mut map, 0, last);
        let r = FreeMap { store_max_idx, map };
        proof {
            assert forall|c: StoreCoords| #[trigger]
                all_places(store_max_idx as int).contains(c) implies r.free_places().contains(c) by {
                lemma_linear_bounds(c, store_max_idx as int);
            }
            assert(r.free_places() =~= all_places(store_max_idx as int));
        }
        r
    }

    /// Marks `place` as taken; `false` if it was not free.
    pub fn occupy_single(&mut self, place: StoreCoords) -> (r: bool)
        requires
            old(self).wf(),
            in_cube(place, old(self).side()),
        ensures
            final(self).wf(),
            final(self).side() == old(self).side(),
            r == old(self).free_places().contains(place),
            final(self).free_places() == old(self).free_places().remove(place),
    {
        let x = self.number_of(&place);
        if !range_set_contains(&self.map, x) {
            assert(self.free_places() =~= self.free_places().remove(place));
            return false;
        }
        range_set_remove(&mut self.map, x, x);
        proof {
            let m = self.side();
            assert forall|c: StoreCoords| #[trigger]
                self.free_places().contains(c) <==> old(self).free_places().remove(place).contains(
                    c,
                ) by {
                if in_cube(c, m) {
                    lemma_linear_order(c, place, m);
                    lemma_linear_bounds(c, m);
                }
            }
            assert(self.free_places() =~= old(self).free_places().remove(place));
        }
        true
    }

    /// Marks every place of `range` as taken when at least one of them is
    /// free (`true`); otherwise leaves the map alone (`false`). A range
    /// whose end comes before its start is left alone.
    pub fn occupy_range(&mut self, range: RangeInclusive<StoreCoords>) -> (r: bool)
        requires
            old(self).wf(),
            in_cube(range@.start, old(self).side()),
            in_cube(range@.end, old(self).side()),
            coords_lt(range@.end, range@.start) ==> exists|c: StoreCoords|
                places_between(range@.end, range@.start, old(self).side()).contains(c)
                    && !old(self).free_places().contains(c),
        ensures
            final(self).wf(),
            final(self).side() == old(self).side(),
            r == (coords_le(range@.start, range@.end) && !places_between(
                range@.start,
                range@.end,
                old(self).side(),
            ).disjoint(old(self).free_places())),
            final(self).free_places() == if r {
                old(self).free_places().difference(
                    places_between(range@.start, range@.end, old(self).side()),
                )
            } else {
                old(self).free_places()
            },
    {
        let (start, end) = range_ends(range);
        let lo = self.number_of(&start);
        let hi = self.number_of(&end);
        let ghost m = self.side();
        let ghost between = places_between(start, end, m);
        proof {
            self.lemma_wf();
            lemma_linear_order(start, end, m);
            self.lemma_places_of_numbers(start, end);
            if lo > hi {
                let c = choose|c: StoreCoords|
                    places_between(end, start, m).contains(c) && !self.free_places().contains(c);
                self.lemma_places_of_numbers(end, start);
                lemma_linear_bounds(c, m);
                assert(hi <= linear(c, m) <= lo);
                assert(!self.free_numbers().contains(linear(c, m) as u64));
            }
        }
        if !range_set_overlaps(&self.map, lo, hi) {
            proof {
                if lo <= hi {
                    assert forall|c: StoreCoords| #[trigger]
                        between.contains(c) implies !self.free_places().contains(c) by {
                        lemma_linear_bounds(c, m);
                        let x = linear(c, m) as u64;
                        assert(lo <= x <= hi);
                    }
                    assert(between.disjoint(self.free_places()));
                }
            }
            return false;
        }
        assert(lo <= hi);
        proof {
            let x = choose|x: u64| lo <= x <= hi && #[trigger] self.free_numbers().contains(x);
            let c = delinear(x as int, m);
            assert(self.free_numbers().contains(x));
            assert(between.contains(c) && self.free_places().contains(c));
        }
        range_set_remove(&mut self.map, lo, hi);
        proof {
            assert forall|c: StoreCoords| #[trigger]
                self.free_places().contains(c) <==> old(self).free_places().difference(
                    between,
                ).contains(c) by {
                if in_cube(c, m) {
                    lemma_linear_bounds(c, m);
                }
            }
            assert(self.free_places() =~= old(self).free_places().difference(between));
        }
        true
    }

    /// Marks `place` as free; `false` if it already was.
    pub fn free_single(&mut self, place: StoreCoords) -> (r: bool)
        requires
            old(self).wf(),
            in_cube(place, old(self).side()),
        ensures
            final(self).wf(),
            final(self).side() == old(self).side(),
            r == !old(self).free_places().contains(place),
            final(self).free_places() == old(self).free_places().insert(place),
    {
        let x = self.number_of(&place);
        if range_set_contains(&self.map, x) {
            assert(self.free_places() =~= self.free_places().insert(place));
            return false;
        }
        range_set_insert(&mut self.map, x, x);
        proof {
            let m = self.side();
            lemma_linear_bounds(place, m);
            assert forall|c: StoreCoords| #[trigger]
                self.free_places().contains(c) <==> old(self).free_places().insert(place).contains(
                    c,
                ) by {
                if in_cube(c, m) {
                    lemma_linear_order(c, place, m);
                    lemma_linear_bounds(c, m);
                }
            }
            assert(self.free_places() =~= old(self).free_places().insert(place));
        }
        true
    }

    /// Marks every place of `range` as free when none of them is
    /// (`true`); otherwise leaves the map alone (`false`).
    pub fn free_range(&mut self, range: RangeInclusive<StoreCoords>) -> (r: bool)
        requires
            old(self).wf(),
            in_cube(range@.start, old(self).side()),
            in_cube(range@.end, old(self).side()),
            coords_lt(range@.end, range@.start) ==> places_between(
                range@.end,
                range@.start,
                old(self).side(),
            ).subset_of(old(self).free_places()),
        ensures
            final(self).wf(),
            final(self).side() == old(self).side(),
            r == (coords_le(range@.start, range@.end) && places_between(
                range@.start,
                range@.end,
                old(self).side(),
            ).disjoint(old(self).free_places())),
            final(self).free_places() == if r {
                old(self).free_places().union(
                    places_between(range@.start, range@.end, old(self).side()),
                )
            } else {
                old(self).free_places()
            },
    {
        let (start, end) = range_ends(range);
        let lo = self.number_of(&start);
        let hi = self.number_of(&end);
        let ghost m = self.side();
        let ghost between = places_between(start, end, m);
        proof {
            self.lemma_wf();
            lemma_linear_order(start, end, m);
            self.lemma_places_of_numbers(start, end);
            lemma_linear_bounds(start, m);
            lemma_linear_bounds(end, m);
            if lo > hi {
                self.lemma_places_of_numbers(end, start);
                assert forall|x: u64| (hi <= x <= lo || lo <= x <= hi) implies #[trigger]
                    self.free_numbers().contains(x) by {
                    lemma_delinear(x as int, m);
                    let c = delinear(x as int, m);
                    assert(places_between(end, start, m).contains(c));
                }
                assert(joined(self.free_numbers(), hi, lo));
            }
        }
        if range_set_overlaps(&self.map, lo, hi) {
            proof {
                if lo <= hi {
                    let x = choose|x: u64|
                        lo <= x <= hi && #[trigger] self.free_numbers().contains(x);
                    let c = delinear(x as int, m);
                    assert(self.free_numbers().contains(x));
                    assert(between.contains(c) && self.free_places().contains(c));
                }
            }
            return false;
        }
        assert(lo <= hi);
        proof {
            assert forall|c: StoreCoords| #[trigger]
                between.contains(c) implies !self.free_places().contains(c) by {
                lemma_linear_bounds(c, m);
                let x = linear(c, m) as u64;
                assert(lo <= x <= hi);
            }
            assert(between.disjoint(self.free_places()));
        }
        range_set_insert(&mut self.map, lo, hi);
        proof {
            assert forall|x: u64| #[trigger] self.free_numbers().contains(x) implies x < m * m
                * m by {
                if lo <= x <= hi {
                } else {
                    assert(old(self).free_numbers().contains(x));
                }
            }
            assert forall|c: StoreCoords| #[trigger]
                self.free_places().contains(c) <==> old(self).free_places().union(between).contains(
                    c,
                ) by {
                if in_cube(c, m) {
                    lemma_linear_bounds(c, m);
                }
            }
            assert(self.free_places() =~= old(self).free_places().union(between));
        }
        true
    }

    fn ranges_to_places(&self, runs: &Vec<(u64, u64)>) -> (r: Vec<RangeInclusive<StoreCoords>>)
        requires
            self.wf(),
            forall|i: int|
                0 <= i < runs@.len() ==> #[trigger] runs@[i].0 < self.side() * self.side()
                    * self.side() && runs@[i].1 < self.side() * self.side() * self.side(),
        ensures
            range_numbers(r@, self.side()) == runs@,
            ranges_in_cube(r@, self.side()),
    {
        let mut out: Vec<RangeInclusive<StoreCoords>> = Vec::new();
        let mut i: usize = 0;
        while i < runs.len()
            invariant
                self.wf(),
                forall|i: int|
                    0 <= i < runs@.len() ==> #[trigger] runs@[i].0 < self.side() * self.side()
                        * self.side() && runs@[i].1 < self.side() * self.side() * self.side(),
                i <= runs@.len(),
                out@.len() == i,
                range_numbers(out@, self.side()) == runs@.subrange(0, i as int),
                ranges_in_cube(out@, self.side()),
            decreases runs@.len() - i,
        {
            let (lo, hi) = runs[i];
            let a = self.place_of(lo);
            let b = self.place_of(hi);
            let item = RangeInclusive::new(a, b);
            let ghost old_out = out@;
            out.push(item);
            proof {
                let m = self.side();
                let prev = range_numbers(out@.drop_last(), m);
                assert(out@.drop_last() =~= old_out);
                assert forall|k: int| 0 <= k < i + 1 implies #[trigger] range_numbers(out@, m)[k]
                    == runs@.subrange(0, i + 1)[k] by {
                    if k < i {
                        assert(range_numbers(old_out, m)[k] == runs@.subrange(0, i as int)[k]);
                    }
                }
                assert(range_numbers(out@, m) =~= runs@.subrange(0, i + 1));
            }
            i = i + 1;
        }
        assert(runs@.subrange(0, runs@.len() as int) =~= runs@);
        out
    }

    /// The maximal runs of free places, in row-major order.
    pub fn iter(&self) -> (r: Vec<RangeInclusive<StoreCoords>>)
        requires
            self.wf(),
        ensures
            ranges_in_cube(r@, self.side()),
            is_run_list(range_numbers(r@, self.side()), self.free_numbers()),
    {
        let runs = range_set_ranges(&self.map);
        proof {
            self.lemma_wf();
            assert forall|i: int| 0 <= i < runs@.len() implies #[trigger] runs@[i].0 < self.side()
                * self.side() * self.side() && runs@[i].1 < self.side() * self.side()
                * self.side() by {
                assert(self.free_numbers().contains(runs@[i].0));
                assert(self.free_numbers().contains(runs@[i].1));
            }
        }
        self.ranges_to_places(&runs)
    }

    /// The maximal runs of free places that reach `place` or lie after it,
    /// in row-major order.
    pub fn iter_from(&self, place: StoreCoords) -> (r: Vec<RangeInclusive<StoreCoords>>)
        requires
            self.wf(),
            in_cube(place, self.side()),
        ensures
            ranges_in_cube(r@, self.side()),
            is_overlapping_run_list(
                range_numbers(r@, self.side()),
                self.free_numbers(),
                linear(place, self.side()) as u64,
                (self.side() * self.side() * self.side() - 1) as u64,
            ),
    {
        let lo = self.number_of(&place);
        let m = self.store_max_idx as u64;
        proof {
            self.lemma_wf();
            lemma_linear_bounds(place, self.side());
            let mi = m as int;
            assert(mi * mi <= mi * mi * mi) by (nonlinear_arith)
                requires
                    1 <= mi,
            {
            }
        }
        let hi = m * m * m - 1;
        let runs = range_set_overlapping(&self.map, lo, hi);
        proof {
            assert forall|i: int| 0 <= i < runs@.len() implies #[trigger] runs@[i].0 < self.side()
                * self.side() * self.side() && runs@[i].1 < self.side() * self.side()
                * self.side() by {
                assert(self.free_numbers().contains(runs@[i].0));
                assert(self.free_numbers().contains(runs@[i].1));
            }
        }
        self.ranges_to_places(&runs)
    }
}


/// Freeing a place just taken, that was free before, gives back the same
/// free places.
pub proof fn lemma_free_undoes_occupy_single(free: Set<StoreCoords>, place: StoreCoords)
    requires
        free.contains(place),
    ensures
        free.remove(place).insert(place) == free,
{
    assert(free.remove(place).insert(place) =~= free);
}

/// Freeing a range just taken, all of whose places were free before,
/// gives back the same free places; and the taken range is then disjoint
/// from the free places, so `free_range` accepts it.
pub proof fn lemma_free_undoes_occupy_range(free: Set<StoreCoords>, between: Set<StoreCoords>)
    requires
        between.subset_of(free),
    ensures
        between.disjoint(free.difference(between)),
        free.difference(between).union(between) == free,
{
    assert(free.difference(between).union(between) =~= free);
}


/// Two well-formed maps of one side with the same free places hold the
/// same free numbers.
proof fn lemma_same_places_same_numbers(a: FreeMap, b: FreeMap)
    requires
        a.wf(),
        b.wf(),
        a.side() == b.side(),
        a.free_places() == b.free_places(),
    ensures
        a.free_numbers() == b.free_numbers(),
{
    a.lemma_wf();
    b.lemma_wf();
    let m = a.side();
    assert forall|x: u64| a.free_numbers().contains(x) <==> b.free_numbers().contains(x) by {
        if a.free_numbers().contains(x) {
            let c = delinear(x as int, m);
            assert(a.free_places().contains(c));
            assert(b.free_places().contains(c));
        }
        if b.free_numbers().contains(x) {
            let c = delinear(x as int, m);
            assert(b.free_places().contains(c));
            assert(a.free_places().contains(c));
        }
    }
    assert(a.free_numbers() =~= b.free_numbers());
}

/// Maps with the same free places list the same runs: the lists that
/// `iter` gives for them name the same places, start and end.
pub proof fn lemma_same_free_places_same_runs(
    a: FreeMap,
    b: FreeMap,
    ra: Seq<RangeInclusive<StoreCoords>>,
    rb: Seq<RangeInclusive<StoreCoords>>,
)
    requires
        a.wf(),
        b.wf(),
        a.side() == b.side(),
        a.free_places() == b.free_places(),
        ranges_in_cube(ra, a.side()),
        is_run_list(range_numbers(ra, a.side()), a.free_numbers()),
        ranges_in_cube(rb, b.side()),
        is_run_list(range_numbers(rb, b.side()), b.free_numbers()),
    ensures
        ra.len() == rb.len(),
        forall|i: int| 0 <= i < ra.len() ==> #[trigger] ra[i]@ == rb[i]@,
{
    let m = a.side();
    lemma_same_places_same_numbers(a, b);
    lemma_run_list_unique(range_numbers(ra, m), range_numbers(rb, m), a.free_numbers());
    assert(range_numbers(ra, m).len() == ra.len());
    assert(range_numbers(rb, m).len() == rb.len());
    assert forall|i: int| 0 <= i < ra.len() implies #[trigger] ra[i]@ == rb[i]@ by {
        assert(range_numbers(ra, m)[i] == range_numbers(rb, m)[i]);
        assert(in_cube(ra[i]@.start, m) && in_cube(ra[i]@.end, m));
        assert(in_cube(rb[i]@.start, m) && in_cube(rb[i]@.end, m));
        lemma_linear_bounds(ra[i]@.start, m);
        lemma_linear_bounds(rb[i]@.start, m);
        lemma_linear_bounds(ra[i]@.end, m);
        lemma_linear_bounds(rb[i]@.end, m);
        lemma_linear_order(ra[i]@.start, rb[i]@.start, m);
        lemma_linear_order(ra[i]@.end, rb[i]@.end, m);
    }
}

/// Freeing a free place just occupied lists the same runs of free places
/// as before: `before` and `after` are the map before `occupy_single(p)`
/// and after the `free_single(p)` that follows it, `ra` and `rb` what
/// `iter` gives for them.
pub proof fn lemma_free_undoes_occupy_in_runs(
    before: FreeMap,
    after: FreeMap,
    p: StoreCoords,
    ra: Seq<RangeInclusive<StoreCoords>>,
    rb: Seq<RangeInclusive<StoreCoords>>,
)
    requires
        before.wf(),
        after.wf(),
        after.side() == before.side(),
        before.free_places().contains(p),
        after.free_places() == before.free_places().remove(p).insert(p),
        ranges_in_cube(ra, before.side()),
        is_run_list(range_numbers(ra, before.side()), before.free_numbers()),
        ranges_in_cube(rb, after.side()),
        is_run_list(range_numbers(rb, after.side()), after.free_numbers()),
    ensures
        ra.len() == rb.len(),
        forall|i: int| 0 <= i < ra.len() ==> #[trigger] ra[i]@ == rb[i]@,
{
    lemma_free_undoes_occupy_single(before.free_places(), p);
    lemma_same_free_places_same_runs(before, after, ra, rb);
}

} // verus!
