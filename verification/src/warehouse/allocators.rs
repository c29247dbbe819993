//! Allocation strategies: where a new product goes.
//!
//! The scanning strategies walk the shelves in row-major order and, on a
//! shelf, count empty zones: a product that needs `n` extra zones goes to
//! the shelf's `n + 1`-th empty zone (the empty zones counted need not be
//! adjacent). The strategies over the free map look at maximal runs of
//! free places instead.

use vstd::prelude::*;
use crate::warehouse::coords::{
    StoreCoords, in_cube, coords_le, coords_le_exec, linear, delinear, lemma_linear_order,
    lemma_linear_bounds, lemma_delinear, spec_next, next_defined,
};
use crate::warehouse::free_map::{FreeMap, range_ends, range_numbers, ranges_in_cube, places_between};
use crate::warehouse::range_set::{
    is_run_list, is_overlapping_run_list, joined, starts_run, lemma_first_run, lemma_overlapping_runs,
    lemma_run_extent, is_maximal_run,
};
use crate::warehouse::product::{Product, ProductCategory};
use crate::warehouse::storage::{Warehouse, WarehouseAllocator, WarehouseEntry};

verus! {

/// Zones that a product of category `q` takes after its own.
pub open spec fn extra_zones(q: ProductCategory) -> int {
    match q {
        ProductCategory::Oversized { zone_count } => zone_count as int,
        _ => 0,
    }
}

/// A product of category `q` may go to row `i`.
pub open spec fn row_allowed(q: ProductCategory, i: int) -> bool {
    match q {
        ProductCategory::Fragile { max_row, .. } => i <= max_row,
        _ => true,
    }
}

/// Shelf `(a, b)` comes before shelf `(i, j)` in row-major order.
pub open spec fn shelf_before(a: usize, b: usize, i: usize, j: usize) -> bool {
    a < i || (a == i && b < j)
}

/// `(i, j)` is the first shelf of a store of side `m` that is `good`.
pub open spec fn is_first_shelf(m: int, good: spec_fn(usize, usize) -> bool, i: usize, j: usize) -> bool {
    &&& i < m
    &&& j < m
    &&& good(i, j)
    &&& forall|a: usize, b: usize|
        #![trigger good(a, b)]
        a < m && b < m && shelf_before(a, b, i, j) ==> !good(a, b)
}

/// The first shelf, in row-major order, that is `good`.
pub open spec fn first_shelf(m: int, good: spec_fn(usize, usize) -> bool) -> Option<(usize, usize)> {
    if exists|i: usize, j: usize| #![trigger good(i, j)] i < m && j < m && good(i, j) {
        Some(choose|ij: (usize, usize)| is_first_shelf(m, good, ij.0, ij.1))
    } else {
        None
    }
}

pub proof fn lemma_first_shelf(m: int, good: spec_fn(usize, usize) -> bool, i: usize, j: usize)
    requires
        is_first_shelf(m, good, i, j),
    ensures
        first_shelf(m, good) == Some((i, j)),
{
    assert(good(i, j));
    let w = (i, j);
    assert(is_first_shelf(m, good, w.0, w.1));
    let ij = choose|ij: (usize, usize)| is_first_shelf(m, good, ij.0, ij.1);
    assert(is_first_shelf(m, good, ij.0, ij.1));
    if shelf_before(ij.0, ij.1, i, j) {
        assert(!good(ij.0, ij.1));
    } else if shelf_before(i, j, ij.0, ij.1) {
        assert(!good(i, j));
    }
}

pub proof fn lemma_no_shelf(m: int, good: spec_fn(usize, usize) -> bool)
    requires
        forall|a: usize, b: usize| #![trigger good(a, b)] a < m && b < m ==> !good(a, b),
    ensures
        first_shelf(m, good) is None,
{
}

/// Empty zones of shelf `(i, j)` among the zones `from .. until`.
pub open spec fn vacant_count<I: Product>(w: Warehouse<I>, i: usize, j: usize, from: int, until: int) -> int
    decreases until - from,
{
    if until <= from {
        0
    } else {
        vacant_count(w, i, j, from, until - 1) + if w.cell(StoreCoords(i, j, (until - 1) as usize)) is Vacant {
            1int
        } else {
            0int
        }
    }
}

/// Zone `k` of shelf `(i, j)` is empty and `n` empty zones precede it
/// from zone `from` on.
pub open spec fn is_nth_vacant<I: Product>(w: Warehouse<I>, i: usize, j: usize, from: int, n: int, k: int) -> bool {
    &&& from <= k < w.side()
    &&& w.cell(StoreCoords(i, j, k as usize)) is Vacant
    &&& vacant_count(w, i, j, from, k) == n
}

/// The zone of shelf `(i, j)` that is the `n + 1`-th empty zone from zone
/// `from` on.
pub open spec fn nth_vacant<I: Product>(w: Warehouse<I>, i: usize, j: usize, from: int, n: int) -> int {
    choose|k: int| is_nth_vacant(w, i, j, from, n, k)
}

proof fn lemma_vacant_count_grows<I: Product>(w: Warehouse<I>, i: usize, j: usize, from: int, a: int, b: int)
    requires
        from <= a <= b,
    ensures
        vacant_count(w, i, j, from, a) <= vacant_count(w, i, j, from, b),
        a < b && w.cell(StoreCoords(i, j, a as usize)) is Vacant ==> vacant_count(w, i, j, from, a) < vacant_count(w, i, j, from, b),
    decreases b - a,
{
    if a < b {
        lemma_vacant_count_grows(w, i, j, from, a, b - 1);
    }
}

proof fn lemma_nth_vacant<I: Product>(w: Warehouse<I>, i: usize, j: usize, from: int, n: int, k: int)
    requires
        is_nth_vacant(w, i, j, from, n, k),
    ensures
        nth_vacant(w, i, j, from, n) == k,
{
    let k2 = nth_vacant(w, i, j, from, n);
    assert(is_nth_vacant(w, i, j, from, n, k2));
    if k2 < k {
        lemma_vacant_count_grows(w, i, j, from, k2, k);
    } else if k < k2 {
        lemma_vacant_count_grows(w, i, j, from, k, k2);
    }
}

/// Scans shelf `(i, j)` from zone `from` for its `n + 1`-th empty zone.
fn scan_shelf<I: Product>(w: &Warehouse<I>, store: &Vec<Vec<Vec<WarehouseEntry<I>>>>, i: usize, j: usize, from: usize, n: usize) -> (r: Option<usize>)
    requires
        w.wf(),
        i < w.side(),
        j < w.side(),
        store@.len() == w.side(),
        forall|a: int| 0 <= a < w.side() ==> (#[trigger] store@[a])@.len() == w.side(),
        forall|a: int, b: int|
            0 <= a < w.side() && 0 <= b < w.side() ==> (#[trigger] store@[a]@[b])@.len() == w.side(),
        forall|c: StoreCoords|
            in_cube(c, w.side()) ==> #[trigger] w.cell(c) == store@[c.0 as int]@[c.1 as int]@[c.2 as int],
    ensures
        match r {
            Some(k) => is_nth_vacant(*w, i, j, from as int, n as int, k as int) && nth_vacant(*w, i, j, from as int, n as int) == k,
            None => vacant_count(*w, i, j, from as int, w.side()) <= n,
        },
{
    let shelf = &store[i][j];
    let len = shelf.len();
    if from >= len {
        return None;
    }
    let mut left: usize = n;
    let mut k: usize = from;
    while k < len
        invariant
            len == w.side(),
            shelf@.len() == len,
            shelf@ == store@[i as int]@[j as int]@,
            i < w.side(),
            j < w.side(),
            from <= k <= len,
            forall|c: StoreCoords|
                in_cube(c, w.side()) ==> #[trigger] w.cell(c) == store@[c.0 as int]@[c.1 as int]@[c.2 as int],
            vacant_count(*w, i, j, from as int, k as int) + left == n,
            left <= n,
        decreases len - k,
    {
        proof {
            assert(w.cell(StoreCoords(i, j, k)) == shelf@[k as int]);
        }
        match &shelf[k] {
            WarehouseEntry::Vacant => {
                if left == 0 {
                    proof {
                        lemma_nth_vacant(*w, i, j, from as int, n as int, k as int);
                    }
                    return Some(k);
                }
                left = left - 1;
            },
            _ => {},
        }
        k = k + 1;
    }
    None
}

/// Fills the first shelf that has room, scanning from the start of the store.
pub struct WarehouseAllocatorClosestFirst;

/// Shelves where `ClosestFirst` can place a product of category `q`.
pub open spec fn closest_first_good<I: Product>(w: Warehouse<I>, q: ProductCategory) -> spec_fn(usize, usize) -> bool {
    |i: usize, j: usize| row_allowed(q, i as int) && vacant_count(w, i, j, 0, w.side()) > extra_zones(q)
}

/// The place `ClosestFirst` proposes: on the first shelf with room, the
/// empty zone that completes the count, moved back by the extra zones.
pub open spec fn closest_first_proposal<I: Product>(w: Warehouse<I>, q: ProductCategory) -> Option<StoreCoords> {
    match first_shelf(w.side(), closest_first_good(w, q)) {
        None => None,
        Some(ij) => Some(
            StoreCoords(ij.0, ij.1, (nth_vacant(w, ij.0, ij.1, 0, extra_zones(q)) - extra_zones(q)) as usize),
        ),
    }
}

impl<I: Product> WarehouseAllocator<I> for WarehouseAllocatorClosestFirst {
    open spec fn answers(&self, warehouse: &Warehouse<I>, product: &I) -> bool {
        true
    }

    open spec fn proposal(&self, warehouse: &Warehouse<I>, product: &I) -> Option<StoreCoords> {
        closest_first_proposal(*warehouse, product.spec_quality())
    }

    open spec fn after_next(&self, warehouse: &Warehouse<I>, product: &I) -> Self {
        *self
    }

    fn next(&mut self, warehouse: &Warehouse<I>, product: &I) -> (r: Option<StoreCoords>) {
        let q = *product.quality();
        let zc: usize = match q {
            ProductCategory::Oversized { zone_count } => zone_count,
            _ => 0,
        };
        let ghost good = closest_first_good(*warehouse, q);
        let store = warehouse.store();
        proof {
            warehouse.lemma_wf();
        }
        let m = store.len();
        let mut i: usize = 0;
        while i < m
            invariant
                warehouse.wf(),
                m == warehouse.side(),
                q == product.spec_quality(),
                zc == extra_zones(q),
                good == closest_first_good(*warehouse, q),
                i <= m,
                store@.len() == warehouse.side(),
                forall|a: int| 0 <= a < warehouse.side() ==> (#[trigger] store@[a])@.len() == warehouse.side(),
                forall|a: int, b: int|
                    0 <= a < warehouse.side() && 0 <= b < warehouse.side() ==> (#[trigger] store@[a]@[b])@.len() == warehouse.side(),
                forall|c: StoreCoords|
                    in_cube(c, warehouse.side()) ==> #[trigger] warehouse.cell(c) == store@[c.0 as int]@[c.1 as int]@[c.2 as int],
                forall|a: usize, b: usize| #![trigger good(a, b)] a < i && b < m ==> !good(a, b),
            decreases m - i,
        {
            if let ProductCategory::Fragile { max_row, .. } = q {
                if i > max_row {
                    proof {
                        assert forall|a: usize, b: usize| #![trigger good(a, b)] a < m && b < m implies !good(a, b) by {
                            if a >= i {
                                assert(!row_allowed(q, a as int));
                            }
                        }
                        lemma_no_shelf(m as int, good);
                    }
                    return None;
                }
            }
            let mut j: usize = 0;
            while j < m
                invariant
                    warehouse.wf(),
                    m == warehouse.side(),
                    q == product.spec_quality(),
                    zc == extra_zones(q),
                    good == closest_first_good(*warehouse, q),
                    i < m,
                    j <= m,
                    row_allowed(q, i as int),
                    store@.len() == warehouse.side(),
                    forall|a: int| 0 <= a < warehouse.side() ==> (#[trigger] store@[a])@.len() == warehouse.side(),
                    forall|a: int, b: int|
                        0 <= a < warehouse.side() && 0 <= b < warehouse.side() ==> (#[trigger] store@[a]@[b])@.len() == warehouse.side(),
                    forall|c: StoreCoords|
                        in_cube(c, warehouse.side()) ==> #[trigger] warehouse.cell(c) == store@[c.0 as int]@[c.1 as int]@[c.2 as int],
                    forall|a: usize, b: usize| #![trigger good(a, b)] a < m && b < m && shelf_before(a, b, i, j) ==> !good(a, b),
                decreases m - j,
            {
                match scan_shelf(warehouse, store, i, j, 0, zc) {
                    Some(k) => {
                        proof {
                            assert(vacant_count(*warehouse, i, j, 0, k as int) == zc);
                            lemma_vacant_count_grows(*warehouse, i, j, 0, k as int, m as int);
                            assert(good(i, j));
                            lemma_first_shelf(m as int, good, i, j);
                            assert(k >= zc) by {
                                lemma_vacant_count_bound(*warehouse, i, j, 0, k as int);
                            }
                        }
                        return Some(StoreCoords(i, j, k - zc));
                    },
                    None => {
                        proof {
                            assert(!good(i, j));
                        }
                    },
                }
                j = j + 1;
            }
            i = i + 1;
        }
        proof {
            lemma_no_shelf(m as int, good);
        }
        None
    }
}

proof fn lemma_vacant_count_bound<I: Product>(w: Warehouse<I>, i: usize, j: usize, from: int, until: int)
    ensures
        vacant_count(w, i, j, from, until) <= if until >= from { until - from } else { 0 },
        vacant_count(w, i, j, from, until) >= 0,
    decreases until - from,
{
    if until > from {
        lemma_vacant_count_bound(w, i, j, from, until - 1);
    }
}

/// Continues scanning from the place it last proposed.
pub struct WarehouseAllocatorRoundRobin {
    last_coords: StoreCoords,
}

/// Zone from which `RoundRobin`, having last proposed `l`, scans shelf
/// `(i, j)`: the first shelf it scans is scanned from `l`'s zone, every
/// later one from zone 0.
pub open spec fn round_robin_from(l: StoreCoords, m: int, i: usize, j: usize) -> int {
    if (i == l.0 && j == l.1) || (l.1 >= m && i == l.0 + 1 && j == 0) {
        l.2 as int
    } else {
        0
    }
}

/// Shelves where `RoundRobin` can place a product of category `q`.
pub open spec fn round_robin_good<I: Product>(w: Warehouse<I>, q: ProductCategory, l: StoreCoords) -> spec_fn(usize, usize) -> bool {
    |i: usize, j: usize|
        !shelf_before(i, j, l.0, l.1) && row_allowed(q, i as int) && vacant_count(
            w,
            i,
            j,
            round_robin_from(l, w.side(), i, j),
            w.side(),
        ) > extra_zones(q)
}

/// The place `RoundRobin` proposes: on the first shelf with room at or
/// after the last proposal, the empty zone that completes the count.
pub open spec fn round_robin_proposal<I: Product>(w: Warehouse<I>, q: ProductCategory, l: StoreCoords) -> Option<StoreCoords> {
    match first_shelf(w.side(), round_robin_good(w, q, l)) {
        None => None,
        Some(ij) => Some(
            StoreCoords(
                ij.0,
                ij.1,
                nth_vacant(w, ij.0, ij.1, round_robin_from(l, w.side(), ij.0, ij.1), extra_zones(q)) as usize,
            ),
        ),
    }
}

impl WarehouseAllocatorRoundRobin {
    /// The place last proposed (at first, the first place).
    pub closed spec fn last(&self) -> StoreCoords {
        self.last_coords
    }

    /// The strategy once it has proposed `c`.
    pub closed spec fn recording(c: StoreCoords) -> Self {
        WarehouseAllocatorRoundRobin { last_coords: c }
    }

    /// After proposing `c`, the strategy records `c` as its last place.
    pub proof fn lemma_records(c: StoreCoords)
        ensures
            Self::recording(c).last() == c,
    {
    }

    pub fn new() -> (r: Self)
        ensures
            r.last() == StoreCoords(0, 0, 0),
    {
        WarehouseAllocatorRoundRobin { last_coords: StoreCoords(0, 0, 0) }
    }
}

impl<I: Product> WarehouseAllocator<I> for WarehouseAllocatorRoundRobin {
    open spec fn answers(&self, warehouse: &Warehouse<I>, product: &I) -> bool {
        true
    }

    open spec fn proposal(&self, warehouse: &Warehouse<I>, product: &I) -> Option<StoreCoords> {
        round_robin_proposal(*warehouse, product.spec_quality(), self.last())
    }

    open spec fn after_next(&self, warehouse: &Warehouse<I>, product: &I) -> Self {
        match round_robin_proposal(*warehouse, product.spec_quality(), self.last()) {
            Some(c) => WarehouseAllocatorRoundRobin::recording(c),
            None => *self,
        }
    }

    fn next(&mut self, warehouse: &Warehouse<I>, product: &I) -> (r: Option<StoreCoords>) {
        let q = *product.quality();
        let zc: usize = match q {
            ProductCategory::Oversized { zone_count } => zone_count,
            _ => 0,
        };
        let l = self.last_coords.copy();
        let ghost good = round_robin_good(*warehouse, q, l);
        let store = warehouse.store();
        proof {
            warehouse.lemma_wf();
        }
        let m = store.len();
        let mut i: usize = l.0;
        let mut j: usize = l.1;
        let mut first: bool = true;
        while i < m
            invariant
                warehouse.wf(),
                m == warehouse.side(),
                q == product.spec_quality(),
                zc == extra_zones(q),
                l == old(self).last(),
                *self == *old(self),
                good == round_robin_good(*warehouse, q, l),
                l.0 <= i,
                i <= m || i == l.0,
                (i == l.0 && j == l.1 && first) || (i > l.0 && j == 0 && first == (l.1 >= m && i == l.0 + 1)),
                store@.len() == warehouse.side(),
                forall|a: int| 0 <= a < warehouse.side() ==> (#[trigger] store@[a])@.len() == warehouse.side(),
                forall|a: int, b: int|
                    0 <= a < warehouse.side() && 0 <= b < warehouse.side() ==> (#[trigger] store@[a]@[b])@.len() == warehouse.side(),
                forall|c: StoreCoords|
                    in_cube(c, warehouse.side()) ==> #[trigger] warehouse.cell(c) == store@[c.0 as int]@[c.1 as int]@[c.2 as int],
                forall|a: usize, b: usize| #![trigger good(a, b)] a < i && b < m ==> !good(a, b),
            decreases m - i,
        {
            if let ProductCategory::Fragile { max_row, .. } = q {
                if i > max_row {
                    proof {
                        assert forall|a: usize, b: usize| #![trigger good(a, b)] a < m && b < m implies !good(a, b) by {
                            if a >= i {
                                assert(!row_allowed(q, a as int));
                            }
                        }
                        lemma_no_shelf(m as int, good);
                    }
                    return None;
                }
            }
            let ghost j0 = j;
            while j < m
                invariant
                    warehouse.wf(),
                    m == warehouse.side(),
                    q == product.spec_quality(),
                    zc == extra_zones(q),
                    l == old(self).last(),
                    *self == *old(self),
                    good == round_robin_good(*warehouse, q, l),
                    l.0 <= i < m,
                    row_allowed(q, i as int),
                    j0 <= j,
                    (i == l.0 && j0 == l.1) || (i > l.0 && j0 == 0),
                    first == ((i == l.0 && j == l.1) || (l.1 >= m && i == l.0 + 1 && j == 0)),
                    store@.len() == warehouse.side(),
                    forall|a: int| 0 <= a < warehouse.side() ==> (#[trigger] store@[a])@.len() == warehouse.side(),
                    forall|a: int, b: int|
                        0 <= a < warehouse.side() && 0 <= b < warehouse.side() ==> (#[trigger] store@[a]@[b])@.len() == warehouse.side(),
                    forall|c: StoreCoords|
                        in_cube(c, warehouse.side()) ==> #[trigger] warehouse.cell(c) == store@[c.0 as int]@[c.1 as int]@[c.2 as int],
                    forall|a: usize, b: usize| #![trigger good(a, b)] a < m && b < m && shelf_before(a, b, i, j) ==> !good(a, b),
                decreases m - j,
            {
                let from: usize = if first {
                    l.2
                } else {
                    0
                };
                proof {
                    assert(from == round_robin_from(l, m as int, i, j));
                }
                match scan_shelf(warehouse, store, i, j, from, zc) {
                    Some(k) => {
                        proof {
                            lemma_vacant_count_grows(*warehouse, i, j, from as int, k as int, m as int);
                            assert(good(i, j));
                            lemma_first_shelf(m as int, good, i, j);
                        }
                        let found = StoreCoords(i, j, k);
                        self.last_coords = found.copy();
                        return Some(found);
                    },
                    None => {
                        proof {
                            assert(!good(i, j));
                        }
                    },
                }
                j = j + 1;
                first = false;
            }
            proof {
                assert forall|a: usize, b: usize| #![trigger good(a, b)] a < i + 1 && b < m implies !good(a, b) by {
                    if a == i && b < j0 {
                        assert(shelf_before(a, b, l.0, l.1));
                    }
                }
            }
            i = i + 1;
            j = 0;
            first = l.1 >= m && i == l.0 + 1;
        }
        proof {
            lemma_no_shelf(m as int, good);
        }
        None
    }
}

/// Free places and free numbers of a free map correspond.
proof fn lemma_free_numbers(fm: FreeMap)
    requires
        fm.wf(),
    ensures
        1 <= fm.side(),
        fm.side() <= usize::MAX,
        fm.side() * fm.side() * fm.side() <= u64::MAX,
        forall|c: StoreCoords| in_cube(c, fm.side()) ==> (#[trigger] fm.free_places().contains(c)
            <==> fm.free_numbers().contains(linear(c, fm.side()) as u64)),
        forall|c: StoreCoords| #[trigger] fm.free_places().contains(c) ==> in_cube(c, fm.side()),
        forall|x: u64| #[trigger]
            fm.free_numbers().contains(x) ==> x < fm.side() * fm.side() * fm.side()
                && fm.free_places().contains(delinear(x as int, fm.side()))
                && linear(delinear(x as int, fm.side()), fm.side()) == x,
{
    fm.lemma_wf();
}

/// Everything from `a` to `b` (numbers) is free exactly when every place
/// from `a` to `b` (places) is.
proof fn lemma_joined_places(fm: FreeMap, a: StoreCoords, b: StoreCoords)
    requires
        fm.wf(),
        in_cube(a, fm.side()),
        in_cube(b, fm.side()),
        coords_le(a, b),
    ensures
        joined(fm.free_numbers(), linear(a, fm.side()) as u64, linear(b, fm.side()) as u64)
            <==> places_between(a, b, fm.side()).subset_of(fm.free_places()),
{
    let m = fm.side();
    lemma_free_numbers(fm);
    lemma_linear_bounds(a, m);
    lemma_linear_bounds(b, m);
    let la = linear(a, m) as u64;
    let lb = linear(b, m) as u64;
    if joined(fm.free_numbers(), la, lb) {
        assert forall|c: StoreCoords| #[trigger] places_between(a, b, m).contains(c) implies fm.free_places().contains(c) by {
            lemma_linear_order(a, c, m);
            lemma_linear_order(c, b, m);
            lemma_linear_bounds(c, m);
            assert(fm.free_numbers().contains(linear(c, m) as u64));
        }
    }
    if places_between(a, b, m).subset_of(fm.free_places()) {
        assert forall|x: u64| (la <= x <= lb || lb <= x <= la) implies #[trigger] fm.free_numbers().contains(x) by {
            lemma_linear_order(a, b, m);
            lemma_delinear(x as int, m);
            let c = delinear(x as int, m);
            lemma_linear_order(a, c, m);
            lemma_linear_order(c, b, m);
            assert(places_between(a, b, m).contains(c));
        }
    }
}

/// Some place of the store is free.
pub open spec fn has_free<I: Product>(w: Warehouse<I>) -> bool {
    exists|c: StoreCoords| #[trigger] w.free().contains(c)
}

/// The free place that comes first in row-major order.
pub open spec fn first_free<I: Product>(w: Warehouse<I>) -> StoreCoords {
    choose|c: StoreCoords|
        w.free().contains(c) && forall|d: StoreCoords| #[trigger] w.free().contains(d) ==> coords_le(c, d)
}

/// An oversized product with `zc` extra zones fits from `s` for the
/// free-map strategies: it ends before the shelf's last zone, and every
/// place from `s` to its end is free.
pub open spec fn oversized_fits_from<I: Product>(w: Warehouse<I>, s: StoreCoords, zc: int) -> bool {
    &&& s.2 + zc < w.side() - 1
    &&& places_between(s, StoreCoords(s.0, s.1, (s.2 + zc) as usize), w.side()).subset_of(w.free())
}

/// What the free-map strategies propose when their chosen run starts at `s`.
pub open spec fn run_start_proposal<I: Product>(w: Warehouse<I>, q: ProductCategory, s: StoreCoords) -> Option<StoreCoords> {
    match q {
        ProductCategory::Oversized { zone_count } => if oversized_fits_from(w, s, zone_count as int) {
            Some(s)
        } else {
            None
        },
        _ => Some(s),
    }
}

/// Checks the oversized rule for a run `[start, end]` of free places.
fn check_run<I: Product>(warehouse: &Warehouse<I>, q: ProductCategory, start: StoreCoords, end: StoreCoords) -> (r: Option<StoreCoords>)
    requires
        warehouse.wf(),
        in_cube(start, warehouse.side()),
        in_cube(end, warehouse.side()),
        coords_le(start, end),
        warehouse.free().contains(start),
        forall|c: StoreCoords| in_cube(c, warehouse.side()) && coords_le(start, c) ==> (coords_le(c, end)
            <==> places_between(start, c, warehouse.side()).subset_of(warehouse.free())),
        q matches ProductCategory::Oversized { zone_count } ==> start.2 + zone_count <= usize::MAX,
    ensures
        r == run_start_proposal(*warehouse, q, start),
{
    if let ProductCategory::Oversized { zone_count } = q {
        let m = warehouse.store_max_idx();
        proof {
            warehouse.lemma_wf();
        }
        if start.2 + zone_count >= m - 1 {
            return None;
        }
        let try_end = StoreCoords(start.0, start.1, start.2 + zone_count);
        if !(coords_le_exec(&start, &try_end) && coords_le_exec(&try_end, &end)) {
            return None;
        }
    }
    Some(start)
}

/// Fills the first run of free places.
pub struct WarehouseAllocatorClosestFirstEfficient;

impl<I: Product> WarehouseAllocator<I> for WarehouseAllocatorClosestFirstEfficient {
    /// It keeps looking at the first run of free places when a fragile
    /// product may not go to that run's row, and so never answers; and
    /// the oversized rule's arithmetic must not overflow.
    open spec fn answers(&self, warehouse: &Warehouse<I>, product: &I) -> bool {
        has_free(*warehouse) ==> match product.spec_quality() {
            ProductCategory::Fragile { max_row, .. } => first_free(*warehouse).0 <= max_row,
            ProductCategory::Oversized { zone_count } => first_free(*warehouse).2 + zone_count <= usize::MAX,
            _ => true,
        }
    }

    open spec fn proposal(&self, warehouse: &Warehouse<I>, product: &I) -> Option<StoreCoords> {
        if has_free(*warehouse) {
            run_start_proposal(*warehouse, product.spec_quality(), first_free(*warehouse))
        } else {
            None
        }
    }

    open spec fn after_next(&self, warehouse: &Warehouse<I>, product: &I) -> Self {
        *self
    }

    fn next(&mut self, warehouse: &Warehouse<I>, product: &I) -> (r: Option<StoreCoords>) {
        let q = *product.quality();
        let fm = warehouse.free_map();
        let mut ranges = fm.iter();
        let ghost m = fm.side();
        let ghost runs = range_numbers(ranges@, m);
        proof {
            lemma_free_numbers(*fm);
            lemma_first_run(runs, fm.free_numbers());
        }
        if ranges.len() == 0 {
            proof {
                assert forall|c: StoreCoords| !(#[trigger] warehouse.free().contains(c)) by {
                    if warehouse.free().contains(c) {
                        lemma_linear_bounds(c, m);
                        assert(fm.free_numbers().contains(linear(c, m) as u64));
                    }
                }
            }
            return None;
        }
        let ghost first_range = ranges@[0];
        assert(in_cube(first_range@.start, m) && in_cube(first_range@.end, m) && !first_range@.exhausted);
        let first = ranges.remove(0);
        let (start, end) = range_ends(first);
        proof {
            assert(runs[0] == (linear(start, m) as u64, linear(end, m) as u64));
            lemma_linear_bounds(start, m);
            lemma_linear_bounds(end, m);
            assert(warehouse.free().contains(start));
            assert forall|d: StoreCoords| #[trigger] warehouse.free().contains(d) implies coords_le(start, d) by {
                lemma_linear_bounds(d, m);
                lemma_linear_order(start, d, m);
            }
            let ff = first_free(*warehouse);
            assert(has_free(*warehouse));
            assert(warehouse.free().contains(ff) && forall|d: StoreCoords| #[trigger] warehouse.free().contains(d) ==> coords_le(ff, d));
            assert(coords_le(start, ff) && coords_le(ff, start));
            lemma_linear_order(start, ff, m);
            assert(ff == start);
            lemma_linear_order(start, end, m);
            assert forall|c: StoreCoords| in_cube(c, m) && coords_le(start, c) implies (coords_le(c, end)
                <==> places_between(start, c, m).subset_of(warehouse.free())) by {
                lemma_linear_order(start, c, m);
                lemma_linear_order(c, end, m);
                lemma_linear_bounds(c, m);
                lemma_joined_places(*fm, start, c);
            }
        }
        if let ProductCategory::Fragile { max_row, .. } = q {
            if start.0 > max_row {
                proof {
                    assert(false);
                }
                return vstd::pervasive::unreached();
            }
        }
        check_run(warehouse, q, start, end)
    }
}

impl WarehouseAllocatorClosestFirstEfficient {
    /// Whether `next` comes back for this product (`answers`).
    pub fn proceeds<I: Product>(&self, warehouse: &Warehouse<I>, product: &I) -> (b: bool)
        requires
            warehouse.wf(),
        ensures
            b == <WarehouseAllocatorClosestFirstEfficient as WarehouseAllocator<I>>::answers(self, warehouse, product),
    {
        let q = *product.quality();
        let fm = warehouse.free_map();
        let mut ranges = fm.iter();
        let ghost m = fm.side();
        let ghost runs = range_numbers(ranges@, m);
        proof {
            lemma_free_numbers(*fm);
            lemma_first_run(runs, fm.free_numbers());
        }
        if ranges.len() == 0 {
            proof {
                assert forall|c: StoreCoords| !(#[trigger] warehouse.free().contains(c)) by {
                    if warehouse.free().contains(c) {
                        lemma_linear_bounds(c, m);
                        assert(fm.free_numbers().contains(linear(c, m) as u64));
                    }
                }
            }
            return true;
        }
        let ghost first_range = ranges@[0];
        assert(in_cube(first_range@.start, m) && in_cube(first_range@.end, m) && !first_range@.exhausted);
        let first = ranges.remove(0);
        let (start, _) = range_ends(first);
        proof {
            assert(runs[0].0 == linear(start, m) as u64);
            lemma_linear_bounds(start, m);
            assert(warehouse.free().contains(start));
            assert forall|d: StoreCoords| #[trigger] warehouse.free().contains(d) implies coords_le(start, d) by {
                lemma_linear_bounds(d, m);
                lemma_linear_order(start, d, m);
            }
            let ff = first_free(*warehouse);
            assert(has_free(*warehouse));
            assert(warehouse.free().contains(ff) && forall|d: StoreCoords| #[trigger] warehouse.free().contains(d) ==> coords_le(ff, d));
            assert(coords_le(start, ff) && coords_le(ff, start));
            lemma_linear_order(start, ff, m);
            assert(ff == start);
        }
        match q {
            ProductCategory::Fragile { max_row, .. } => start.0 <= max_row,
            ProductCategory::Oversized { zone_count } => zone_count <= usize::MAX - start.2,
            _ => true,
        }
    }
}

/// Continues from the place after the last one it proposed, looking at
/// the runs of free places from there on; it records each place it
/// proposes.
pub struct WarehouseAllocatorRoundRobinEfficient {
    last_coords: StoreCoords,
}

/// `c` starts a run of free places that reaches `n` or lies after it, and
/// a product of category `q` may go to `c`'s row.
pub open spec fn run_candidate<I: Product>(w: Warehouse<I>, n: StoreCoords, q: ProductCategory, c: StoreCoords) -> bool {
    &&& w.free().contains(c)
    &&& (linear(c, w.side()) == 0 || !w.free().contains(delinear(linear(c, w.side()) - 1, w.side())))
    &&& (coords_le(n, c) || places_between(c, n, w.side()).subset_of(w.free()))
    &&& row_allowed(q, c.0 as int)
}

/// The first such run start.
pub open spec fn first_run_candidate<I: Product>(w: Warehouse<I>, n: StoreCoords, q: ProductCategory) -> StoreCoords {
    choose|c: StoreCoords|
        run_candidate(w, n, q, c) && forall|d: StoreCoords| #[trigger] run_candidate(w, n, q, d) ==> coords_le(c, d)
}

impl WarehouseAllocatorRoundRobinEfficient {
    /// The place last proposed (at first, the first place); the next
    /// search starts after it.
    pub closed spec fn last(&self) -> StoreCoords {
        self.last_coords
    }

    /// The strategy once it has proposed `c`.
    pub closed spec fn recording(c: StoreCoords) -> Self {
        WarehouseAllocatorRoundRobinEfficient { last_coords: c }
    }

    /// After proposing `c`, the strategy records `c` as its last place.
    pub proof fn lemma_records(c: StoreCoords)
        ensures
            Self::recording(c).last() == c,
    {
    }

    pub fn new() -> (r: Self)
        ensures
            r.last() == StoreCoords(0, 0, 0),
    {
        WarehouseAllocatorRoundRobinEfficient { last_coords: StoreCoords(0, 0, 0) }
    }

    /// A run start is a candidate exactly when its number starts a run of
    /// free numbers that meets the numbers from `n` on.
    proof fn lemma_candidate_numbers<I: Product>(w: &Warehouse<I>, fm: FreeMap, n: StoreCoords, q: ProductCategory, c: StoreCoords)
        requires
            w.wf(),
            fm.wf(),
            fm.side() == w.side(),
            fm.free_places() == w.free(),
            in_cube(n, w.side()),
            in_cube(c, w.side()),
        ensures
            run_candidate(*w, n, q, c) <==> (starts_run(fm.free_numbers(), linear(c, w.side()) as u64)
                && (exists|y: u64|
                    linear(n, w.side()) <= y <= w.side() * w.side() * w.side() - 1 && #[trigger] joined(
                        fm.free_numbers(),
                        linear(c, w.side()) as u64,
                        y,
                    )) && row_allowed(q, c.0 as int)),
    {
        let m = w.side();
        let s = fm.free_numbers();
        lemma_free_numbers(fm);
        lemma_linear_bounds(c, m);
        lemma_linear_bounds(n, m);
        lemma_linear_order(n, c, m);
        let x = linear(c, m) as u64;
        let lo = linear(n, m) as u64;
        let hi = (m * m * m - 1) as u64;
        // the place before `c`
        if x > 0 {
            lemma_delinear(x - 1, m);
            assert(s.contains((x - 1) as u64) <==> w.free().contains(delinear(x - 1, m)));
        }
        // meeting the numbers from `n` on
        if coords_le(n, c) {
            assert(joined(s, x, x) <==> s.contains(x)) by {
                if s.contains(x) {
                    assert forall|z: u64| (x <= z <= x || x <= z <= x) implies #[trigger] s.contains(z) by {
                    }
                }
            }
        } else {
            lemma_joined_places(fm, c, n);
            assert forall|y: u64| lo <= y <= hi && joined(s, x, y) implies joined(s, x, lo) by {
                assert forall|z: u64| (x <= z <= lo || lo <= z <= x) implies #[trigger] s.contains(z) by {
                }
            }
        }
        if run_candidate(*w, n, q, c) && !coords_le(n, c) {
            assert(joined(s, x, lo));
        }
        if run_candidate(*w, n, q, c) && coords_le(n, c) {
            assert(joined(s, x, x));
        }
    }

    /// The run at position `i` of the overlapping runs is the first
    /// candidate when the runs before it may not take the product.
    proof fn lemma_candidate<I: Product>(w: &Warehouse<I>, fm: FreeMap, all: Seq<core::ops::RangeInclusive<StoreCoords>>, n: StoreCoords, q: ProductCategory, i: int)
        requires
            w.wf(),
            fm.wf(),
            fm.side() == w.side(),
            fm.free_places() == w.free(),
            in_cube(n, w.side()),
            ranges_in_cube(all, w.side()),
            is_overlapping_run_list(
                range_numbers(all, w.side()),
                fm.free_numbers(),
                linear(n, w.side()) as u64,
                (w.side() * w.side() * w.side() - 1) as u64,
            ),
            0 <= i < all.len(),
            forall|k: int| 0 <= k < i ==> !row_allowed(q, (#[trigger] all[k])@.start.0 as int),
            row_allowed(q, all[i]@.start.0 as int),
        ensures
            first_run_candidate(*w, n, q) == all[i]@.start,
            exists|c: StoreCoords| #[trigger] run_candidate(*w, n, q, c),
            in_cube(all[i]@.start, w.side()),
            in_cube(all[i]@.end, w.side()),
            coords_le(all[i]@.start, all[i]@.end),
            w.free().contains(all[i]@.start),
            forall|c: StoreCoords| in_cube(c, w.side()) && coords_le(all[i]@.start, c) ==> (coords_le(c, all[i]@.end)
                <==> places_between(all[i]@.start, c, w.side()).subset_of(w.free())),
    {
        let m = w.side();
        let s = fm.free_numbers();
        let runs = range_numbers(all, m);
        let lo = linear(n, m) as u64;
        let hi = (m * m * m - 1) as u64;
        lemma_free_numbers(fm);
        lemma_linear_bounds(n, m);
        lemma_overlapping_runs(runs, s, lo, hi);
        let start = all[i]@.start;
        let end = all[i]@.end;
        assert(in_cube(all[i]@.start, m) && in_cube(all[i]@.end, m));
        assert(runs[i] == (linear(start, m) as u64, linear(end, m) as u64));
        lemma_linear_bounds(start, m);
        lemma_linear_bounds(end, m);
        assert(is_maximal_run(s, runs[i].0, runs[i].1));
        lemma_linear_order(start, end, m);
        Self::lemma_candidate_numbers(w, fm, n, q, start);
        assert(starts_run(s, runs[i].0));
        assert(run_candidate(*w, n, q, start));
        assert forall|d: StoreCoords| #[trigger] run_candidate(*w, n, q, d) implies coords_le(start, d) by {
            let k = Self::lemma_candidate_listed(w, fm, all, n, q, d);
            if k < i {
                assert(!row_allowed(q, all[k]@.start.0 as int));
            }
            if k > i {
                assert(runs[i].0 < runs[k].0);
            }
            lemma_linear_bounds(d, m);
            lemma_linear_order(start, d, m);
        }
        let f = first_run_candidate(*w, n, q);
        assert(run_candidate(*w, n, q, f) && forall|d: StoreCoords| #[trigger] run_candidate(*w, n, q, d) ==> coords_le(f, d));
        lemma_linear_order(start, f, m);
        assert forall|c: StoreCoords| in_cube(c, m) && coords_le(start, c) implies (coords_le(c, end)
            <==> places_between(start, c, m).subset_of(w.free())) by {
            lemma_linear_order(start, c, m);
            lemma_linear_order(c, end, m);
            lemma_linear_bounds(c, m);
            lemma_joined_places(fm, start, c);
            lemma_run_extent(s, runs[i].0, runs[i].1, linear(c, m) as u64);
        }
    }

    /// Every candidate starts one of the overlapping runs.
    proof fn lemma_candidate_listed<I: Product>(w: &Warehouse<I>, fm: FreeMap, all: Seq<core::ops::RangeInclusive<StoreCoords>>, n: StoreCoords, q: ProductCategory, c: StoreCoords) -> (k: int)
        requires
            w.wf(),
            fm.wf(),
            fm.side() == w.side(),
            fm.free_places() == w.free(),
            in_cube(n, w.side()),
            ranges_in_cube(all, w.side()),
            is_overlapping_run_list(
                range_numbers(all, w.side()),
                fm.free_numbers(),
                linear(n, w.side()) as u64,
                (w.side() * w.side() * w.side() - 1) as u64,
            ),
            run_candidate(*w, n, q, c),
        ensures
            0 <= k < all.len(),
            all[k]@.start == c,
            linear(c, w.side()) as u64 == range_numbers(all, w.side())[k].0,
    {
        let m = w.side();
        let s = fm.free_numbers();
        let runs = range_numbers(all, m);
        let lo = linear(n, m) as u64;
        let hi = (m * m * m - 1) as u64;
        lemma_free_numbers(fm);
        lemma_linear_bounds(n, m);
        lemma_overlapping_runs(runs, s, lo, hi);
        assert(in_cube(c, m));
        Self::lemma_candidate_numbers(w, fm, n, q, c);
        let x = linear(c, m) as u64;
        let y = choose|y: u64| lo <= y <= hi && joined(s, x, y);
        assert(starts_run(s, x) && joined(s, x, y));
        let k = choose|k: int| 0 <= k < runs.len() && #[trigger] runs[k].0 == x;
        assert(in_cube(all[k]@.start, m));
        lemma_linear_bounds(c, m);
        lemma_linear_bounds(all[k]@.start, m);
        lemma_linear_order(all[k]@.start, c, m);
        k
    }
}

impl<I: Product> WarehouseAllocator<I> for WarehouseAllocatorRoundRobinEfficient {
    /// The place after the last one must be computable and lie in the
    /// store, and the oversized rule's arithmetic must not overflow.
    open spec fn answers(&self, warehouse: &Warehouse<I>, product: &I) -> bool {
        &&& next_defined(self.last(), warehouse.side())
        &&& spec_next(self.last(), warehouse.side()) matches Some(n) ==> {
            &&& in_cube(n, warehouse.side())
            &&& product.spec_quality() matches ProductCategory::Oversized { zone_count } ==> zone_count
                < usize::MAX - warehouse.side()
        }
    }

    open spec fn proposal(&self, warehouse: &Warehouse<I>, product: &I) -> Option<StoreCoords> {
        match spec_next(self.last(), warehouse.side()) {
            None => None,
            Some(n) => if exists|c: StoreCoords| #[trigger] run_candidate(*warehouse, n, product.spec_quality(), c) {
                run_start_proposal(
                    *warehouse,
                    product.spec_quality(),
                    first_run_candidate(*warehouse, n, product.spec_quality()),
                )
            } else {
                None
            },
        }
    }

    open spec fn after_next(&self, warehouse: &Warehouse<I>, product: &I) -> Self {
        match self.proposal(warehouse, product) {
            Some(c) => WarehouseAllocatorRoundRobinEfficient::recording(c),
            None => *self,
        }
    }

    fn next(&mut self, warehouse: &Warehouse<I>, product: &I) -> (r: Option<StoreCoords>) {
        let q = *product.quality();
        let m = warehouse.store_max_idx();
        proof {
            warehouse.lemma_wf();
        }
        let next_coords = match self.last_coords.next(m) {
            Some(c) => c,
            None => return None,
        };
        let fm = warehouse.free_map();
        let ranges = fm.iter_from(next_coords.copy());
        let ghost mi = m as int;
        let ghost s = fm.free_numbers();
        let ghost runs = range_numbers(ranges@, mi);
        let ghost lo = linear(next_coords, mi) as u64;
        let ghost hi = (mi * mi * mi - 1) as u64;
        proof {
            lemma_free_numbers(*fm);
            lemma_linear_bounds(next_coords, mi);
            lemma_overlapping_runs(runs, s, lo, hi);
        }
        let ghost all = ranges@;
        let mut rest = ranges;
        let ghost mut i: int = 0;
        while rest.len() > 0
            invariant
                warehouse.wf(),
                mi == warehouse.side(),
                mi == fm.side(),
                fm.wf(),
                fm.free_places() == warehouse.free(),
                s == fm.free_numbers(),
                q == product.spec_quality(),
                old(self).answers(warehouse, product),
                *self == *old(self),
                spec_next(old(self).last(), mi) == Some(next_coords),
                in_cube(next_coords, mi),
                lo == linear(next_coords, mi),
                hi == mi * mi * mi - 1,
                lo <= hi,
                runs == range_numbers(all, mi),
                ranges_in_cube(all, mi),
                is_overlapping_run_list(runs, s, lo, hi),
                0 <= i <= all.len(),
                rest@ == all.subrange(i, all.len() as int),
                forall|k: int| 0 <= k < i ==> !row_allowed(q, (#[trigger] all[k])@.start.0 as int),
            decreases rest@.len(),
        {
            let rg = rest.remove(0);
            let (start, end) = range_ends(rg);
            proof {
                assert(all[i] == rg);
            }
            let skip = match q {
                ProductCategory::Fragile { max_row, .. } => start.0 > max_row,
                _ => false,
            };
            if !skip {
                proof {
                    Self::lemma_candidate(warehouse, *fm, all, next_coords, q, i);
                }
                let r = check_run(warehouse, q, start, end);
                if let Some(c) = &r {
                    self.last_coords = c.copy();
                }
                return r;
            }
            proof {
                i = i + 1;
                assert(rest@ =~= all.subrange(i, all.len() as int));
            }
        }
        proof {
            assert(i == all.len());
            assert forall|c: StoreCoords| !(#[trigger] run_candidate(*warehouse, next_coords, q, c)) by {
                if run_candidate(*warehouse, next_coords, q, c) {
                    let k = Self::lemma_candidate_listed(warehouse, *fm, all, next_coords, q, c);
                    assert(!row_allowed(q, all[k]@.start.0 as int));
                }
            }
        }
        None
    }
}

} // verus!
