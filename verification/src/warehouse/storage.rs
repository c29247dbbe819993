//! The warehouse store and its indexes.

use vstd::prelude::*;
use vstd::string::StringExecFns;
use core::ops::RangeInclusive;
use crate::warehouse::coords::{StoreCoords, in_cube};
use crate::warehouse::free_map::{FreeMap, all_places, places_between};
use crate::index::{
    lemma_remove_undoes_push,
    SortedIndex, IndexKey, chars_lt, keys_ascending, filed, index_push, index_remove, remove_first, first_index,
    lemma_first_index, lemma_first_index_exists,
};
use crate::warehouse::product::{Product, ProductCategory, ModificationError};

verus! {

/// What a place of the store holds.
pub enum WarehouseEntry<I> {
    /// A product.
    Occupied(I),
    /// Nothing.
    Vacant,
    /// A zone taken by the oversized product stored earlier on the shelf.
    OversizedPlaceholder,
}

impl<I> Default for WarehouseEntry<I> {
    fn default() -> (r: Self)
        ensures
            r is Vacant,
    {
        WarehouseEntry::Vacant
    }
}

impl<I> WarehouseEntry<I> {
    /// Whether a product is stored here.
    pub fn is_some(&self) -> (r: bool)
        ensures
            r == (*self is Occupied),
    {
        match self {
            WarehouseEntry::Occupied(_) => true,
            _ => false,
        }
    }

    /// Whether no product is stored here (empty or a placeholder).
    pub fn is_none(&self) -> (r: bool)
        ensures
            r == !(*self is Occupied),
    {
        match self {
            WarehouseEntry::Occupied(_) => false,
            _ => true,
        }
    }

    /// The stored product; the entry must hold one.
    pub fn expect(self, msg: &str) -> (r: I)
        requires
            self is Occupied,
        ensures
            self == WarehouseEntry::Occupied(r),
    {
        match self {
            WarehouseEntry::Occupied(val) => val,
            _ => {
                vstd::pervasive::unreached()
            },
        }
    }

    /// A reference to the stored product; the entry must hold one.
    pub fn expect_ref(&self, msg: &str) -> (r: &I)
        requires
            *self is Occupied,
        ensures
            *self == WarehouseEntry::Occupied(*r),
    {
        match self {
            WarehouseEntry::Occupied(val) => val,
            _ => {
                vstd::pervasive::unreached()
            },
        }
    }
}

/// `x` lies in the zones after `c` that an oversized product of category
/// `q` stored at `c` also takes.
pub open spec fn in_tail(c: StoreCoords, q: ProductCategory, x: StoreCoords) -> bool {
    match q {
        ProductCategory::Oversized { zone_count } => x.0 == c.0 && x.1 == c.1 && c.2 < x.2 && x.2
            <= c.2 + zone_count,
        _ => false,
    }
}

/// The places a product of category `q` stored at `c` takes.
pub open spec fn taken_by(c: StoreCoords, q: ProductCategory, x: StoreCoords) -> bool {
    x == c || in_tail(c, q, x)
}

/// A fragile product would sit above its highest row at `c`.
pub open spec fn above_max_row(q: ProductCategory, c: StoreCoords) -> bool {
    match q {
        ProductCategory::Fragile { max_row, .. } => c.0 > max_row,
        _ => false,
    }
}

/// An oversized product needs as many zones as a shelf has, or more.
pub open spec fn longer_than_shelf(q: ProductCategory, m: int) -> bool {
    match q {
        ProductCategory::Oversized { zone_count } => zone_count >= m,
        _ => false,
    }
}

/// How a zone appears while browsing a shelf.
pub enum ZoneLabel {
    /// The name of the product stored there.
    Product(String),
    Empty,
    Oversized,
}

/// Bounds on the expiry dates of a search.
pub enum DateBound {
    Unbounded,
    Included(i32),
    Excluded(i32),
}

/// `d` lies within the bounds `start` and `end`.
pub open spec fn within(d: i32, start: DateBound, end: DateBound) -> bool {
    &&& match start {
        DateBound::Unbounded => true,
        DateBound::Included(s) => s <= d,
        DateBound::Excluded(s) => s < d,
    }
    &&& match end {
        DateBound::Unbounded => true,
        DateBound::Included(e) => d <= e,
        DateBound::Excluded(e) => d < e,
    }
}

fn within_exec(d: i32, start: &DateBound, end: &DateBound) -> (r: bool)
    ensures
        r == within(d, *start, *end),
{
    let a = match start {
        DateBound::Unbounded => true,
        DateBound::Included(s) => *s <= d,
        DateBound::Excluded(s) => *s < d,
    };
    let b = match end {
        DateBound::Unbounded => true,
        DateBound::Included(e) => d <= *e,
        DateBound::Excluded(e) => d < *e,
    };
    a && b
}

/// A cubic store of side `store_max_idx`, indexed by product name,
/// identifier and expiry date, with a map of its free places.
pub struct Warehouse<I> {
    store_max_idx: usize,
    store: Vec<Vec<Vec<WarehouseEntry<I>>>>,
    store_index_by_name: SortedIndex<String, StoreCoords>,
    store_index_by_id: SortedIndex<i64, StoreCoords>,
    store_index_expiry_dates: SortedIndex<i32, i64>,
    free_map: FreeMap,
    /// For each expiry date, the places of the products whose identifiers
    /// are listed under that date, position by position.
    expiry_places: Ghost<Map<i32, Seq<StoreCoords>>>,
}

impl<I: Product> Warehouse<I> {
    /// Side length of the store.
    pub closed spec fn side(&self) -> int {
        self.store_max_idx as int
    }

    /// What the place `c` holds.
    pub closed spec fn cell(&self, c: StoreCoords) -> WarehouseEntry<I> {
        self.store@[c.0 as int]@[c.1 as int]@[c.2 as int]
    }

    /// Places of the products of each name, in the order they came in.
    pub closed spec fn names(&self) -> Map<Seq<char>, Seq<StoreCoords>> {
        self.store_index_by_name.view()
    }

    /// Places of the products of each identifier, in the order they came in.
    pub closed spec fn ids(&self) -> Map<i64, Seq<StoreCoords>> {
        self.store_index_by_id.view()
    }

    /// Identifiers of the fragile products of each expiry date.
    pub closed spec fn expiries(&self) -> Map<i32, Seq<i64>> {
        self.store_index_expiry_dates.view()
    }

    /// The free places.
    pub closed spec fn free(&self) -> Set<StoreCoords> {
        self.free_map.free_places()
    }

    /// An oversized product stored earlier on the shelf of `c` takes `c`.
    pub open spec fn under_oversized(&self, c: StoreCoords) -> bool {
        exists|k: usize|
            #![trigger self.cell(StoreCoords(c.0, c.1, k))]
            k < c.2 && match self.cell(StoreCoords(c.0, c.1, k)) {
                WarehouseEntry::Occupied(p) => in_tail(StoreCoords(c.0, c.1, k), p.spec_quality(), c),
                _ => false,
            }
    }

    closed spec fn wf_shape(&self) -> bool {
        &&& 1 <= self.store_max_idx
        &&& self.store_max_idx * self.store_max_idx * self.store_max_idx <= u64::MAX
        &&& self.store@.len() == self.store_max_idx
        &&& forall|i: int|
            0 <= i < self.store_max_idx ==> (#[trigger] self.store@[i])@.len()
                == self.store_max_idx
        &&& forall|i: int, j: int|
            0 <= i < self.store_max_idx && 0 <= j < self.store_max_idx ==> (
            #[trigger] self.store@[i]@[j])@.len() == self.store_max_idx
    }

    closed spec fn wf_free(&self) -> bool {
        &&& self.free_map.wf()
        &&& self.free_map.side() == self.store_max_idx
        &&& forall|c: StoreCoords|
            in_cube(c, self.side()) ==> (self.free().contains(c) <==> #[trigger] self.cell(c) is Vacant)
    }

    closed spec fn wf_placement(&self) -> bool {
        &&& forall|c: StoreCoords|
            in_cube(c, self.side()) ==> (#[trigger] self.cell(c) is OversizedPlaceholder
                <==> self.under_oversized(c))
        &&& forall|c: StoreCoords|
            in_cube(c, self.side()) && #[trigger] self.cell(c) is Occupied ==> match self.cell(
                c,
            )->0.spec_quality() {
                ProductCategory::Oversized { zone_count } => c.2 + zone_count < self.side(),
                _ => true,
            }
    }

    /// The name index lists exactly the places of the products of each name.
    pub open spec fn names_exact(&self) -> bool {
        &&& forall|n: Seq<char>, c: StoreCoords|
            #![trigger self.names()[n].contains(c)]
            self.names().contains_key(n) && self.names()[n].contains(c) ==> in_cube(c, self.side())
                && self.cell(c) is Occupied && self.cell(c)->0.spec_name() == n
        &&& forall|c: StoreCoords|
            in_cube(c, self.side()) && #[trigger] self.cell(c) is Occupied ==> self.names().contains_key(
                self.cell(c)->0.spec_name(),
            ) && self.names()[self.cell(c)->0.spec_name()].contains(c)
        &&& forall|n: Seq<char>| #[trigger]
            self.names().contains_key(n) ==> self.names()[n].no_duplicates()
    }

    /// The identifier index lists exactly the places of the products of
    /// each identifier.
    pub open spec fn ids_exact(&self) -> bool {
        &&& forall|n: i64, c: StoreCoords|
            #![trigger self.ids()[n].contains(c)]
            self.ids().contains_key(n) && self.ids()[n].contains(c) ==> in_cube(c, self.side())
                && self.cell(c) is Occupied && self.cell(c)->0.spec_identifier() == n
        &&& forall|c: StoreCoords|
            in_cube(c, self.side()) && #[trigger] self.cell(c) is Occupied ==> self.ids().contains_key(
                self.cell(c)->0.spec_identifier(),
            ) && self.ids()[self.cell(c)->0.spec_identifier()].contains(c)
        &&& forall|n: i64| #[trigger] self.ids().contains_key(n) ==> self.ids()[n].no_duplicates()
    }

    closed spec fn wf_names(&self) -> bool {
        &&& self.store_index_by_name.wf()
        &&& self.names_exact()
    }

    closed spec fn wf_ids(&self) -> bool {
        &&& self.store_index_by_id.wf()
        &&& self.ids_exact()
    }

    closed spec fn fragile_at(&self, c: StoreCoords, d: i32) -> bool {
        &&& in_cube(c, self.side())
        &&& self.cell(c) is Occupied
        &&& self.cell(c)->0.spec_quality() matches ProductCategory::Fragile { expiry_date, .. }
        &&& expiry_date == d
    }

    closed spec fn wf_expiry(&self) -> bool {
        &&& self.store_index_expiry_dates.wf()
        &&& self.expiry_places@.dom() == self.expiries().dom()
        &&& forall|d: i32| #[trigger]
            self.expiries().contains_key(d) ==> {
                let ps = self.expiry_places@[d];
                let ids = self.expiries()[d];
                &&& ps.len() == ids.len()
                &&& ps.no_duplicates()
                &&& forall|q: int|
                    0 <= q < ps.len() ==> self.fragile_at(#[trigger] ps[q], d) && self.cell(
                        ps[q],
                    )->0.spec_identifier() == ids[q]
            }
        &&& forall|c: StoreCoords, d: i32| #[trigger]
            self.fragile_at(c, d) ==> self.expiries().contains_key(d)
                && self.expiry_places@[d].contains(c)
    }

    /// The store's invariant.
    pub closed spec fn wf(&self) -> bool {
        &&& self.wf_shape()
        &&& self.wf_free()
        &&& self.wf_placement()
        &&& self.wf_names()
        &&& self.wf_ids()
        &&& self.wf_expiry()
    }

    /// What every well-formed store satisfies.
    pub proof fn lemma_wf(&self)
        requires
            self.wf(),
        ensures
            1 <= self.side(),
            self.side() * self.side() * self.side() <= u64::MAX,
            forall|c: StoreCoords| #[trigger]
                self.free().contains(c) <==> in_cube(c, self.side()) && self.cell(c) is Vacant,
            forall|c: StoreCoords|
                in_cube(c, self.side()) ==> (#[trigger] self.cell(c) is OversizedPlaceholder
                    <==> self.under_oversized(c)),
            self.names_exact(),
            self.ids_exact(),
    {
    }

    /// An empty store of side `store_max_idx`.
    pub fn new(store_max_idx: usize) -> (r: Self)
        requires
            1 <= store_max_idx,
            store_max_idx * store_max_idx * store_max_idx <= u64::MAX,
        ensures
            r.wf(),
            r.side() == store_max_idx,
            forall|c: StoreCoords| in_cube(c, r.side()) ==> #[trigger] r.cell(c) is Vacant,
            r.names() == Map::<Seq<char>, Seq<StoreCoords>>::empty(),
            r.ids() == Map::<i64, Seq<StoreCoords>>::empty(),
            r.expiries() == Map::<i32, Seq<i64>>::empty(),
            r.free() == all_places(store_max_idx as int),
    {
        let m = store_max_idx;
        let mut store: Vec<Vec<Vec<WarehouseEntry<I>>>> = Vec::new();
        let mut i: usize = 0;
        while i < m
            invariant
                i <= m,
                store@.len() == i,
                forall|a: int| 0 <= a < i ==> (#[trigger] store@[a])@.len() == m,
                forall|a: int, b: int|
                    0 <= a < i && 0 <= b < m ==> (#[trigger] store@[a]@[b])@.len() == m,
                forall|a: int, b: int, z: int|
                    0 <= a < i && 0 <= b < m && 0 <= z < m ==> #[trigger] store@[a]@[b]@[z] is Vacant,
            decreases m - i,
        {
            let mut row: Vec<Vec<WarehouseEntry<I>>> = Vec::new();
            let mut j: usize = 0;
            while j < m
                invariant
                    j <= m,
                    row@.len() == j,
                    forall|b: int| 0 <= b < j ==> (#[trigger] row@[b])@.len() == m,
                    forall|b: int, z: int|
                        0 <= b < j && 0 <= z < m ==> #[trigger] row@[b]@[z] is Vacant,
                decreases m - j,
            {
                let mut shelf: Vec<WarehouseEntry<I>> = Vec::new();
                let mut k: usize = 0;
                while k < m
                    invariant
                        k <= m,
                        shelf@.len() == k,
                        forall|z: int| 0 <= z < k ==> #[trigger] shelf@[z] is Vacant,
                    decreases m - k,
                {
                    shelf.push(WarehouseEntry::Vacant);
                    k = k + 1;
                }
                row.push(shelf);
                j = j + 1;
            }
            store.push(row);
            i = i + 1;
        }
        let r = Warehouse {
            store_max_idx,
            store,
            store_index_by_name: SortedIndex::new(),
            store_index_by_id: SortedIndex::new(),
            store_index_expiry_dates: SortedIndex::new(),
            free_map: FreeMap::new(store_max_idx),
            expiry_places: Ghost(Map::empty()),
        };
        proof {
            assert forall|c: StoreCoords| in_cube(c, r.side()) implies #[trigger] r.cell(c) is Vacant by {
                assert(r.store@[c.0 as int]@[c.1 as int]@[c.2 as int] is Vacant);
            }
            assert(r.expiry_places@.dom() =~= r.expiries().dom());
            assert forall|c: StoreCoords| in_cube(c, r.side()) implies (
                #[trigger] r.cell(c) is OversizedPlaceholder <==> r.under_oversized(c)) by {
                if r.under_oversized(c) {
                    let k = choose|k: usize|
                        #![trigger r.cell(StoreCoords(c.0, c.1, k))]
                        k < c.2 && match r.cell(StoreCoords(c.0, c.1, k)) {
                            WarehouseEntry::Occupied(p) => in_tail(
                                StoreCoords(c.0, c.1, k),
                                p.spec_quality(),
                                c,
                            ),
                            _ => false,
                        };
                    assert(r.cell(StoreCoords(c.0, c.1, k)) is Vacant);
                }
            }
        }
        r
    }

    /// What the place `store_coords` holds.
    pub fn get_product_ref(&self, store_coords: &StoreCoords) -> (r: &WarehouseEntry<I>)
        requires
            self.wf(),
            in_cube(*store_coords, self.side()),
        ensures
            *r == self.cell(*store_coords),
    {
        &self.store[store_coords.0][store_coords.1][store_coords.2]
    }

    /// The store, row by row, shelf by shelf, zone by zone.
    pub fn store(&self) -> (r: &Vec<Vec<Vec<WarehouseEntry<I>>>>)
        requires
            self.wf(),
        ensures
            r@.len() == self.side(),
            forall|i: int| 0 <= i < self.side() ==> (#[trigger] r@[i])@.len() == self.side(),
            forall|i: int, j: int|
                0 <= i < self.side() && 0 <= j < self.side() ==> (#[trigger] r@[i]@[j])@.len()
                    == self.side(),
            forall|c: StoreCoords|
                in_cube(c, self.side()) ==> #[trigger] self.cell(c) == r@[c.0 as int]@[c.1 as int]@[c.2 as int],
    {
        &self.store
    }

    /// Side length of the store.
    pub fn store_max_idx(&self) -> (r: usize)
        ensures
            r == self.side(),
    {
        self.store_max_idx
    }

    /// The map of free places.
    pub fn free_map(&self) -> (r: &FreeMap)
        requires
            self.wf(),
        ensures
            r.wf(),
            r.side() == self.side(),
            r.free_places() == self.free(),
    {
        &self.free_map
    }

    /// Places of the products named `name`, if there are any.
    pub fn search_by_name(&self, name: &str) -> (r: Option<&Vec<StoreCoords>>)
        requires
            self.wf(),
        ensures
            match r {
                Some(v) => self.names().contains_key(name@) && v@ == self.names()[name@],
                None => !self.names().contains_key(name@),
            },
    {
        let key = String::from_str(name);
        self.store_index_by_name.get(&key)
    }

    /// Places of the products with identifier `id`, if there are any.
    pub fn search_by_id(&self, id: &i64) -> (r: Option<&Vec<StoreCoords>>)
        requires
            self.wf(),
        ensures
            match r {
                Some(v) => self.ids().contains_key(*id) && v@ == self.ids()[*id],
                None => !self.ids().contains_key(*id),
            },
    {
        self.store_index_by_id.get(id)
    }

    /// Every name with the places of its products, names in ascending order.
    pub fn list_by_name(&self) -> (r: Vec<(&String, &Vec<StoreCoords>)>)
        requires
            self.wf(),
        ensures
            forall|i: int, j: int|
                0 <= i < j < r@.len() ==> chars_lt((#[trigger] r@[i]).0@, (#[trigger] r@[j]).0@),
            forall|i: int|
                0 <= i < r@.len() ==> self.names().contains_key((#[trigger] r@[i]).0@)
                    && r@[i].1@ == self.names()[r@[i].0@],
            forall|n: Seq<char>| #[trigger]
                self.names().contains_key(n) ==> exists|i: int| 0 <= i < r@.len() && #[trigger] r@[i].0@ == n,
    {
        let es = self.store_index_by_name.entries();
        proof {
            self.store_index_by_name.lemma_entries();
        }
        let mut out: Vec<(&String, &Vec<StoreCoords>)> = Vec::new();
        let mut i: usize = 0;
        while i < es.len()
            invariant
                es@ == self.store_index_by_name.spec_entries(),
                i <= es@.len(),
                out@.len() == i,
                forall|q: int| 0 <= q < i ==> (#[trigger] out@[q]).0@ == es@[q].0@ && out@[q].1@ == es@[q].1@,
            decreases es@.len() - i,
        {
            let e = &es[i];
            out.push((&e.0, &e.1));
            i = i + 1;
        }
        proof {
            assert forall|n: Seq<char>| #[trigger] self.names().contains_key(n) implies exists|i: int|
                0 <= i < out@.len() && #[trigger] out@[i].0@ == n by {
                let q = choose|q: int| 0 <= q < es@.len() && #[trigger] es@[q].0@ == n;
                assert(out@[q].0@ == n);
            }
        }
        out
    }

    /// Every expiry date within the bounds with the identifiers of the
    /// products that expire then, dates in ascending order.
    pub fn search_expiry_dates(&self, start: DateBound, end: DateBound) -> (r: Vec<(&i32, &Vec<i64>)>)
        requires
            self.wf(),
        ensures
            forall|i: int, j: int| 0 <= i < j < r@.len() ==> *(#[trigger] r@[i]).0 < *(#[trigger] r@[j]).0,
            forall|i: int|
                0 <= i < r@.len() ==> within(*(#[trigger] r@[i]).0, start, end)
                    && self.expiries().contains_key(*r@[i].0) && r@[i].1@ == self.expiries()[*r@[i].0],
            forall|d: i32|
                self.expiries().contains_key(d) && #[trigger] within(d, start, end) ==> exists|i: int|
                    0 <= i < r@.len() && *(#[trigger] r@[i]).0 == d,
    {
        let es = self.store_index_expiry_dates.entries();
        proof {
            self.store_index_expiry_dates.lemma_entries();
            assert forall|q: int| #![trigger es@[q]] 0 <= q < es@.len() implies self.expiries().contains_key(es@[q].0@)
                && self.expiries()[es@[q].0@] == es@[q].1@ by {
                assert(self.store_index_expiry_dates.spec_entries()[q] == es@[q]);
            }
        }
        let mut out: Vec<(&i32, &Vec<i64>)> = Vec::new();
        let mut i: usize = 0;
        while i < es.len()
            invariant
                es@ == self.store_index_expiry_dates.spec_entries(),
                keys_ascending(es@),
                forall|q: int|
                    #![trigger es@[q]]
                    0 <= q < es@.len() ==> self.expiries().contains_key(es@[q].0@)
                        && self.expiries()[es@[q].0@] == es@[q].1@,
                i <= es@.len(),
                forall|a: int, b: int| 0 <= a < b < out@.len() ==> *(#[trigger] out@[a]).0 < *(#[trigger] out@[b]).0,
                forall|a: int|
                    0 <= a < out@.len() ==> within(*(#[trigger] out@[a]).0, start, end)
                        && self.expiries().contains_key(*out@[a].0) && out@[a].1@ == self.expiries()[*out@[a].0],
                forall|a: int| 0 <= a < out@.len() ==> exists|q: int| 0 <= q < i && es@[q].0 == *(#[trigger] out@[a]).0,
                forall|q: int| 0 <= q < i && within(es@[q].0, start, end) ==> exists|a: int|
                    0 <= a < out@.len() && *(#[trigger] out@[a]).0 == es@[q].0,
            decreases es@.len() - i,
        {
            let e = &es[i];
            if within_exec(e.0, &start, &end) {
                let ghost prev = out@;
                out.push((&e.0, &e.1));
                proof {
                    assert(es@[i as int] == es@[i as int]);
                    assert(within(*out@[prev.len() as int].0, start, end));
                    assert forall|a: int, b: int| 0 <= a < b < out@.len() implies *(#[trigger] out@[a]).0 < *(#[trigger] out@[b]).0 by {
                        if b == out@.len() - 1 {
                            let q = choose|q: int| 0 <= q < i && es@[q].0 == *prev[a].0;
                            assert(es@[q] == es@[q] && es@[i as int] == es@[i as int]);
                        } else {
                            assert(out@[a] == prev[a] && out@[b] == prev[b]);
                        }
                    }
                    assert forall|a: int| 0 <= a < out@.len() implies exists|q: int| 0 <= q < i + 1 && es@[q].0 == *(#[trigger] out@[a]).0 by {
                        if a < prev.len() {
                            assert(out@[a] == prev[a]);
                            let q = choose|q: int| 0 <= q < i && es@[q].0 == *prev[a].0;
                            assert(es@[q].0 == *out@[a].0);
                        } else {
                            assert(es@[i as int].0 == *out@[a].0);
                        }
                    }
                    assert forall|q: int| 0 <= q < i + 1 && within(es@[q].0, start, end) implies exists|a: int|
                        0 <= a < out@.len() && *(#[trigger] out@[a]).0 == es@[q].0 by {
                        if q < i {
                            let a = choose|a: int| 0 <= a < prev.len() && *(#[trigger] prev[a]).0 == es@[q].0;
                            assert(out@[a] == prev[a]);
                        } else {
                            assert(*out@[prev.len() as int].0 == es@[q].0);
                        }
                    }
                }
            }
            i = i + 1;
        }
        proof {
            assert forall|d: i32| self.expiries().contains_key(d) && #[trigger] within(d, start, end) implies exists|i: int|
                0 <= i < out@.len() && *(#[trigger] out@[i]).0 == d by {
                let q = choose|q: int| 0 <= q < es@.len() && #[trigger] es@[q].0@ == d;
                assert(es@[q].0 == d);
            }
        }
        out
    }

    /// The places taken by a product of category `q` stored at `c`.
    pub open spec fn taken_places(c: StoreCoords, q: ProductCategory) -> Set<StoreCoords> {
        Set::new(|x: StoreCoords| taken_by(c, q, x))
    }

    /// Placing `p` at `coords` does not index outside the store.
    pub open spec fn placement_safe(&self, p: I, coords: Option<StoreCoords>) -> bool {
        match coords {
            None => true,
            Some(c) => {
                ||| above_max_row(p.spec_quality(), c)
                ||| (c.0 < self.side() && c.1 < self.side() && match p.spec_quality() {
                    ProductCategory::Oversized { zone_count } => zone_count >= self.side() || c.2
                        + zone_count < self.side(),
                    _ => c.2 < self.side(),
                })
            },
        }
    }

    /// Every place that a product of category `q` needs at `c` is empty.
    pub open spec fn places_vacant(&self, c: StoreCoords, q: ProductCategory) -> bool {
        forall|x: StoreCoords| #[trigger] taken_by(c, q, x) ==> self.cell(x) is Vacant
    }

    /// The answer to placing `p` at `coords`.
    pub open spec fn placement_result(&self, p: I, coords: Option<StoreCoords>) -> Result<
        (),
        ModificationError,
    > {
        match coords {
            None => Err(ModificationError::Full),
            Some(c) => if above_max_row(p.spec_quality(), c) {
                Err(ModificationError::Fragile)
            } else if longer_than_shelf(p.spec_quality(), self.side()) {
                Err(ModificationError::TooBig)
            } else if !self.places_vacant(c, p.spec_quality()) {
                Err(ModificationError::Occupied)
            } else {
                Ok(())
            },
        }
    }

    /// `self` is `pre` with `p` placed at `c`.
    pub open spec fn placed(&self, pre: &Self, p: I, c: StoreCoords) -> bool {
        &&& self.side() == pre.side()
        &&& forall|x: StoreCoords|
            in_cube(x, self.side()) ==> #[trigger] self.cell(x) == if x == c {
                WarehouseEntry::Occupied(p)
            } else if in_tail(c, p.spec_quality(), x) {
                WarehouseEntry::OversizedPlaceholder
            } else {
                pre.cell(x)
            }
        &&& self.names() == index_push(pre.names(), p.spec_name(), c)
        &&& self.ids() == index_push(pre.ids(), p.spec_identifier(), c)
        &&& self.expiries() == match p.spec_quality() {
            ProductCategory::Fragile { expiry_date, .. } => index_push(
                pre.expiries(),
                expiry_date,
                p.spec_identifier(),
            ),
            _ => pre.expiries(),
        }
        &&& self.free() == pre.free().difference(Self::taken_places(c, p.spec_quality()))
    }

    /// Writes one place of the store, leaving everything else alone.
    fn set_cell(&mut self, c: &StoreCoords, e: WarehouseEntry<I>)
        requires
            old(self).wf_shape(),
            in_cube(*c, old(self).side()),
        ensures
            final(self).wf_shape(),
            final(self).store_max_idx == old(self).store_max_idx,
            final(self).cell(*c) == e,
            forall|x: StoreCoords| x != *c && in_cube(x, final(self).side()) ==> #[trigger] final(self).cell(x) == old(self).cell(x),
            final(self).store_index_by_name == old(self).store_index_by_name,
            final(self).store_index_by_id == old(self).store_index_by_id,
            final(self).store_index_expiry_dates == old(self).store_index_expiry_dates,
            final(self).free_map == old(self).free_map,
            final(self).expiry_places == old(self).expiry_places,
    {
        self.store[c.0][c.1][c.2] = e;
        proof {
            assert forall|x: StoreCoords| x != *c && in_cube(x, self.side()) implies #[trigger] self.cell(x) == old(self).cell(x) by {
                if x.0 == c.0 {
                    if x.1 == c.1 {
                        assert(x.2 != c.2);
                    }
                }
            }
        }
    }

    /// Facts about a well-formed store that placing and removing rely on.
    proof fn lemma_vacant_unlisted(&self, c: StoreCoords)
        requires
            self.wf(),
            in_cube(c, self.side()),
            self.cell(c) is Vacant,
        ensures
            forall|n: Seq<char>| #[trigger] self.names().contains_key(n) ==> !self.names()[n].contains(c),
            forall|n: i64| #[trigger] self.ids().contains_key(n) ==> !self.ids()[n].contains(c),
            forall|d: i32| #[trigger] self.expiries().contains_key(d) ==> !self.expiry_places@[d].contains(c),
    {
        assert forall|d: i32| #[trigger] self.expiries().contains_key(d) implies !self.expiry_places@[d].contains(c) by {
            if self.expiry_places@[d].contains(c) {
                let q = choose|q: int| 0 <= q < self.expiry_places@[d].len() && self.expiry_places@[d][q] == c;
                assert(self.fragile_at(self.expiry_places@[d][q], d));
            }
        }
    }

    proof fn lemma_place_wf(pre: &Self, post: &Self, p: I, c: StoreCoords)
        requires
            pre.wf(),
            post.wf_shape(),
            post.store_max_idx == pre.store_max_idx,
            in_cube(c, pre.side()),
            forall|x: StoreCoords| #[trigger] taken_by(c, p.spec_quality(), x) ==> pre.cell(x) is Vacant && in_cube(x, pre.side()),
            match p.spec_quality() {
                ProductCategory::Oversized { zone_count } => c.2 + zone_count < pre.side(),
                _ => true,
            },
            forall|x: StoreCoords|
                in_cube(x, post.side()) ==> #[trigger] post.cell(x) == if x == c {
                    WarehouseEntry::Occupied(p)
                } else if in_tail(c, p.spec_quality(), x) {
                    WarehouseEntry::OversizedPlaceholder
                } else {
                    pre.cell(x)
                },
            post.store_index_by_name.wf(),
            post.store_index_by_id.wf(),
            post.store_index_expiry_dates.wf(),
            post.names() == index_push(pre.names(), p.spec_name(), c),
            post.ids() == index_push(pre.ids(), p.spec_identifier(), c),
            post.free_map.wf(),
            post.free_map.side() == pre.side(),
            post.free() == pre.free().difference(Self::taken_places(c, p.spec_quality())),
            match p.spec_quality() {
                ProductCategory::Fragile { expiry_date, .. } => post.expiries() == index_push(
                    pre.expiries(),
                    expiry_date,
                    p.spec_identifier(),
                ) && post.expiry_places@ == pre.expiry_places@.insert(
                    expiry_date,
                    filed(pre.expiry_places@, expiry_date).push(c),
                ),
                _ => post.expiries() == pre.expiries() && post.expiry_places@ == pre.expiry_places@,
            },
        ensures
            post.wf(),
    {
        let m = pre.side();
        let q = p.spec_quality();
        pre.lemma_vacant_unlisted(c);
        assert(taken_by(c, q, c));
        // free places
        assert forall|x: StoreCoords| in_cube(x, post.side()) implies (post.free().contains(x) <==> #[trigger] post.cell(x) is Vacant) by {
            if taken_by(c, q, x) {
                assert(Self::taken_places(c, q).contains(x));
            } else {
                assert(!Self::taken_places(c, q).contains(x));
            }
        }
        // placeholders
        assert forall|x: StoreCoords| in_cube(x, post.side()) implies (#[trigger] post.cell(x) is OversizedPlaceholder
            <==> post.under_oversized(x)) by {
            if in_tail(c, q, x) {
                let w = StoreCoords(x.0, x.1, c.2);
                assert(w == c);
                assert(post.cell(w) == WarehouseEntry::<I>::Occupied(p));
            } else if x == c {
                if post.under_oversized(x) {
                    let k = choose|k: usize|
                        #![trigger post.cell(StoreCoords(x.0, x.1, k))]
                        k < x.2 && match post.cell(StoreCoords(x.0, x.1, k)) {
                            WarehouseEntry::Occupied(pp) => in_tail(StoreCoords(x.0, x.1, k), pp.spec_quality(), x),
                            _ => false,
                        };
                    let w = StoreCoords(x.0, x.1, k);
                    assert(!taken_by(c, q, w));
                    assert(post.cell(w) == pre.cell(w));
                    assert(pre.under_oversized(x));
                }
            } else {
                assert(post.cell(x) == pre.cell(x));
                if post.under_oversized(x) {
                    let k = choose|k: usize|
                        #![trigger post.cell(StoreCoords(x.0, x.1, k))]
                        k < x.2 && match post.cell(StoreCoords(x.0, x.1, k)) {
                            WarehouseEntry::Occupied(pp) => in_tail(StoreCoords(x.0, x.1, k), pp.spec_quality(), x),
                            _ => false,
                        };
                    let w = StoreCoords(x.0, x.1, k);
                    if w == c {
                        assert(false);
                    } else if in_tail(c, q, w) {
                        assert(false);
                    } else {
                        assert(post.cell(w) == pre.cell(w));
                        assert(pre.under_oversized(x));
                    }
                }
                if pre.under_oversized(x) {
                    let k = choose|k: usize|
                        #![trigger pre.cell(StoreCoords(x.0, x.1, k))]
                        k < x.2 && match pre.cell(StoreCoords(x.0, x.1, k)) {
                            WarehouseEntry::Occupied(pp) => in_tail(StoreCoords(x.0, x.1, k), pp.spec_quality(), x),
                            _ => false,
                        };
                    let w = StoreCoords(x.0, x.1, k);
                    assert(!taken_by(c, q, w));
                    assert(post.cell(w) == pre.cell(w));
                    assert(post.under_oversized(x));
                }
            }
        }
        assert forall|x: StoreCoords| in_cube(x, post.side()) && #[trigger] post.cell(x) is Occupied implies match post.cell(
            x,
        )->0.spec_quality() {
            ProductCategory::Oversized { zone_count } => x.2 + zone_count < post.side(),
            _ => true,
        } by {
            if x != c {
                assert(!in_tail(c, q, x));
                assert(pre.cell(x) is Occupied);
            }
        }
        // names
        assert forall|n: Seq<char>, x: StoreCoords|
            #![trigger post.names()[n].contains(x)]
            post.names().contains_key(n) && post.names()[n].contains(x) implies in_cube(x, post.side())
                && post.cell(x) is Occupied && post.cell(x)->0.spec_name() == n by {
            if x != c {
                let l = filed(pre.names(), n);
                if n == p.spec_name() {
                    let i = choose|i: int| 0 <= i < post.names()[n].len() && post.names()[n][i] == x;
                    assert(l.contains(x)) by {
                        assert(l[i] == x);
                    }
                }
                assert(pre.names()[n].contains(x));
                assert(!taken_by(c, q, x));
            }
        }
        assert forall|x: StoreCoords|
            in_cube(x, post.side()) && #[trigger] post.cell(x) is Occupied implies post.names().contains_key(
                post.cell(x)->0.spec_name(),
            ) && post.names()[post.cell(x)->0.spec_name()].contains(x) by {
            let n = post.cell(x)->0.spec_name();
            if x == c {
                assert(post.names()[n].last() == c);
            } else {
                assert(!in_tail(c, q, x));
                assert(pre.cell(x) is Occupied);
                assert(pre.names()[n].contains(x));
                if n == p.spec_name() {
                    let i = choose|i: int| 0 <= i < pre.names()[n].len() && pre.names()[n][i] == x;
                    assert(post.names()[n][i] == x);
                }
            }
        }
        assert forall|n: Seq<char>| #[trigger] post.names().contains_key(n) implies post.names()[n].no_duplicates() by {
            if n == p.spec_name() {
                let l = filed(pre.names(), n);
                assert(!l.contains(c));
                assert(l.no_duplicates()) by {
                    if !pre.names().contains_key(n) {
                        assert(l =~= Seq::<StoreCoords>::empty());
                    }
                }
            }
        }
        // identifiers
        assert forall|n: i64, x: StoreCoords|
            #![trigger post.ids()[n].contains(x)]
            post.ids().contains_key(n) && post.ids()[n].contains(x) implies in_cube(x, post.side())
                && post.cell(x) is Occupied && post.cell(x)->0.spec_identifier() == n by {
            if x != c {
                let l = filed(pre.ids(), n);
                if n == p.spec_identifier() {
                    let i = choose|i: int| 0 <= i < post.ids()[n].len() && post.ids()[n][i] == x;
                    assert(l.contains(x)) by {
                        assert(l[i] == x);
                    }
                }
                assert(pre.ids()[n].contains(x));
                assert(!taken_by(c, q, x));
            }
        }
        assert forall|x: StoreCoords|
            in_cube(x, post.side()) && #[trigger] post.cell(x) is Occupied implies post.ids().contains_key(
                post.cell(x)->0.spec_identifier(),
            ) && post.ids()[post.cell(x)->0.spec_identifier()].contains(x) by {
            let n = post.cell(x)->0.spec_identifier();
            if x == c {
                assert(post.ids()[n].last() == c);
            } else {
                assert(!in_tail(c, q, x));
                assert(pre.cell(x) is Occupied);
                assert(pre.ids()[n].contains(x));
                if n == p.spec_identifier() {
                    let i = choose|i: int| 0 <= i < pre.ids()[n].len() && pre.ids()[n][i] == x;
                    assert(post.ids()[n][i] == x);
                }
            }
        }
        assert forall|n: i64| #[trigger] post.ids().contains_key(n) implies post.ids()[n].no_duplicates() by {
            if n == p.spec_identifier() {
                let l = filed(pre.ids(), n);
                assert(!l.contains(c));
                assert(l.no_duplicates()) by {
                    if !pre.ids().contains_key(n) {
                        assert(l =~= Seq::<StoreCoords>::empty());
                    }
                }
            }
        }
        assert(post.wf_names());
        assert(post.wf_ids());
        // expiry dates
        assert(post.expiry_places@.dom() =~= post.expiries().dom());
        assert forall|d: i32| #[trigger] post.expiries().contains_key(d) implies {
            let ps = post.expiry_places@[d];
            let ids = post.expiries()[d];
            &&& ps.len() == ids.len()
            &&& ps.no_duplicates()
            &&& forall|qq: int|
                0 <= qq < ps.len() ==> post.fragile_at(#[trigger] ps[qq], d) && post.cell(
                    ps[qq],
                )->0.spec_identifier() == ids[qq]
        } by {
            let ps = post.expiry_places@[d];
            let ids = post.expiries()[d];
            let is_new = q matches ProductCategory::Fragile { expiry_date, .. } && expiry_date == d;
            let pps = filed(pre.expiry_places@, d);
            let pids = filed(pre.expiries(), d);
            if pre.expiries().contains_key(d) {
                assert(pps == pre.expiry_places@[d]);
            } else {
                assert(pps =~= Seq::<StoreCoords>::empty());
                assert(pids =~= Seq::<i64>::empty());
            }
            assert(pps.len() == pids.len());
            assert(!pps.contains(c));
            if is_new {
                assert(ps == pps.push(c));
                assert(ids == pids.push(p.spec_identifier()));
            } else {
                assert(ps == pps && ids == pids);
            }
            assert forall|qq: int| 0 <= qq < ps.len() implies post.fragile_at(#[trigger] ps[qq], d) && post.cell(
                ps[qq],
            )->0.spec_identifier() == ids[qq] by {
                if qq < pps.len() {
                    assert(ps[qq] == pps[qq]);
                    assert(pre.fragile_at(pps[qq], d));
                    assert(!taken_by(c, q, pps[qq]));
                } else {
                    assert(ps[qq] == c);
                }
            }
        }
        assert forall|x: StoreCoords, d: i32| #[trigger] post.fragile_at(x, d) implies post.expiries().contains_key(d)
            && post.expiry_places@[d].contains(x) by {
            if x == c {
                assert(q matches ProductCategory::Fragile { expiry_date, .. } && expiry_date == d);
                assert(post.expiry_places@[d].last() == c);
            } else {
                assert(!in_tail(c, q, x));
                assert(pre.fragile_at(x, d));
                let pl = pre.expiry_places@[d];
                let i = choose|i: int| 0 <= i < pl.len() && pl[i] == x;
                if q matches ProductCategory::Fragile { expiry_date, .. } && expiry_date == d {
                    assert(post.expiry_places@[d][i] == x);
                } else {
                    assert(post.expiry_places@[d] == pl);
                }
            }
        }
        assert(post.wf_expiry());
    }

    /// Whether placing `product` at `coords` stays inside the store
    /// (`placement_safe`).
    pub fn placement_is_safe(&self, product: &I, coords: &Option<StoreCoords>) -> (b: bool)
        ensures
            b == self.placement_safe(*product, *coords),
    {
        match coords {
            None => true,
            Some(c) => {
                let q = *product.quality();
                if let ProductCategory::Fragile { max_row, .. } = q {
                    if c.0 > max_row {
                        return true;
                    }
                }
                let m = self.store_max_idx;
                if c.0 >= m || c.1 >= m {
                    return false;
                }
                match q {
                    ProductCategory::Oversized { zone_count } => zone_count >= m || (c.2 < m && zone_count < m - c.2),
                    _ => c.2 < m,
                }
            },
        }
    }

    /// Stores `product` at `coords` (as chosen by an allocator): refused
    /// when no place was found, when a fragile product would sit above
    /// its highest row, when an oversized product is as long as the shelf
    /// or longer, or when one of the places it needs is not empty.
    pub fn add_product_at(&mut self, product: I, coords: Option<StoreCoords>) -> (r: Result<(), ModificationError>)
        requires
            old(self).wf(),
            old(self).placement_safe(product, coords),
        ensures
            r == old(self).placement_result(product, coords),
            r is Ok ==> final(self).wf() && final(self).placed(old(self), product, coords->0),
            r is Err ==> *final(self) == *old(self),
    {
        let ghost pre = *self;
        let c = match coords {
            None => return Err(ModificationError::Full),
            Some(c) => c,
        };
        let q = *product.quality();
        if let ProductCategory::Fragile { max_row, .. } = q {
            if c.0 > max_row {
                return Err(ModificationError::Fragile);
            }
        }
        proof {
            pre.lemma_wf();
        }
        match q {
            ProductCategory::Oversized { zone_count } => {
                if zone_count >= self.store_max_idx {
                    return Err(ModificationError::TooBig);
                }
                let end = c.2 + zone_count;
                let mut k: usize = c.2;
                while k <= end
                    invariant
                        *self == pre,
                        pre == *old(self),
                        pre.wf(),
                        q == product.spec_quality(),
                        q == (ProductCategory::Oversized { zone_count }),
                        coords == Some(c),
                        !above_max_row(q, c),
                        zone_count < pre.side(),
                        c.0 < pre.side() && c.1 < pre.side() && end < pre.side(),
                        c.2 <= k <= end + 1,
                        end == c.2 + zone_count,
                        forall|z: usize| c.2 <= z < k ==> #[trigger] pre.cell(StoreCoords(c.0, c.1, z)) is Vacant,
                    decreases end + 1 - k,
                {
                    match &self.store[c.0][c.1][k] {
                        WarehouseEntry::Vacant => {},
                        _ => {
                            proof {
                                let x = StoreCoords(c.0, c.1, k);
                                assert(q == ProductCategory::Oversized { zone_count });
                                if k == c.2 {
                                    assert(x == c);
                                } else {
                                    assert(in_tail(c, q, x));
                                }
                                assert(taken_by(c, product.spec_quality(), x));
                                assert(!(pre.cell(x) is Vacant));
                                assert(!pre.places_vacant(c, q));
                            }
                            return Err(ModificationError::Occupied);
                        },
                    }
                    k = k + 1;
                }
                proof {
                    assert forall|x: StoreCoords| #[trigger] taken_by(c, q, x) implies pre.cell(x) is Vacant && in_cube(x, pre.side()) by {
                        assert(x == StoreCoords(c.0, c.1, x.2));
                    }
                }
                self.store_index_by_name.push(product.name(), c.copy());
                self.store_index_by_id.push(product.identifier(), c.copy());
                let last = StoreCoords(c.0, c.1, end);
                let _ = self.free_map.occupy_range(RangeInclusive::new(c.copy(), last));
                proof {
                    assert(places_between(c, StoreCoords(c.0, c.1, end), pre.side()) =~= Self::taken_places(c, q));
                    assert(Self::taken_places(c, q).contains(c));
                }
                self.set_cell(&c, WarehouseEntry::Occupied(product));
                let mut k: usize = c.2 + 1;
                while k <= end
                    invariant
                        self.wf_shape(),
                        self.store_max_idx == pre.store_max_idx,
                        c.0 < pre.side() && c.1 < pre.side() && end < pre.side(),
                        c.2 + 1 <= k <= end + 1,
                        end == c.2 + zone_count,
                        q == product.spec_quality(),
                        q == (ProductCategory::Oversized { zone_count }),
                        forall|x: StoreCoords|
                            in_cube(x, self.side()) ==> #[trigger] self.cell(x) == if x == c {
                                WarehouseEntry::Occupied(product)
                            } else if in_tail(c, q, x) && x.2 < k {
                                WarehouseEntry::OversizedPlaceholder
                            } else {
                                pre.cell(x)
                            },
                        self.store_index_by_name.wf(),
                        self.store_index_by_id.wf(),
                        self.names() == index_push(pre.names(), product.spec_name(), c),
                        self.ids() == index_push(pre.ids(), product.spec_identifier(), c),
                        self.store_index_expiry_dates == pre.store_index_expiry_dates,
                        self.expiry_places == pre.expiry_places,
                        self.free_map.wf(),
                        self.free_map.side() == pre.side(),
                        self.free() == pre.free().difference(Self::taken_places(c, q)),
                    decreases end + 1 - k,
                {
                    let x = StoreCoords(c.0, c.1, k);
                    self.set_cell(&x, WarehouseEntry::OversizedPlaceholder);
                    k = k + 1;
                }
                proof {
                    Self::lemma_place_wf(&pre, self, product, c);
                }
                Ok(())
            },
            _ => {
                match &self.store[c.0][c.1][c.2] {
                    WarehouseEntry::Vacant => {},
                    _ => {
                        proof {
                            assert(taken_by(c, q, c));
                        }
                        return Err(ModificationError::Occupied);
                    },
                }
                proof {
                    assert forall|x: StoreCoords| #[trigger] taken_by(c, q, x) implies pre.cell(x) is Vacant && in_cube(x, pre.side()) by {
                    }
                }
                self.store_index_by_name.push(product.name(), c.copy());
                self.store_index_by_id.push(product.identifier(), c.copy());
                if let ProductCategory::Fragile { expiry_date, .. } = q {
                    self.store_index_expiry_dates.push(&expiry_date, *product.identifier());
                    proof {
                        self.expiry_places = Ghost(
                            self.expiry_places@.insert(
                                expiry_date,
                                filed(self.expiry_places@, expiry_date).push(c),
                            ),
                        );
                    }
                }
                let _ = self.free_map.occupy_single(c.copy());
                proof {
                    assert(self.free() =~= pre.free().difference(Self::taken_places(c, q)));
                }
                self.set_cell(&c, WarehouseEntry::Occupied(product));
                proof {
                    Self::lemma_place_wf(&pre, self, product, c);
                }
                Ok(())
            },
        }
    }

    /// `self` is `pre` with the product `p` stored at `c` taken out.
    pub open spec fn removed(&self, pre: &Self, p: I, c: StoreCoords) -> bool {
        &&& self.side() == pre.side()
        &&& forall|x: StoreCoords|
            in_cube(x, self.side()) ==> #[trigger] self.cell(x) == if taken_by(c, p.spec_quality(), x) {
                WarehouseEntry::Vacant
            } else {
                pre.cell(x)
            }
        &&& self.names() == index_remove(pre.names(), p.spec_name(), c)
        &&& self.ids() == index_remove(pre.ids(), p.spec_identifier(), c)
        &&& self.expiries() == match p.spec_quality() {
            ProductCategory::Fragile { expiry_date, .. } => index_remove(
                pre.expiries(),
                expiry_date,
                p.spec_identifier(),
            ),
            _ => pre.expiries(),
        }
        &&& self.free() == pre.free().union(Self::taken_places(c, p.spec_quality()))
    }

    /// The answer to taking out what `c` holds.
    pub open spec fn removal_result(&self, c: StoreCoords) -> Result<(), ModificationError> {
        match self.cell(c) {
            WarehouseEntry::Vacant => Err(ModificationError::NotFound),
            WarehouseEntry::OversizedPlaceholder => Err(ModificationError::Placeholder),
            WarehouseEntry::Occupied(_) => Ok(()),
        }
    }

    /// The places paired with the identifiers of one expiry date, after the
    /// first `id` is taken from the identifiers and the product at `c` goes.
    spec fn unpaired(ps: Seq<StoreCoords>, ids: Seq<i64>, c: StoreCoords, id: i64) -> Seq<StoreCoords> {
        let j = first_index(ids, id);
        let k = choose|k: int| 0 <= k < ps.len() && ps[k] == c;
        ps.update(k, ps[j]).remove(j)
    }

    proof fn lemma_remove_first_distinct<T>(s: Seq<T>, t: T)
        requires
            s.no_duplicates(),
            s.contains(t),
        ensures
            remove_first(s, t).no_duplicates(),
            remove_first(s, t).len() == s.len() - 1,
            forall|x: T| #[trigger] remove_first(s, t).contains(x) <==> (s.contains(x) && x != t),
    {
        let k = choose|k: int| 0 <= k < s.len() && s[k] == t;
        let j = first_index(s, t);
        assert(0 <= j < s.len() && s[j] == t);
        let r = s.remove(j);
        assert forall|x: T| #[trigger] r.contains(x) <==> (s.contains(x) && x != t) by {
            if r.contains(x) {
                let a = choose|a: int| 0 <= a < r.len() && r[a] == x;
                if a < j {
                    assert(s[a] == x);
                } else {
                    assert(s[a + 1] == x);
                }
            }
            if s.contains(x) && x != t {
                let a = choose|a: int| 0 <= a < s.len() && s[a] == x;
                if a < j {
                    assert(r[a] == x);
                } else {
                    assert(a != j);
                    assert(r[a - 1] == x);
                }
            }
        }
    }

    proof fn lemma_remove_wf(pre: &Self, post: &Self, p: I, c: StoreCoords)
        requires
            pre.wf(),
            post.wf_shape(),
            post.store_max_idx == pre.store_max_idx,
            in_cube(c, pre.side()),
            pre.cell(c) == WarehouseEntry::Occupied(p),
            forall|x: StoreCoords|
                in_cube(x, post.side()) ==> #[trigger] post.cell(x) == if taken_by(c, p.spec_quality(), x) {
                    WarehouseEntry::Vacant
                } else {
                    pre.cell(x)
                },
            post.store_index_by_name.wf(),
            post.store_index_by_id.wf(),
            post.store_index_expiry_dates.wf(),
            post.names() == index_remove(pre.names(), p.spec_name(), c),
            post.ids() == index_remove(pre.ids(), p.spec_identifier(), c),
            post.free_map.wf(),
            post.free_map.side() == pre.side(),
            post.free() == pre.free().union(Self::taken_places(c, p.spec_quality())),
            match p.spec_quality() {
                ProductCategory::Fragile { expiry_date, .. } => {
                    &&& pre.expiries().contains_key(expiry_date)
                    &&& post.expiries() == index_remove(pre.expiries(), expiry_date, p.spec_identifier())
                    &&& post.expiry_places@ == if remove_first(pre.expiries()[expiry_date], p.spec_identifier()).len() == 0 {
                        pre.expiry_places@.remove(expiry_date)
                    } else {
                        pre.expiry_places@.insert(
                            expiry_date,
                            Self::unpaired(pre.expiry_places@[expiry_date], pre.expiries()[expiry_date], c, p.spec_identifier()),
                        )
                    }
                },
                _ => post.expiries() == pre.expiries() && post.expiry_places@ == pre.expiry_places@,
            },
        ensures
            post.wf(),
    {
        let m = pre.side();
        let q = p.spec_quality();
        pre.lemma_wf();
        assert(taken_by(c, q, c));
        // every place taken by the product is in the store, and the
        // places after `c` that it takes were placeholders
        assert forall|x: StoreCoords| #[trigger] taken_by(c, q, x) implies in_cube(x, m)
            && (x != c ==> pre.cell(x) is OversizedPlaceholder) by {
            if x != c {
                assert(in_cube(StoreCoords(c.0, c.1, c.2), m));
                assert(pre.cell(StoreCoords(x.0, x.1, c.2)) == pre.cell(c));
                assert(pre.under_oversized(x));
            }
        }
        // free places
        assert forall|x: StoreCoords| in_cube(x, post.side()) implies (post.free().contains(x) <==> #[trigger] post.cell(x) is Vacant) by {
            if taken_by(c, q, x) {
                assert(Self::taken_places(c, q).contains(x));
            } else {
                assert(!Self::taken_places(c, q).contains(x));
            }
        }
        // placeholders
        assert forall|x: StoreCoords| in_cube(x, post.side()) implies (#[trigger] post.cell(x) is OversizedPlaceholder
            <==> post.under_oversized(x)) by {
            if post.under_oversized(x) {
                let k = choose|k: usize|
                    #![trigger post.cell(StoreCoords(x.0, x.1, k))]
                    k < x.2 && match post.cell(StoreCoords(x.0, x.1, k)) {
                        WarehouseEntry::Occupied(pp) => in_tail(StoreCoords(x.0, x.1, k), pp.spec_quality(), x),
                        _ => false,
                    };
                let w = StoreCoords(x.0, x.1, k);
                assert(!taken_by(c, q, w));
                assert(post.cell(w) == pre.cell(w));
                assert(pre.under_oversized(x));
                if taken_by(c, q, x) {
                    // the product at `w` would also cover `c` or lie in the span of `c`
                    if x == c {
                        assert(pre.cell(x) is OversizedPlaceholder);
                    } else if k < c.2 {
                        assert(pre.cell(StoreCoords(c.0, c.1, k)) == pre.cell(w));
                        assert(pre.under_oversized(c));
                    } else {
                        assert(k > c.2);
                        assert(taken_by(c, q, w));
                    }
                }
            }
            if !taken_by(c, q, x) {
                assert(post.cell(x) == pre.cell(x));
                if pre.under_oversized(x) {
                    let k = choose|k: usize|
                        #![trigger pre.cell(StoreCoords(x.0, x.1, k))]
                        k < x.2 && match pre.cell(StoreCoords(x.0, x.1, k)) {
                            WarehouseEntry::Occupied(pp) => in_tail(StoreCoords(x.0, x.1, k), pp.spec_quality(), x),
                            _ => false,
                        };
                    let w = StoreCoords(x.0, x.1, k);
                    if w == c {
                        assert(false);
                    }
                    if taken_by(c, q, w) {
                        assert(pre.cell(w) is OversizedPlaceholder);
                    }
                    assert(post.cell(w) == pre.cell(w));
                    assert(post.under_oversized(x));
                }
            }
        }
        assert forall|x: StoreCoords| in_cube(x, post.side()) && #[trigger] post.cell(x) is Occupied implies match post.cell(
            x,
        )->0.spec_quality() {
            ProductCategory::Oversized { zone_count } => x.2 + zone_count < post.side(),
            _ => true,
        } by {
            assert(!taken_by(c, q, x));
            assert(pre.cell(x) is Occupied);
        }
        // names
        let nm = p.spec_name();
        assert(pre.names()[nm].contains(c));
        Self::lemma_remove_first_distinct(pre.names()[nm], c);
        assert forall|n: Seq<char>, x: StoreCoords|
            #![trigger post.names()[n].contains(x)]
            post.names().contains_key(n) && post.names()[n].contains(x) implies in_cube(x, post.side())
                && post.cell(x) is Occupied && post.cell(x)->0.spec_name() == n by {
            if n == nm {
                assert(remove_first(pre.names()[nm], c).contains(x));
            }
            assert(pre.names()[n].contains(x));
            assert(x != c);
            assert(pre.cell(x) is Occupied);
            assert(!taken_by(c, q, x));
        }
        assert forall|x: StoreCoords|
            in_cube(x, post.side()) && #[trigger] post.cell(x) is Occupied implies post.names().contains_key(
                post.cell(x)->0.spec_name(),
            ) && post.names()[post.cell(x)->0.spec_name()].contains(x) by {
            let n = post.cell(x)->0.spec_name();
            assert(!taken_by(c, q, x));
            assert(pre.cell(x) is Occupied);
            assert(pre.names()[n].contains(x));
            if n == nm {
                assert(remove_first(pre.names()[nm], c).contains(x));
            }
        }
        assert forall|n: Seq<char>| #[trigger] post.names().contains_key(n) implies post.names()[n].no_duplicates() by {
        }
        // identifiers
        let id = p.spec_identifier();
        assert(pre.ids()[id].contains(c));
        Self::lemma_remove_first_distinct(pre.ids()[id], c);
        assert forall|n: i64, x: StoreCoords|
            #![trigger post.ids()[n].contains(x)]
            post.ids().contains_key(n) && post.ids()[n].contains(x) implies in_cube(x, post.side())
                && post.cell(x) is Occupied && post.cell(x)->0.spec_identifier() == n by {
            if n == id {
                assert(remove_first(pre.ids()[id], c).contains(x));
            }
            assert(pre.ids()[n].contains(x));
            assert(x != c);
            assert(pre.cell(x) is Occupied);
            assert(!taken_by(c, q, x));
        }
        assert forall|x: StoreCoords|
            in_cube(x, post.side()) && #[trigger] post.cell(x) is Occupied implies post.ids().contains_key(
                post.cell(x)->0.spec_identifier(),
            ) && post.ids()[post.cell(x)->0.spec_identifier()].contains(x) by {
            let n = post.cell(x)->0.spec_identifier();
            assert(!taken_by(c, q, x));
            assert(pre.cell(x) is Occupied);
            assert(pre.ids()[n].contains(x));
            if n == id {
                assert(remove_first(pre.ids()[id], c).contains(x));
            }
        }
        assert forall|n: i64| #[trigger] post.ids().contains_key(n) implies post.ids()[n].no_duplicates() by {
        }
        assert(post.wf_names());
        assert(post.wf_ids());
        // expiry dates
        Self::lemma_remove_expiry(pre, post, p, c);
    }

    proof fn lemma_remove_fragile(pre: &Self, post: &Self, p: I, c: StoreCoords, expiry_date: i32)
        requires
            pre.wf(),
            post.store_max_idx == pre.store_max_idx,
            in_cube(c, pre.side()),
            pre.cell(c) == WarehouseEntry::Occupied(p),
            forall|x: StoreCoords|
                in_cube(x, post.side()) ==> #[trigger] post.cell(x) == if taken_by(c, p.spec_quality(), x) {
                    WarehouseEntry::Vacant
                } else {
                    pre.cell(x)
                },
            post.store_index_expiry_dates.wf(),
            p.spec_quality() matches ProductCategory::Fragile { expiry_date: d, .. } && d == expiry_date,
            match p.spec_quality() {
                ProductCategory::Fragile { expiry_date, .. } => {
                    &&& pre.expiries().contains_key(expiry_date)
                    &&& post.expiries() == index_remove(pre.expiries(), expiry_date, p.spec_identifier())
                    &&& post.expiry_places@ == if remove_first(pre.expiries()[expiry_date], p.spec_identifier()).len() == 0 {
                        pre.expiry_places@.remove(expiry_date)
                    } else {
                        pre.expiry_places@.insert(
                            expiry_date,
                            Self::unpaired(pre.expiry_places@[expiry_date], pre.expiries()[expiry_date], c, p.spec_identifier()),
                        )
                    }
                },
                _ => post.expiries() == pre.expiries() && post.expiry_places@ == pre.expiry_places@,
            },
        ensures
            post.wf_expiry(),
    {
        let q = p.spec_quality();
        let id = p.spec_identifier();
        assert(taken_by(c, q, c));
        assert forall|x: StoreCoords, d: i32| #[trigger] pre.fragile_at(x, d) && x != c implies post.fragile_at(x, d)
            && post.cell(x) == pre.cell(x) by {
            if taken_by(c, q, x) {
                assert(in_tail(c, q, x));
            }
        }
                let d0 = expiry_date;
        let ps = pre.expiry_places@[d0];
        let ids = pre.expiries()[d0];
        assert(pre.fragile_at(c, d0));
        assert(ps.contains(c));
        let k = choose|k: int| 0 <= k < ps.len() && ps[k] == c;
        assert(ids[k] == id);
        assert(ids.contains(id));
        let j = first_index(ids, id);
        lemma_first_index_exists(ids, id, k);
        let ids2 = remove_first(ids, id);
        let ps2 = Self::unpaired(ps, ids, c, id);
        assert(ids2 == ids.remove(j));
        assert(ps2 == ps.update(k, ps[j]).remove(j));
        assert(ps2.len() == ids2.len());
        // the new pairing
        assert forall|r: int| 0 <= r < ps2.len() implies post.fragile_at(#[trigger] ps2[r], d0) && post.cell(
            ps2[r],
        )->0.spec_identifier() == ids2[r] && ps2[r] != c by {
            let src = if r < j { r } else { r + 1 };
            if src == k {
                assert(ps2[r] == ps[j]);
                assert(ids2[r] == ids[k]);
                assert(ids[j] == id);
                if j == k {
                    assert(false);
                }
                assert(ps[j] != c);
                assert(pre.fragile_at(ps[j], d0));
            } else {
                assert(ps2[r] == ps[src]);
                assert(ids2[r] == ids[src]);
                assert(ps[src] != c);
                assert(pre.fragile_at(ps[src], d0));
            }
        }
        assert(ps2.no_duplicates()) by {
            assert forall|a: int, b: int| 0 <= a < ps2.len() && 0 <= b < ps2.len() && a != b implies ps2[a] != ps2[b] by {
                let sa = if a < j { a } else { a + 1 };
                let sb = if b < j { b } else { b + 1 };
                let ta = if sa == k { j } else { sa };
                let tb = if sb == k { j } else { sb };
                assert(ps2[a] == ps[ta]);
                assert(ps2[b] == ps[tb]);
                assert(ta != tb);
            }
        }
        assert(post.expiry_places@.dom() =~= post.expiries().dom());
        assert forall|d: i32| #[trigger] post.expiries().contains_key(d) implies {
            let pps = post.expiry_places@[d];
            let pids = post.expiries()[d];
            &&& pps.len() == pids.len()
            &&& pps.no_duplicates()
            &&& forall|qq: int|
                0 <= qq < pps.len() ==> post.fragile_at(#[trigger] pps[qq], d) && post.cell(
                    pps[qq],
                )->0.spec_identifier() == pids[qq]
        } by {
            if d == d0 {
                assert(post.expiry_places@[d] == ps2);
                assert(post.expiries()[d] == ids2);
            } else {
                let pps = pre.expiry_places@[d];
                assert(post.expiry_places@[d] == pps);
                assert forall|qq: int| 0 <= qq < pps.len() implies post.fragile_at(#[trigger] pps[qq], d) && post.cell(
                    pps[qq],
                )->0.spec_identifier() == pre.expiries()[d][qq] by {
                    assert(pre.fragile_at(pps[qq], d));
                    assert(pps[qq] != c);
                }
            }
        }
        assert forall|x: StoreCoords, d: i32| #[trigger] post.fragile_at(x, d) implies post.expiries().contains_key(d)
            && post.expiry_places@[d].contains(x) by {
            assert(!taken_by(c, q, x));
            assert(pre.fragile_at(x, d));
            assert(x != c);
            let pl = pre.expiry_places@[d];
            let i = choose|i: int| 0 <= i < pl.len() && pl[i] == x;
            if d == d0 {
                // `x` keeps a position in the new pairing
                let r = if i == j { k - 1 } else if i < j { i } else { i - 1 };
                if i == j {
                    assert(k != j);
                    assert(ps2[k - 1] == ps.update(k, ps[j])[k]);
                } else if i < j {
                    assert(ps2[i] == ps[i]);
                } else {
                    assert(i != k);
                    assert(ps2[i - 1] == ps.update(k, ps[j])[i]);
                }
                assert(ps2[r] == x);
                assert(ps2.len() > 0);
                assert(ids2.len() > 0);
                assert(post.expiry_places@[d] == ps2);
            } else {
                assert(post.expiry_places@[d] == pl);
            }
        }
    
    }

    proof fn lemma_remove_expiry(pre: &Self, post: &Self, p: I, c: StoreCoords)
        requires
            pre.wf(),
            post.store_max_idx == pre.store_max_idx,
            in_cube(c, pre.side()),
            pre.cell(c) == WarehouseEntry::Occupied(p),
            forall|x: StoreCoords|
                in_cube(x, post.side()) ==> #[trigger] post.cell(x) == if taken_by(c, p.spec_quality(), x) {
                    WarehouseEntry::Vacant
                } else {
                    pre.cell(x)
                },
            post.store_index_expiry_dates.wf(),
            match p.spec_quality() {
                ProductCategory::Fragile { expiry_date, .. } => {
                    &&& pre.expiries().contains_key(expiry_date)
                    &&& post.expiries() == index_remove(pre.expiries(), expiry_date, p.spec_identifier())
                    &&& post.expiry_places@ == if remove_first(pre.expiries()[expiry_date], p.spec_identifier()).len() == 0 {
                        pre.expiry_places@.remove(expiry_date)
                    } else {
                        pre.expiry_places@.insert(
                            expiry_date,
                            Self::unpaired(pre.expiry_places@[expiry_date], pre.expiries()[expiry_date], c, p.spec_identifier()),
                        )
                    }
                },
                _ => post.expiries() == pre.expiries() && post.expiry_places@ == pre.expiry_places@,
            },
        ensures
            post.wf_expiry(),
    {
        let q = p.spec_quality();
        let id = p.spec_identifier();
        assert(taken_by(c, q, c));
        // a listed place holds a product, so it is not one the removal empties
        assert forall|x: StoreCoords, d: i32| #[trigger] pre.fragile_at(x, d) && x != c implies post.fragile_at(x, d)
            && post.cell(x) == pre.cell(x) by {
            if taken_by(c, q, x) {
                assert(in_tail(c, q, x));
                assert(pre.cell(StoreCoords(x.0, x.1, c.2)) == pre.cell(c));
                assert(pre.under_oversized(x));
            }
        }
        match q {
            ProductCategory::Fragile { expiry_date, .. } => {
                Self::lemma_remove_fragile(pre, post, p, c, expiry_date);
            },
            _ => {
                assert forall|d: i32| #[trigger] post.expiries().contains_key(d) implies {
                    let pps = post.expiry_places@[d];
                    let pids = post.expiries()[d];
                    &&& pps.len() == pids.len()
                    &&& pps.no_duplicates()
                    &&& forall|qq: int|
                        0 <= qq < pps.len() ==> post.fragile_at(#[trigger] pps[qq], d) && post.cell(
                            pps[qq],
                        )->0.spec_identifier() == pids[qq]
                } by {
                    let pps = pre.expiry_places@[d];
                    assert forall|qq: int| 0 <= qq < pps.len() implies post.fragile_at(#[trigger] pps[qq], d) && post.cell(
                        pps[qq],
                    )->0.spec_identifier() == pre.expiries()[d][qq] by {
                        assert(pre.fragile_at(pps[qq], d));
                        assert(pps[qq] != c);
                    }
                }
                assert forall|x: StoreCoords, d: i32| #[trigger] post.fragile_at(x, d) implies post.expiries().contains_key(d)
                    && post.expiry_places@[d].contains(x) by {
                    assert(!taken_by(c, q, x));
                    assert(pre.fragile_at(x, d));
                }
            },
        }
    }

    /// Takes out the product stored at `store_coords`, with the zones an
    /// oversized product also takes; refused when the place is empty or
    /// is a placeholder.
    #[verifier::rlimit(60)]
    pub fn remove_product(&mut self, store_coords: StoreCoords) -> (r: Result<(), ModificationError>)
        requires
            old(self).wf(),
            in_cube(store_coords, old(self).side()),
        ensures
            r == old(self).removal_result(store_coords),
            r is Ok ==> final(self).wf() && final(self).removed(old(self), old(self).cell(store_coords)->0, store_coords),
            r is Err ==> *final(self) == *old(self),
    {
        let ghost pre = *self;
        let c = store_coords;
        let (name, id, q) = match &self.store[c.0][c.1][c.2] {
            WarehouseEntry::Vacant => return Err(ModificationError::NotFound),
            WarehouseEntry::OversizedPlaceholder => return Err(ModificationError::Placeholder),
            WarehouseEntry::Occupied(p) => (p.name().clone(), *p.identifier(), *p.quality()),
        };
        let ghost p = pre.cell(c)->0;
        proof {
            pre.lemma_wf();
            assert(pre.cell(c) is Occupied);
            assert(pre.names()[name@].contains(c));
            assert(pre.ids()[id].contains(c));
        }
        self.store_index_by_name.remove_value(&name, &c);
        self.store_index_by_id.remove_value(&id, &c);
        if let ProductCategory::Fragile { expiry_date, .. } = q {
            proof {
                assert(pre.fragile_at(c, expiry_date));
                let ps = pre.expiry_places@[expiry_date];
                let k = choose|k: int| 0 <= k < ps.len() && ps[k] == c;
                assert(pre.expiries()[expiry_date][k] == id);
            }
            self.store_index_expiry_dates.remove_value(&expiry_date, &id);
            proof {
                let ids = pre.expiries()[expiry_date];
                let ps = pre.expiry_places@[expiry_date];
                if remove_first(ids, id).len() == 0 {
                    self.expiry_places = Ghost(self.expiry_places@.remove(expiry_date));
                } else {
                    self.expiry_places = Ghost(
                        self.expiry_places@.insert(expiry_date, Self::unpaired(ps, ids, c, id)),
                    );
                }
            }
        }
        let ghost taken = Self::taken_places(c, q);
        proof {
            assert forall|x: StoreCoords| #[trigger] taken.contains(x) implies in_cube(x, pre.side())
                && !pre.free().contains(x) by {
                if x != c {
                    assert(pre.cell(StoreCoords(x.0, x.1, c.2)) == pre.cell(c));
                    assert(pre.under_oversized(x));
                }
            }
        }
        let mut zone_count: usize = 0;
        if let ProductCategory::Oversized { zone_count: z } = q {
            zone_count = z;
            proof {
                assert(c.2 + z < pre.side());
            }
            let last = StoreCoords(c.0, c.1, c.2 + z);
            let _ = self.free_map.free_range(RangeInclusive::new(c.copy(), last));
            proof {
                assert(places_between(c, StoreCoords(c.0, c.1, (c.2 + z) as usize), pre.side()) =~= taken);
            }
        } else {
            let _ = self.free_map.free_single(c.copy());
            proof {
                assert(pre.free().insert(c) =~= pre.free().union(taken));
            }
        }
        self.set_cell(&c, WarehouseEntry::Vacant);
        let ghost mid = *self;
        if zone_count > 0 {
            let end = c.2 + zone_count;
            let mut k: usize = c.2 + 1;
            while k <= end
                invariant
                    self.wf_shape(),
                    self.store_max_idx == pre.store_max_idx,
                    c.0 < pre.side() && c.1 < pre.side() && end < pre.side(),
                    c.2 + 1 <= k <= end + 1,
                    end == c.2 + zone_count,
                    q == (ProductCategory::Oversized { zone_count }),
                    self.store_index_by_name == mid.store_index_by_name,
                    self.store_index_by_id == mid.store_index_by_id,
                    self.store_index_expiry_dates == mid.store_index_expiry_dates,
                    self.free_map == mid.free_map,
                    self.expiry_places == mid.expiry_places,
                    forall|x: StoreCoords|
                        in_cube(x, self.side()) ==> #[trigger] self.cell(x) == if x == c || (in_tail(c, q, x) && x.2 < k) {
                            WarehouseEntry::Vacant
                        } else {
                            pre.cell(x)
                        },
                decreases end + 1 - k,
            {
                let x = StoreCoords(c.0, c.1, k);
                self.set_cell(&x, WarehouseEntry::Vacant);
                k = k + 1;
            }
        }
        proof {
            assert(q == p.spec_quality());
            Self::lemma_remove_wf(&pre, self, p, c);
        }
        Ok(())
    }

    /// How each zone of a shelf appears while browsing.
    pub fn zone_labels(&self, row: usize, shelf: usize) -> (r: Vec<ZoneLabel>)
        requires
            self.wf(),
            row < self.side(),
            shelf < self.side(),
        ensures
            r@.len() == self.side(),
            forall|k: int|
                0 <= k < self.side() ==> match (#[trigger] r@[k], self.cell(StoreCoords(row, shelf, k as usize))) {
                    (ZoneLabel::Product(n), WarehouseEntry::Occupied(p)) => n@ == p.spec_name(),
                    (ZoneLabel::Empty, WarehouseEntry::Vacant) => true,
                    (ZoneLabel::Oversized, WarehouseEntry::OversizedPlaceholder) => true,
                    _ => false,
                },
    {
        let zones = &self.store[row][shelf];
        let mut out: Vec<ZoneLabel> = Vec::new();
        let mut k: usize = 0;
        while k < zones.len()
            invariant
                self.wf_shape(),
                row < self.side(),
                shelf < self.side(),
                zones@ == self.store@[row as int]@[shelf as int]@,
                zones@.len() == self.side(),
                k <= zones@.len(),
                out@.len() == k,
                forall|z: int|
                    0 <= z < k ==> match (#[trigger] out@[z], self.cell(StoreCoords(row, shelf, z as usize))) {
                        (ZoneLabel::Product(n), WarehouseEntry::Occupied(p)) => n@ == p.spec_name(),
                        (ZoneLabel::Empty, WarehouseEntry::Vacant) => true,
                        (ZoneLabel::Oversized, WarehouseEntry::OversizedPlaceholder) => true,
                        _ => false,
                    },
            decreases zones@.len() - k,
        {
            let label = match &zones[k] {
                WarehouseEntry::Occupied(p) => ZoneLabel::Product(p.name().clone()),
                WarehouseEntry::Vacant => ZoneLabel::Empty,
                WarehouseEntry::OversizedPlaceholder => ZoneLabel::Oversized,
            };
            out.push(label);
            k = k + 1;
        }
        out
    }

    /// Stores `product` where `allocator` proposes. No admission filter can
    /// be registered with a store, so every product is admitted; the rest
    /// is `add_product_at` on the proposal.
    pub fn add_product<A: WarehouseAllocator<I>>(&mut self, product: I, allocator: &mut A) -> (r: Result<(), ModificationError>)
        requires
            old(self).wf(),
            old(allocator).answers(old(self), &product),
            old(self).placement_safe(product, old(allocator).proposal(old(self), &product)),
        ensures
            *final(allocator) == old(allocator).after_next(old(self), &product),
            r == old(self).placement_result(product, old(allocator).proposal(old(self), &product)),
            r is Ok ==> final(self).wf() && final(self).placed(
                old(self),
                product,
                old(allocator).proposal(old(self), &product)->0,
            ),
            r is Err ==> *final(self) == *old(self),
    {
        let store_coords = allocator.next(self, &product);
        self.add_product_at(product, store_coords)
    }
}

/// A strategy that proposes where a new product goes.
pub trait WarehouseAllocator<I: Product>: Sized {
    /// `next` comes back on these arguments.
    spec fn answers(&self, warehouse: &Warehouse<I>, product: &I) -> bool;

    /// The place `next` proposes.
    spec fn proposal(&self, warehouse: &Warehouse<I>, product: &I) -> Option<StoreCoords>;

    /// The strategy's state after `next`.
    spec fn after_next(&self, warehouse: &Warehouse<I>, product: &I) -> Self;

    fn next(&mut self, warehouse: &Warehouse<I>, product: &I) -> (r: Option<StoreCoords>)
        requires
            warehouse.wf(),
            old(self).answers(warehouse, product),
        ensures
            r == old(self).proposal(warehouse, product),
            *final(self) == old(self).after_next(warehouse, product),
    ;
}


impl<I: Product> Warehouse<I> {
    /// Taking out a product just stored gives back the store it was
    /// stored in: the same places, free places and name and identifier
    /// indexes; the expiry index too, unless the same identifier was
    /// already listed under the product's expiry date (removal takes the
    /// first listing out).
    pub proof fn lemma_remove_undoes_add(w0: Self, w1: Self, w2: Self, p: I, c: StoreCoords)
        requires
            w0.wf(),
            in_cube(c, w0.side()),
            w0.placement_result(p, Some(c)) is Ok,
            w1.wf(),
            w1.placed(&w0, p, c),
            w2.removed(&w1, w1.cell(c)->0, c),
        ensures
            w2.side() == w0.side(),
            forall|x: StoreCoords| in_cube(x, w0.side()) ==> #[trigger] w2.cell(x) == w0.cell(x),
            w2.free() == w0.free(),
            w2.names() == w0.names(),
            w2.ids() == w0.ids(),
            (match p.spec_quality() {
                ProductCategory::Fragile { expiry_date, .. } => !(w0.expiries().contains_key(expiry_date)
                    && w0.expiries()[expiry_date].contains(p.spec_identifier())),
                _ => true,
            }) ==> w2.expiries() == w0.expiries(),
    {
        let q = p.spec_quality();
        w0.lemma_wf();
        w1.lemma_wf();
        assert(w1.cell(c) == WarehouseEntry::Occupied(p));
        assert(w0.places_vacant(c, q));
        assert(taken_by(c, q, c));
        assert(w0.cell(c) is Vacant);
        w0.lemma_vacant_unlisted(c);
        assert forall|x: StoreCoords| in_cube(x, w0.side()) implies #[trigger] w2.cell(x) == w0.cell(x) by {
            if taken_by(c, q, x) {
                assert(w0.cell(x) is Vacant);
            }
        }
        let t = Self::taken_places(c, q);
        assert forall|x: StoreCoords| t.contains(x) implies w0.free().contains(x) by {
            assert(taken_by(c, q, x));
            if x != c {
                match q {
                    ProductCategory::Oversized { zone_count } => {
                        assert(c.2 + zone_count < w1.side());
                    },
                    _ => {},
                }
            }
            assert(in_cube(x, w0.side()));
            assert(w0.cell(x) is Vacant);
        }
        assert(w2.free() =~= w0.free());
        let name = p.spec_name();
        let id = p.spec_identifier();
        if w0.names().contains_key(name) {
            w0.store_index_by_name.lemma_lists_nonempty(name);
        }
        lemma_remove_undoes_push(w0.names(), name, c);
        if w0.ids().contains_key(id) {
            w0.store_index_by_id.lemma_lists_nonempty(id);
        }
        lemma_remove_undoes_push(w0.ids(), id, c);
        match q {
            ProductCategory::Fragile { expiry_date, .. } => {
                if w0.expiries().contains_key(expiry_date) {
                    w0.store_index_expiry_dates.lemma_lists_nonempty(expiry_date);
                }
                if !(w0.expiries().contains_key(expiry_date) && w0.expiries()[expiry_date].contains(id)) {
                    lemma_remove_undoes_push(w0.expiries(), expiry_date, id);
                }
            },
            _ => {},
        }
    }

    /// A product just stored is listed, last, under its name and under its
    /// identifier, at the place where it was stored.
    pub proof fn lemma_added_is_listed(w0: Self, w1: Self, p: I, c: StoreCoords)
        requires
            w1.placed(&w0, p, c),
        ensures
            w1.names().contains_key(p.spec_name()),
            w1.names()[p.spec_name()].last() == c,
            w1.ids().contains_key(p.spec_identifier()),
            w1.ids()[p.spec_identifier()].last() == c,
            in_cube(c, w1.side()) ==> w1.cell(c) == WarehouseEntry::Occupied(p),
    {
    }
}


/// What place `x` holds once the first `n` of `ps` are stored, each
/// product at its place, in order.
pub open spec fn entry_after<I: Product>(ps: Seq<(StoreCoords, I)>, n: int, x: StoreCoords) -> WarehouseEntry<I>
    decreases n,
{
    if n <= 0 {
        WarehouseEntry::Vacant
    } else {
        let c = ps[n - 1].0;
        let p = ps[n - 1].1;
        if x == c {
            WarehouseEntry::Occupied(p)
        } else if in_tail(c, p.spec_quality(), x) {
            WarehouseEntry::OversizedPlaceholder
        } else {
            entry_after(ps, n - 1, x)
        }
    }
}

/// The `i`-th product of `ps` can be stored at its place in a store of
/// side `m` that holds the earlier ones: the places it needs lie in the
/// store and are empty, and a fragile product is not above its highest
/// row.
pub open spec fn placement_fits<I: Product>(m: int, ps: Seq<(StoreCoords, I)>, i: int) -> bool {
    let c = ps[i].0;
    let q = ps[i].1.spec_quality();
    &&& !above_max_row(q, c)
    &&& c.0 < m
    &&& c.1 < m
    &&& match q {
        ProductCategory::Oversized { zone_count } => zone_count < m && c.2 + zone_count < m,
        _ => c.2 < m,
    }
    &&& forall|x: StoreCoords| #[trigger] taken_by(c, q, x) ==> entry_after(ps, i, x) is Vacant
}

/// A store side whose cube of places can be numbered in `u64`.
pub open spec fn side_allowed(m: int) -> bool {
    1 <= m && m * m * m <= u64::MAX
}

impl<I: Product> Warehouse<I> {
    /// A store of side `store_max_idx` that holds the given products at
    /// the given places, stored one after the other; `Err` when the side
    /// cannot be a store's, or when a product does not fit at its place.
    pub fn from_placements(store_max_idx: usize, placements: Vec<(StoreCoords, I)>) -> (r: Result<Self, ()>)
        ensures
            r is Ok <==> side_allowed(store_max_idx as int) && forall|i: int|
                0 <= i < placements@.len() ==> #[trigger] placement_fits(store_max_idx as int, placements@, i),
            r matches Ok(w) ==> {
                &&& w.wf()
                &&& w.side() == store_max_idx
                &&& forall|x: StoreCoords|
                    in_cube(x, w.side()) ==> #[trigger] w.cell(x) == entry_after(placements@, placements@.len() as int, x)
            },
    {
        let ghost m = store_max_idx as int;
        if store_max_idx == 0 || store_max_idx > 2642245 {
            proof {
                if m > 2642245 {
                    assert(m * m * m > u64::MAX) by (nonlinear_arith)
                        requires
                            m >= 2642246,
                    ;
                }
            }
            return Err(());
        }
        assert(m * m * m <= u64::MAX) by (nonlinear_arith)
            requires
                1 <= m <= 2642245,
        ;
        let ghost ps = placements@;
        let mut w: Warehouse<I> = Warehouse::new(store_max_idx);
        let mut rest = placements;
        let total = rest.len();
        let mut i: usize = 0;
        while rest.len() > 0
            invariant
                ps == placements@,
                ps.len() == total,
                ps.len() == i + rest@.len(),
                rest@ == ps.subrange(i as int, ps.len() as int),
                side_allowed(m),
                w.wf(),
                w.side() == m,
                m == store_max_idx,
                forall|j: int| 0 <= j < i ==> #[trigger] placement_fits(m, ps, j),
                forall|x: StoreCoords| in_cube(x, m) ==> #[trigger] w.cell(x) == entry_after(ps, i as int, x),
            decreases rest@.len(),
        {
            let ghost pre = w;
            let (c, p) = rest.remove(0);
            proof {
                assert(ps[i as int] == (c, p));
            }
            let coords = Some(c);
            proof {
                pre.lemma_wf();
                Self::lemma_fits_iff(pre, ps, i as int);
            }
            if !w.placement_is_safe(&p, &coords) {
                assert(!placement_fits(store_max_idx as int, placements@, i as int));
                return Err(());
            }
            match w.add_product_at(p, coords) {
                Ok(()) => {},
                Err(_) => {
                    assert(!placement_fits(store_max_idx as int, placements@, i as int));
                    return Err(());
                },
            }
            proof {
                assert forall|x: StoreCoords| in_cube(x, m) implies #[trigger] w.cell(x) == entry_after(ps, i + 1, x) by {
                    assert(w.cell(x) == pre.cell(x) || x == c || in_tail(c, ps[i as int].1.spec_quality(), x));
                }
            }
            i = i + 1;
        }
        Ok(w)
    }

    /// In a store holding the first `i` products, the `i`-th fits exactly
    /// when placing it is safe and accepted.
    proof fn lemma_fits_iff(w: Self, ps: Seq<(StoreCoords, I)>, i: int)
        requires
            w.wf(),
            0 <= i < ps.len(),
            forall|x: StoreCoords| in_cube(x, w.side()) ==> #[trigger] w.cell(x) == entry_after(ps, i, x),
        ensures
            placement_fits(w.side(), ps, i) <==> (w.placement_safe(ps[i].1, Some(ps[i].0))
                && w.placement_result(ps[i].1, Some(ps[i].0)) is Ok),
    {
        let c = ps[i].0;
        let p = ps[i].1;
        let q = p.spec_quality();
        let m = w.side();
        if placement_fits(m, ps, i) {
            assert forall|x: StoreCoords| #[trigger] taken_by(c, q, x) implies w.cell(x) is Vacant by {
                assert(in_cube(x, m));
                assert(entry_after(ps, i, x) is Vacant);
            }
        } else if w.placement_safe(p, Some(c)) && w.placement_result(p, Some(c)) is Ok {
            assert(!above_max_row(q, c));
            assert(!longer_than_shelf(q, m));
            assert forall|x: StoreCoords| #[trigger] taken_by(c, q, x) implies entry_after(ps, i, x) is Vacant by {
                assert(w.cell(x) is Vacant);
                assert(in_cube(x, m));
            }
        }
    }
}

} // verus!
