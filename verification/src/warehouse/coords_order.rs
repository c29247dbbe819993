//! The order of places: row, then shelf, then zone; and for places tied
//! to a store, the side length last. Both orders are written out here,
//! field by field, as `derive(Ord)` compares.

use vstd::prelude::*;
use vstd::std_specs::cmp::{PartialOrdSpec, PartialOrdSpecImpl};
use core::cmp::Ordering;
use crate::warehouse::coords::{coords_lt, LimitStoreCoords, StoreCoords};

verus! {

/// How `a` compares with `b` in row-major order.
pub open spec fn coords_order(a: StoreCoords, b: StoreCoords) -> Ordering {
    if coords_lt(a, b) {
        Ordering::Less
    } else if a == b {
        Ordering::Equal
    } else {
        Ordering::Greater
    }
}

/// How `x` compares with `y`: by their places, then by their side lengths.
pub open spec fn limit_order(x: LimitStoreCoords, y: LimitStoreCoords) -> Ordering {
    match coords_order(x.spec_coords(), y.spec_coords()) {
        Ordering::Equal => if x.spec_max_idx() < y.spec_max_idx() {
            Ordering::Less
        } else if x.spec_max_idx() == y.spec_max_idx() {
            Ordering::Equal
        } else {
            Ordering::Greater
        },
        o => o,
    }
}

impl PartialOrd for StoreCoords {
    fn partial_cmp(&self, other: &Self) -> (r: Option<Ordering>) {
        if self.0 < other.0 {
            Some(Ordering::Less)
        } else if self.0 > other.0 {
            Some(Ordering::Greater)
        } else if self.1 < other.1 {
            Some(Ordering::Less)
        } else if self.1 > other.1 {
            Some(Ordering::Greater)
        } else if self.2 < other.2 {
            Some(Ordering::Less)
        } else if self.2 > other.2 {
            Some(Ordering::Greater)
        } else {
            Some(Ordering::Equal)
        }
    }
}

impl PartialOrdSpecImpl for StoreCoords {
    open spec fn obeys_partial_cmp_spec() -> bool {
        true
    }

    open spec fn partial_cmp_spec(&self, other: &Self) -> Option<Ordering> {
        Some(coords_order(*self, *other))
    }
}

impl PartialOrd for LimitStoreCoords {
    fn partial_cmp(&self, other: &Self) -> (r: Option<Ordering>) {
        let a = self.coords();
        let b = other.coords();
        match a.partial_cmp(&b) {
            Some(Ordering::Equal) => {
                let m = self.max_idx();
                let n = other.max_idx();
                if m < n {
                    Some(Ordering::Less)
                } else if m == n {
                    Some(Ordering::Equal)
                } else {
                    Some(Ordering::Greater)
                }
            },
            o => o,
        }
    }
}

impl PartialOrdSpecImpl for LimitStoreCoords {
    open spec fn obeys_partial_cmp_spec() -> bool {
        true
    }

    open spec fn partial_cmp_spec(&self, other: &Self) -> Option<Ordering> {
        Some(limit_order(*self, *other))
    }
}

/// Tying places to one store keeps their order: two places tied to a
/// store of the same side length compare exactly as the places do, and
/// the tied value gives its place back.
pub proof fn lemma_limit_keeps_order(a: StoreCoords, b: StoreCoords, m: usize)
    ensures
        LimitStoreCoords::spec_from_with_max(a, m).spec_coords() == a,
        PartialOrdSpec::partial_cmp_spec(
            &LimitStoreCoords::spec_from_with_max(a, m),
            &LimitStoreCoords::spec_from_with_max(b, m),
        ) == PartialOrdSpec::partial_cmp_spec(&a, &b),
{
    LimitStoreCoords::lemma_from_with_max(a, m);
    LimitStoreCoords::lemma_from_with_max(b, m);
}

} // verus!
