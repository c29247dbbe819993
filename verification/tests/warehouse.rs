use rust_exercises::warehouse::allocators::{
    WarehouseAllocatorClosestFirst, WarehouseAllocatorClosestFirstEfficient, WarehouseAllocatorRoundRobin,
    WarehouseAllocatorRoundRobinEfficient,
};
use rust_exercises::warehouse::coords::{LimitStoreCoords, StoreCoords};
use rust_exercises::warehouse::free_map::FreeMap;
use rust_exercises::warehouse::product::{AnyOldProduct, ModificationError, Product, ProductCategory};
use rust_exercises::warehouse::storage::{DateBound, Warehouse, WarehouseEntry, ZoneLabel};

fn product(id: i64, name: &str, quality: ProductCategory) -> AnyOldProduct {
    AnyOldProduct::new(id, name.to_string(), 1, quality)
}

#[test]
fn add_then_find_by_name_and_id() {
    let mut w: Warehouse<AnyOldProduct> = Warehouse::new(3);
    let mut a = WarehouseAllocatorClosestFirst;
    assert_eq!(w.add_product(product(7, "milk", ProductCategory::Normal), &mut a), Ok(()));
    assert_eq!(w.add_product(product(8, "milk", ProductCategory::Normal), &mut a), Ok(()));
    assert_eq!(w.search_by_name("milk"), Some(&vec![StoreCoords(0, 0, 0), StoreCoords(0, 0, 1)]));
    assert_eq!(w.search_by_id(&8), Some(&vec![StoreCoords(0, 0, 1)]));
    assert_eq!(w.search_by_id(&9), None);
    assert!(w.get_product_ref(&StoreCoords(0, 0, 1)).is_some());
    assert_eq!(*w.get_product_ref(&StoreCoords(0, 0, 1)).expect_ref("stored").identifier(), 8);
}

#[test]
fn remove_undoes_add() {
    let mut w: Warehouse<AnyOldProduct> = Warehouse::new(3);
    let mut a = WarehouseAllocatorClosestFirst;
    let before = w.free_map().iter();
    assert_eq!(w.add_product(product(1, "crate", ProductCategory::Oversized { zone_count: 1 }), &mut a), Ok(()));
    assert!(matches!(w.get_product_ref(&StoreCoords(0, 0, 1)), WarehouseEntry::OversizedPlaceholder));
    assert_eq!(w.remove_product(StoreCoords(0, 0, 1)), Err(ModificationError::Placeholder));
    assert_eq!(w.remove_product(StoreCoords(0, 0, 0)), Ok(()));
    assert_eq!(w.free_map().iter(), before);
    assert_eq!(w.search_by_name("crate"), None);
    assert_eq!(w.search_by_id(&1), None);
    assert!(w.get_product_ref(&StoreCoords(0, 0, 1)).is_none());
    assert_eq!(w.remove_product(StoreCoords(0, 0, 0)), Err(ModificationError::NotFound));
}

#[test]
fn fragile_and_oversized_refusals() {
    let mut w: Warehouse<AnyOldProduct> = Warehouse::new(3);
    let mut a = WarehouseAllocatorClosestFirst;
    assert_eq!(
        w.add_product(product(2, "vase", ProductCategory::Oversized { zone_count: 3 }), &mut a),
        Err(ModificationError::Full)
    );
    assert_eq!(
        w.add_product_at(product(2, "vase", ProductCategory::Oversized { zone_count: 3 }), Some(StoreCoords(0, 0, 0))),
        Err(ModificationError::TooBig)
    );
    assert_eq!(w.add_product_at(product(3, "egg", ProductCategory::Fragile { expiry_date: 100, max_row: 0 }), Some(StoreCoords(1, 0, 0))), Err(ModificationError::Fragile));
    assert_eq!(w.add_product_at(product(3, "egg", ProductCategory::Normal), None), Err(ModificationError::Full));
    assert_eq!(w.add_product_at(product(3, "egg", ProductCategory::Normal), Some(StoreCoords(1, 0, 0))), Ok(()));
    assert_eq!(w.add_product_at(product(4, "jam", ProductCategory::Normal), Some(StoreCoords(1, 0, 0))), Err(ModificationError::Occupied));
}

#[test]
fn expiry_dates_are_searched_by_bounds() {
    let mut w: Warehouse<AnyOldProduct> = Warehouse::new(3);
    let mut a = WarehouseAllocatorClosestFirstEfficient;
    assert_eq!(w.add_product(product(1, "a", ProductCategory::Fragile { expiry_date: 10, max_row: 2 }), &mut a), Ok(()));
    assert_eq!(w.add_product(product(2, "b", ProductCategory::Fragile { expiry_date: 20, max_row: 2 }), &mut a), Ok(()));
    assert_eq!(w.add_product(product(3, "c", ProductCategory::Normal), &mut a), Ok(()));
    let all = w.search_expiry_dates(DateBound::Unbounded, DateBound::Unbounded);
    assert_eq!(all.len(), 2);
    let before = w.search_expiry_dates(DateBound::Unbounded, DateBound::Excluded(20));
    assert_eq!(before, vec![(&10, &vec![1i64])]);
    let window = w.search_expiry_dates(DateBound::Included(20), DateBound::Included(23));
    assert_eq!(window, vec![(&20, &vec![2i64])]);
}

#[test]
fn list_by_name_is_sorted() {
    let mut w: Warehouse<AnyOldProduct> = Warehouse::new(3);
    let mut a = WarehouseAllocatorRoundRobin::new();
    assert_eq!(w.add_product(product(1, "pear", ProductCategory::Normal), &mut a), Ok(()));
    assert_eq!(w.add_product(product(2, "apple", ProductCategory::Normal), &mut a), Ok(()));
    let names: Vec<String> = w.list_by_name().into_iter().map(|(n, _)| n.clone()).collect();
    assert_eq!(names, vec!["apple".to_string(), "pear".to_string()]);
}

#[test]
fn round_robin_efficient_moves_on() {
    let mut w: Warehouse<AnyOldProduct> = Warehouse::new(3);
    let mut a = WarehouseAllocatorRoundRobinEfficient::new();
    assert_eq!(w.add_product(product(1, "x", ProductCategory::Normal), &mut a), Ok(()));
    assert_eq!(w.add_product(product(2, "y", ProductCategory::Normal), &mut a), Ok(()));
    assert_eq!(w.search_by_id(&1).map(|v| v.len()), Some(1));
    assert_eq!(w.search_by_id(&2).map(|v| v.len()), Some(1));
    assert_ne!(w.search_by_id(&1), w.search_by_id(&2));
}

#[test]
fn zone_labels_show_a_shelf() {
    let mut w: Warehouse<AnyOldProduct> = Warehouse::new(3);
    assert_eq!(w.add_product_at(product(1, "rug", ProductCategory::Oversized { zone_count: 1 }), Some(StoreCoords(0, 0, 0))), Ok(()));
    let labels = w.zone_labels(0, 0);
    assert_eq!(labels.len(), 3);
    assert!(matches!(&labels[0], ZoneLabel::Product(n) if n == "rug"));
    assert!(matches!(labels[1], ZoneLabel::Oversized));
    assert!(matches!(labels[2], ZoneLabel::Empty));
}

#[test]
fn coords_step_and_limit() {
    assert_eq!(StoreCoords(0, 0, 2).next(3), Some(StoreCoords(0, 1, 0)));
    assert_eq!(StoreCoords(2, 2, 2).next(3), None);
    assert_eq!(StoreCoords(1, 0, 0).previous(3), Some(StoreCoords(0, 2, 2)));
    assert_eq!(StoreCoords(0, 0, 0).previous(3), None);
    let l = LimitStoreCoords::from_with_max(StoreCoords(2, 2, 2), 3);
    assert_eq!(l.add_one().coords(), StoreCoords(3, 3, 3));
    let l = LimitStoreCoords::from_with_max(StoreCoords(0, 0, 0), 3);
    assert_eq!(l.sub_one().coords(), StoreCoords(3, 3, 3));
    assert_eq!(LimitStoreCoords::from_with_max(StoreCoords(0, 1, 2), 3).add_one().coords(), StoreCoords(0, 2, 0));
    assert_eq!(StoreCoords::parse(" 1 2 3 "), Ok(StoreCoords(1, 2, 3)));
    assert_eq!("4 5 6".parse::<StoreCoords>(), Ok(StoreCoords(4, 5, 6)));
    assert_eq!(StoreCoords::parse("1 2"), Err(()));
}

#[test]
fn placement_safety_and_allocator_answers() {
    let w: Warehouse<AnyOldProduct> = Warehouse::new(3);
    let p = product(1, "x", ProductCategory::Normal);
    assert!(w.placement_is_safe(&p, &None));
    assert!(w.placement_is_safe(&p, &Some(StoreCoords(2, 2, 2))));
    assert!(!w.placement_is_safe(&p, &Some(StoreCoords(3, 0, 0))));
    let big = product(2, "y", ProductCategory::Oversized { zone_count: 2 });
    assert!(!w.placement_is_safe(&big, &Some(StoreCoords(0, 0, 1))));
    assert!(w.placement_is_safe(&big, &Some(StoreCoords(0, 0, 0))));
    let high = product(3, "z", ProductCategory::Fragile { expiry_date: 1, max_row: 0 });
    assert!(w.placement_is_safe(&high, &Some(StoreCoords(9, 9, 9))));
    let a = WarehouseAllocatorClosestFirstEfficient;
    assert!(a.proceeds(&w, &p));
    assert!(a.proceeds(&w, &high));
}

#[test]
fn products_and_categories_read() {
    assert_eq!(ProductCategory::Normal.describe(), "Normal");
    assert_eq!(ProductCategory::Oversized { zone_count: 3 }.describe(), "Oversized - Occupies 3 zones");
    let fragile = ProductCategory::Fragile { expiry_date: 2451545, max_row: 12 };
    assert!(fragile.describable());
    assert_eq!(fragile.describe(), "Fragile - Expires 2000-01-01, cannot be located above row 12");
    assert!(!ProductCategory::Fragile { expiry_date: i32::MAX, max_row: 0 }.describable());
    let p = AnyOldProduct::new(-42, "milk".to_string(), 7, ProductCategory::Normal);
    let text = p.describe();
    assert!(text.starts_with("Product ID -42:\n\tName: milk\n\tAmount: 7\n\tQuality: Normal\n\tEntered the warehouse at: "));
    assert!(text.len() > "Product ID -42:\n\tName: milk\n\tAmount: 7\n\tQuality: Normal\n\tEntered the warehouse at: ".len());
}

#[test]
fn round_robin_efficient_records_each_proposal() {
    let mut w: Warehouse<AnyOldProduct> = Warehouse::new(3);
    let mut a = WarehouseAllocatorRoundRobinEfficient::new();
    assert_eq!(w.add_product(product(1, "x", ProductCategory::Normal), &mut a), Ok(()));
    assert_eq!(w.add_product(product(2, "y", ProductCategory::Normal), &mut a), Ok(()));
    assert_eq!(w.add_product(product(3, "z", ProductCategory::Normal), &mut a), Ok(()));
    // The first search starts after (0, 0, 0) but takes the start of the
    // run that reaches there; each later one starts after the place recorded.
    assert_eq!(w.search_by_id(&1), Some(&vec![StoreCoords(0, 0, 0)]));
    assert_eq!(w.search_by_id(&2), Some(&vec![StoreCoords(0, 0, 1)]));
    assert_eq!(w.search_by_id(&3), Some(&vec![StoreCoords(0, 0, 2)]));
}

#[test]
fn freeing_restores_the_runs() {
    let mut m = FreeMap::new(3);
    assert!(m.occupy_single(StoreCoords(0, 0, 0)));
    let before = m.iter();
    assert!(m.occupy_single(StoreCoords(1, 1, 1)));
    assert_ne!(m.iter(), before);
    assert!(m.free_single(StoreCoords(1, 1, 1)));
    assert_eq!(m.iter(), before);
}

#[test]
fn store_from_placements() {
    let ps = vec![
        (StoreCoords(0, 0, 0), product(1, "rug", ProductCategory::Oversized { zone_count: 1 })),
        (StoreCoords(1, 2, 0), product(2, "egg", ProductCategory::Fragile { expiry_date: 10, max_row: 1 })),
    ];
    let w: Warehouse<AnyOldProduct> = Warehouse::from_placements(3, ps).ok().unwrap();
    assert!(matches!(w.get_product_ref(&StoreCoords(0, 0, 1)), WarehouseEntry::OversizedPlaceholder));
    assert_eq!(w.search_by_id(&2), Some(&vec![StoreCoords(1, 2, 0)]));
    assert_eq!(w.search_expiry_dates(DateBound::Unbounded, DateBound::Unbounded).len(), 1);

    let clash = vec![
        (StoreCoords(0, 0, 0), product(1, "rug", ProductCategory::Oversized { zone_count: 1 })),
        (StoreCoords(0, 0, 1), product(2, "jam", ProductCategory::Normal)),
    ];
    assert!(Warehouse::from_placements(3, clash).is_err());
    let outside = vec![(StoreCoords(3, 0, 0), product(1, "x", ProductCategory::Normal))];
    assert!(Warehouse::<AnyOldProduct>::from_placements(3, outside).is_err());
    let too_high = vec![(StoreCoords(2, 0, 0), product(1, "x", ProductCategory::Fragile { expiry_date: 1, max_row: 1 }))];
    assert!(Warehouse::<AnyOldProduct>::from_placements(3, too_high).is_err());
    assert!(Warehouse::<AnyOldProduct>::from_placements(0, vec![]).is_err());
    assert!(Warehouse::<AnyOldProduct>::from_placements(2642246, vec![]).is_err());
}

#[test]
fn product_reads_with_its_entry_time() {
    let p = AnyOldProduct::with_timestamp(5, "tea".to_string(), 2, ProductCategory::Normal, 1_546_300_800_000_000_000);
    assert_eq!(
        p.describe(),
        "Product ID 5:\n\tName: tea\n\tAmount: 2\n\tQuality: Normal\n\tEntered the warehouse at: 2019-01-01 0:00:00.0 +00"
    );
    let q = AnyOldProduct::with_timestamp(6, "jam".to_string(), 1, ProductCategory::Normal, 3_723_500_000_000);
    assert_eq!(
        q.describe(),
        "Product ID 6:\n\tName: jam\n\tAmount: 1\n\tQuality: Normal\n\tEntered the warehouse at: 1970-01-01 1:02:03.5 +00"
    );
    assert_eq!(q.timestamp(), 3_723_500_000_000);
}

#[test]
fn default_product_entered_at_the_earliest_time() {
    let p = AnyOldProduct::default();
    assert_eq!(p.timestamp(), time::UtcDateTime::MIN.unix_timestamp_nanos());
    assert_eq!(time::UtcDateTime::MAX.unix_timestamp_nanos(), 253_402_300_799_999_999_999);
    assert!(p.describe().ends_with("Entered the warehouse at: -9999-01-01 0:00:00.0 +00"));
}

#[test]
fn limited_coords_keep_the_order_of_places() {
    let a = StoreCoords(0, 1, 2);
    let b = StoreCoords(1, 0, 0);
    assert!(a < b);
    assert!(LimitStoreCoords::from_with_max(a.clone(), 3) < LimitStoreCoords::from_with_max(b.clone(), 3));
    assert!(!(LimitStoreCoords::from_with_max(b.clone(), 3) <= LimitStoreCoords::from_with_max(a.clone(), 3)));
    assert!(LimitStoreCoords::from_with_max(a.clone(), 3) == LimitStoreCoords::from_with_max(a.clone(), 3));
    assert_eq!(
        LimitStoreCoords::from_with_max(StoreCoords(0, 0, 5), 3).partial_cmp(&LimitStoreCoords::from_with_max(StoreCoords(0, 1, 0), 3)),
        Some(std::cmp::Ordering::Less)
    );
    assert!(LimitStoreCoords::from_with_max(a.clone(), 2) < LimitStoreCoords::from_with_max(a.clone(), 3));
    assert_eq!(StoreCoords::from(&LimitStoreCoords::from_with_max(a.clone(), 3)), a);
}

#[test]
fn dates_and_times_read_as_time_shows_them() {
    let early = ProductCategory::Fragile { expiry_date: 0, max_row: 1 };
    assert_eq!(early.describe(), "Fragile - Expires -4713-11-24, cannot be located above row 1");
    let late = ProductCategory::Fragile { expiry_date: 5373484, max_row: 0 };
    assert_eq!(late.describe(), "Fragile - Expires 9999-12-31, cannot be located above row 0");
    let before_epoch = AnyOldProduct::with_timestamp(1, "a".to_string(), 0, ProductCategory::Normal, -1);
    assert!(before_epoch.describe().ends_with("at: 1969-12-31 23:59:59.999999999 +00"));
    let fraction = AnyOldProduct::with_timestamp(1, "a".to_string(), 0, ProductCategory::Normal, 45_296_120_000_000);
    assert!(fraction.describe().ends_with("at: 1970-01-01 12:34:56.12 +00"));
}
