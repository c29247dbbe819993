use rust_exercises::warehouse::coords::StoreCoords;
use rust_exercises::warehouse::free_map::FreeMap;

#[test]
fn test_persist() {
    let mut map = FreeMap::new(10);
    assert_eq!(map.occupy_single((0, 0, 0).into()), true);
    assert_eq!(map.occupy_single((0, 0, 0).into()), false);
}

#[test]
fn test_persist_range() {
    let mut map = FreeMap::new(10);
    assert_eq!(map.occupy_range((1, 0, 0).into()..=(3, 0, 0).into()), true);
    assert_eq!(map.occupy_range((1, 0, 0).into()..=(2, 0, 0).into()), false);
}

#[test]
fn test_iter_single() {
    let mut map = FreeMap::new(10);
    assert_eq!(map.occupy_single((1, 0, 0).into()), true);

    let mut iter = map.iter().into_iter();

    assert_eq!(iter.next(), Some((0, 0, 0).into()..=(0, 9, 9).into()));
    assert_eq!(iter.next(), Some((1, 0, 1).into()..=(9, 9, 9).into()));
    assert_eq!(iter.next(), None);
}

#[test]
fn test_iter_single_max() {
    let mut map = FreeMap::new(10);
    map.occupy_single((0, 0, 9).into());

    let mut iter = map.iter().into_iter();
    assert_eq!(iter.next(), Some((0, 0, 0).into()..=(0, 0, 8).into()));
    assert_eq!(iter.next(), Some((0, 1, 0).into()..=(9, 9, 9).into()));
    assert_eq!(iter.next(), None);
}

#[test]
fn test_iter_range_max() {
    let mut map = FreeMap::new(10);
    map.occupy_range((0, 0, 5).into()..=(0, 0, 9).into());

    let mut iter = map.iter().into_iter();
    assert_eq!(iter.next(), Some((0, 0, 0).into()..=(0, 0, 4).into()));
    assert_eq!(iter.next(), Some((0, 1, 0).into()..=(9, 9, 9).into()));
    assert_eq!(iter.next(), None)
}

#[test]
fn test_iter_range() {
    let mut map = FreeMap::new(10);
    assert_eq!(map.occupy_range((1, 0, 0).into()..=(1, 9, 9).into()), true);

    let mut iter = map.iter().into_iter();

    assert_eq!(iter.next(), Some((0, 0, 0).into()..=(0, 9, 9).into()));
    assert_eq!(iter.next(), Some((2, 0, 0).into()..=(9, 9, 9).into()));
    assert_eq!(iter.next(), None);
}

#[test]
fn test_free_single() {
    let mut map = FreeMap::new(10);
    assert_eq!(map.occupy_single((1, 0, 0).into()), true);
    assert_eq!(map.free_single((1, 0, 0).into()), true);
}

#[test]
fn free_single_undoes_occupy_single() {
    let mut map = FreeMap::new(4);
    let before = map.iter();
    assert!(map.occupy_single(StoreCoords(2, 1, 3)));
    assert!(map.free_single(StoreCoords(2, 1, 3)));
    assert_eq!(map.iter(), before);
    assert_eq!(map.free_single(StoreCoords(2, 1, 3)), false);
}

#[test]
fn free_range_undoes_occupy_range() {
    let mut map = FreeMap::new(4);
    let before = map.iter();
    assert!(map.occupy_range(StoreCoords(0, 1, 0)..=StoreCoords(0, 2, 3)));
    assert_eq!(map.iter(), vec![StoreCoords(0, 0, 0)..=StoreCoords(0, 0, 3), StoreCoords(0, 3, 0)..=StoreCoords(3, 3, 3)]);
    assert!(map.free_range(StoreCoords(0, 1, 0)..=StoreCoords(0, 2, 3)));
    assert_eq!(map.iter(), before);
}

#[test]
fn iter_from_starts_at_place() {
    let mut map = FreeMap::new(4);
    assert!(map.occupy_single(StoreCoords(1, 0, 0)));
    assert_eq!(map.iter_from(StoreCoords(0, 3, 3)), vec![StoreCoords(0, 0, 0)..=StoreCoords(0, 3, 3), StoreCoords(1, 0, 1)..=StoreCoords(3, 3, 3)]);
    assert_eq!(map.iter_from(StoreCoords(2, 0, 0)), vec![StoreCoords(1, 0, 1)..=StoreCoords(3, 3, 3)]);
}

#[test]
fn reversed_range_is_left_alone() {
    let mut map = FreeMap::new(4);
    assert!(map.occupy_single(StoreCoords(0, 0, 1)));
    assert_eq!(map.occupy_range(StoreCoords(0, 0, 2)..=StoreCoords(0, 0, 0)), false);
    assert_eq!(map.iter().len(), 2);
}
