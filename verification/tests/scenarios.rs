use exclusive_range_map::map::ExclusiveRangeMap;
use exclusive_range_map::map::InsertError;

#[test]
fn three_disjoint_ranges_and_point_lookups() {
    let mut m = ExclusiveRangeMap::new();
    assert_eq!(m.insert(0..5, 12), Ok(()));
    assert_eq!(m.insert(6..12, 64), Ok(()));
    assert_eq!(m.insert(14..55, 1), Ok(()));
    assert_eq!(m.len(), 3);
    assert_eq!(m.find(2), Some(&12));
    assert_eq!(m.find(7), Some(&64));
    assert_eq!(m.find(44), Some(&1));
    assert_eq!(m.find(5), None);
    assert_eq!(m.find(12), None);
    assert_eq!(m.find(13), None);
    assert_eq!(m.find(55), None);
}

#[test]
fn adjacent_ranges_accepted_then_overlap_rejected() {
    let mut m = ExclusiveRangeMap::new();
    assert_eq!(m.insert(0..20, 44), Ok(()));
    assert_eq!(m.insert(20..50, 55), Ok(()));
    assert_eq!(m.insert(45..60, 77), Err(InsertError::Overlap));
    assert_eq!(m.len(), 2);
}

#[test]
fn partial_overlap_rejected_then_left_adjacent_accepted() {
    let mut m = ExclusiveRangeMap::new();
    assert_eq!(m.insert(10..20, 1), Ok(()));
    assert_eq!(m.insert(15..25, 2), Err(InsertError::Overlap));
    assert_eq!(m.insert(5..10, 3), Ok(()));
    assert_eq!(m.len(), 2);
}

#[test]
fn find_on_empty_map_returns_nothing() {
    let m = ExclusiveRangeMap::<u8>::new();
    assert_eq!(m.find(0), None);
    assert_eq!(m.find(usize::MAX), None);
}

#[test]
fn empty_range_rejected_with_its_own_kind() {
    let mut m = ExclusiveRangeMap::new();
    assert_eq!(m.insert(7..7, 1), Err(InsertError::EmptyRange));
    assert_eq!(m.insert(9..4, 2), Err(InsertError::EmptyRange));
    assert_eq!(m.len(), 0);
    assert_eq!(m.insert(4..9, 3), Ok(()));
    assert_eq!(m.find(4), Some(&3));
}

#[test]
fn duplicate_and_contained_ranges_rejected() {
    let mut m = ExclusiveRangeMap::new();
    assert_eq!(m.insert(10..20, 5), Ok(()));
    assert_eq!(m.insert(10..20, 6), Err(InsertError::Overlap));
    assert_eq!(m.insert(12..15, 7), Err(InsertError::Overlap));
    assert_eq!(m.insert(5..30, 8), Err(InsertError::Overlap));
    assert_eq!(m.len(), 1);
    assert_eq!(m.find(12), Some(&5));
}
