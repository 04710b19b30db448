use exclusive_range_map::map::ExclusiveRangeMap;
use exclusive_range_map::map::InsertError;

#[test]
fn disjointness_every_point_has_one_value() {
    let mut m = ExclusiveRangeMap::new();
    assert_eq!(m.insert(0..3, 'a'), Ok(()));
    assert_eq!(m.insert(3..6, 'b'), Ok(()));
    assert_eq!(m.insert(8..10, 'c'), Ok(()));
    for p in 0..12usize {
        let expected = if p < 3 {
            Some(&'a')
        } else if p < 6 {
            Some(&'b')
        } else if (8..10).contains(&p) {
            Some(&'c')
        } else {
            None
        };
        assert_eq!(m.find(p), expected);
    }
}

#[test]
fn rejected_insert_leaves_map_unchanged() {
    let mut m = ExclusiveRangeMap::new();
    assert_eq!(m.insert(10..20, 1), Ok(()));
    assert_eq!(m.insert(30..40, 2), Ok(()));
    assert_eq!(m.insert(50..60, 3), Ok(()));
    let before: Vec<Option<u32>> = (0..70).map(|p| m.find(p).copied()).collect();
    // the descent must pass several nodes before it hits the conflict
    assert_eq!(m.insert(15..35, 9), Err(InsertError::Overlap));
    assert_eq!(m.len(), 3);
    let after: Vec<Option<u32>> = (0..70).map(|p| m.find(p).copied()).collect();
    assert_eq!(before, after);
}

#[test]
fn size_counts_successful_inserts_only() {
    let mut m = ExclusiveRangeMap::new();
    let mut successes = 0usize;
    let attempts = [
        (0usize, 10usize),
        (5, 15),
        (10, 20),
        (20, 20),
        (20, 30),
        (25, 35),
        (40, 50),
    ];
    for (i, &(a, b)) in attempts.iter().enumerate() {
        if m.insert(a..b, i).is_ok() {
            successes += 1;
        }
    }
    assert_eq!(m.len(), successes);
    assert_eq!(m.len(), 4);
}

#[test]
fn lookup_correct_over_many_ascending_inserts() {
    // ascending insertion is the worst case for an unbalanced tree; the
    // fixup keeps every one of these descents cheap and correct
    let mut m = ExclusiveRangeMap::new();
    for i in 0..500usize {
        assert_eq!(m.insert((4 * i)..(4 * i + 3), i), Ok(()));
    }
    assert_eq!(m.len(), 500);
    for i in 0..500usize {
        assert_eq!(m.find(4 * i), Some(&i));
        assert_eq!(m.find(4 * i + 2), Some(&i));
        assert_eq!(m.find(4 * i + 3), None);
    }
}

#[test]
fn lookup_correct_over_many_descending_and_interleaved_inserts() {
    let mut m = ExclusiveRangeMap::new();
    for i in (0..200usize).rev() {
        assert_eq!(m.insert((10 * i)..(10 * i + 5), i), Ok(()));
    }
    for i in 0..200usize {
        assert_eq!(m.insert((10 * i + 5)..(10 * i + 7), 1000 + i), Ok(()));
    }
    assert_eq!(m.len(), 400);
    for i in 0..200usize {
        assert_eq!(m.find(10 * i + 4), Some(&i));
        assert_eq!(m.find(10 * i + 6), Some(&(1000 + i)));
        assert_eq!(m.find(10 * i + 8), None);
    }
}

#[test]
fn extreme_key_space_boundaries() {
    let mut m = ExclusiveRangeMap::new();
    assert_eq!(m.insert(0..1, 'l'), Ok(()));
    assert_eq!(m.insert((usize::MAX - 1)..usize::MAX, 'h'), Ok(()));
    assert_eq!(m.find(0), Some(&'l'));
    assert_eq!(m.find(usize::MAX - 1), Some(&'h'));
    assert_eq!(m.find(usize::MAX), None);
    assert_eq!(m.find(1), None);
}
