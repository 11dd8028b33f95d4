use ets::range_set::RangeSetBuilder;

#[test]
pub fn test_create_empty() {
    let mut rsb = RangeSetBuilder::new();
    let _ = rsb.build();
}

#[test]
pub fn test_add() {
    let mut rsb = RangeSetBuilder::new();

    rsb.add(7);

    let rs = rsb.build();

    assert!(!rs.contains(6));
    assert!(rs.contains(7));
    assert!(!rs.contains(8));
}

#[test]
pub fn test_add_separate() {
    let mut rsb = RangeSetBuilder::new();

    rsb.add(7);
    rsb.add(9);

    let rs = rsb.build();

    assert!(!rs.contains(6));
    assert!(rs.contains(7));
    assert!(!rs.contains(8));
    assert!(rs.contains(9));
    assert!(!rs.contains(10));
}

#[test]
pub fn test_add_together() {
    let mut rsb = RangeSetBuilder::new();

    rsb.add(7);
    rsb.add(8);

    let rs = rsb.build();

    assert!(!rs.contains(6));
    assert!(rs.contains(7));
    assert!(rs.contains(8));
    assert!(!rs.contains(9));
}

#[test]
pub fn test_add_range() {
    let mut rsb = RangeSetBuilder::new();

    rsb.add_range(1..3);

    let rs = rsb.build();

    assert!(!rs.contains(0));
    assert!(rs.contains(1));
    assert!(rs.contains(2));
    assert!(!rs.contains(3));
}

#[test]
pub fn test_add_range_separate() {
    let mut rsb = RangeSetBuilder::new();

    rsb.add_range(1..3);
    rsb.add_range(4..6);

    let rs = rsb.build();

    assert!(!rs.contains(0));
    assert!(rs.contains(1));
    assert!(rs.contains(2));
    assert!(!rs.contains(3));
    assert!(rs.contains(4));
    assert!(rs.contains(5));
    assert!(!rs.contains(6));
}

#[test]
pub fn test_add_range_together() {
    let mut rsb = RangeSetBuilder::new();

    rsb.add_range(1..3);
    rsb.add_range(3..5);

    let rs = rsb.build();

    assert!(!rs.contains(0));
    assert!(rs.contains(1));
    assert!(rs.contains(2));
    assert!(rs.contains(3));
    assert!(rs.contains(4));
    assert!(!rs.contains(5));
}

#[test]
pub fn test_mixed() {
    let mut rsb = RangeSetBuilder::new();

    rsb.add_range(1..3);
    rsb.add(4);

    let rs = rsb.build();

    assert!(!rs.contains(0));
    assert!(rs.contains(1));
    assert!(rs.contains(2));
    assert!(!rs.contains(3));
    assert!(rs.contains(4));
    assert!(!rs.contains(5));
}

#[test]
fn empty_set_contains_nothing() {
    let mut rsb = RangeSetBuilder::new();
    let rs = rsb.build();
    assert!(!rs.contains(0));
    assert!(!rs.contains(1));
    assert!(!rs.contains(usize::MAX));
}

#[test]
fn ranges_added_out_of_order_are_found() {
    let mut rsb = RangeSetBuilder::new();
    rsb.add_range(20..25);
    rsb.add(3);
    rsb.add_range(10..12);
    let rs = rsb.build();
    for n in [3usize, 10, 11, 20, 21, 24] {
        assert!(rs.contains(n), "{} should be in the set", n);
    }
    for n in [0usize, 2, 4, 9, 12, 19, 25, 100] {
        assert!(!rs.contains(n), "{} should not be in the set", n);
    }
}

#[test]
fn overlapping_ranges_are_merged() {
    let mut rsb = RangeSetBuilder::new();
    rsb.add_range(1..5);
    rsb.add_range(3..8);
    rsb.add_range(2..4);
    let rs = rsb.build();
    assert!(!rs.contains(0));
    for n in 1usize..8 {
        assert!(rs.contains(n));
    }
    assert!(!rs.contains(8));
}

#[test]
fn empty_and_inverted_ranges_hold_nothing() {
    let mut rsb = RangeSetBuilder::new();
    rsb.add_range(5..5);
    rsb.add_range(9..6);
    let rs = rsb.build();
    for n in 0usize..12 {
        assert!(!rs.contains(n));
    }
}

#[test]
fn largest_single_value() {
    let mut rsb = RangeSetBuilder::new();
    rsb.add(usize::MAX - 1);
    let rs = rsb.build();
    assert!(rs.contains(usize::MAX - 1));
    assert!(!rs.contains(usize::MAX));
    assert!(!rs.contains(usize::MAX - 2));
}

#[test]
fn build_leaves_the_builder_as_it_was() {
    let mut rsb = RangeSetBuilder::new();
    rsb.add(2);
    let first = rsb.build();
    rsb.add(4);
    let second = rsb.build();
    assert!(first.contains(2));
    assert!(!first.contains(4));
    assert!(second.contains(2));
    assert!(second.contains(4));
}

#[test]
fn chained_adds() {
    let mut rsb = RangeSetBuilder::new();
    rsb.add(1).add(3).add_range(5..7);
    let rs = rsb.build();
    assert!(rs.contains(1));
    assert!(!rs.contains(2));
    assert!(rs.contains(3));
    assert!(rs.contains(5));
    assert!(rs.contains(6));
    assert!(!rs.contains(7));
}
