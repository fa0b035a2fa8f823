use hexstore::range::Range;

#[test]
fn range_merge_normal() {
    let mut range1 = Range::new(30, 100);
    let range2 = Range::new(10, 40);

    assert_eq!(range1.merge(range2), true);
    assert_eq!(range1.start, 10);
    assert_eq!(range1.end, 100);

    let range3 = Range::new(90, 140);

    assert_eq!(range1.merge(range3), true);
    assert_eq!(range1.start, 10);
    assert_eq!(range1.end, 140);

    let range4 = Range::new(200, 300);

    assert_eq!(range1.merge(range4), false);
    assert_eq!(range1.start, 10);
    assert_eq!(range1.end, 140);
}

#[test]
fn range_merge_disjoint_is_refused() {
    let mut range = Range::new(0, 3);
    assert_eq!(range.merge(Range::new(4, 7)), false);
    assert_eq!(range, Range::new(0, 3));
    assert_eq!(range.merge(Range::new(3, 7)), true);
    assert_eq!(range, Range::new(0, 7));
}
