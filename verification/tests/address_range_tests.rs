use hexstore::address_range::AddressRange;

#[test]
fn address_range_merge_normal() {
    let mut range1 = AddressRange::new(30, 100);
    let range2 = AddressRange::new(10, 40);

    assert_eq!(range1.merge(range2), true);
    assert_eq!(range1.start, 10);
    assert_eq!(range1.end, 100);

    let range3 = AddressRange::new(90, 140);

    assert_eq!(range1.merge(range3), true);
    assert_eq!(range1.start, 10);
    assert_eq!(range1.end, 140);

    let range4 = AddressRange::new(200, 300);

    assert_eq!(range1.merge(range4), false);
    assert_eq!(range1.start, 10);
    assert_eq!(range1.end, 140);
}

#[test]
fn address_range_merge_on_touch() {
    let mut range = AddressRange::new(0, 4);
    assert_eq!(range.merge(AddressRange::new(4, 8)), true);
    assert_eq!(range, AddressRange::new(0, 8));
    assert_eq!(range.merge(AddressRange::new(9, 12)), false);
    assert_eq!(range, AddressRange::new(0, 8));
}

#[test]
fn address_range_merge_below_is_refused() {
    let mut range = AddressRange::new(200, 300);
    assert_eq!(range.merge(AddressRange::new(10, 140)), false);
    assert_eq!(range, AddressRange::new(200, 300));
    assert_eq!(range.overlaps(&AddressRange::new(300, 301)), true);
    assert_eq!(range.overlaps(&AddressRange::new(301, 302)), false);
}
