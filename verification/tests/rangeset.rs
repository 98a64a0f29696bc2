use caramel::rangeset::{Range, RangeSet};

fn ranges_of(rs: &RangeSet) -> Vec<(u64, u64)> {
    let mut v = Vec::new();
    let n = rs.num_ranges();
    let mut i = 0;
    while i < n {
        let r = rs.range_at(i);
        v.push((r.start, r.end));
        i += 1;
    }
    v
}

#[test]
fn insert_keeps_disjoint_ranges_separate() {
    let mut rs = RangeSet::new();
    rs.insert(Range { start: 0, end: 5 });
    rs.insert(Range { start: 7, end: 9 });
    assert_eq!(ranges_of(&rs), vec![(0, 5), (7, 9)]);
}

#[test]
fn insert_coalesces_touching_ranges() {
    // Adjacent free ranges are always merged: no touching-but-unmerged pair
    // survives an insertion.
    let mut rs = RangeSet::new();
    rs.insert(Range { start: 0, end: 5 });
    rs.insert(Range { start: 6, end: 9 });
    assert_eq!(ranges_of(&rs), vec![(0, 9)]);
}

#[test]
fn insert_coalesces_across_gap_filler() {
    let mut rs = RangeSet::new();
    rs.insert(Range { start: 0, end: 3 });
    rs.insert(Range { start: 8, end: 11 });
    rs.insert(Range { start: 2, end: 9 });
    assert_eq!(ranges_of(&rs), vec![(0, 11)]);
}

#[test]
fn insert_is_idempotent() {
    let mut rs = RangeSet::new();
    rs.insert(Range { start: 10, end: 20 });
    rs.insert(Range { start: 10, end: 20 });
    assert_eq!(ranges_of(&rs), vec![(10, 20)]);
}

#[test]
fn remove_splits_a_range() {
    let mut rs = RangeSet::new();
    rs.insert(Range { start: 0, end: 9 });
    rs.remove(Range { start: 3, end: 5 });
    assert_eq!(ranges_of(&rs), vec![(0, 2), (6, 9)]);
}

#[test]
fn remove_trims_edges() {
    let mut rs = RangeSet::new();
    rs.insert(Range { start: 10, end: 30 });
    rs.remove(Range { start: 0, end: 14 });
    rs.remove(Range { start: 25, end: 40 });
    assert_eq!(ranges_of(&rs), vec![(15, 24)]);
}

#[test]
fn allocate_returns_aligned_address() {
    let mut rs = RangeSet::new();
    rs.insert(Range { start: 0x1001, end: 0x2000 });
    let base = rs.allocate(0x10, 0x100).unwrap();
    assert_eq!(base, 0x1100);
    assert_eq!(base % 0x100, 0);
    // The carved block is gone; what is left stays free.
    assert_eq!(ranges_of(&rs), vec![(0x1001, 0x10ff), (0x1110, 0x2000)]);
}

#[test]
fn allocate_first_fit_skips_small_ranges() {
    let mut rs = RangeSet::new();
    rs.insert(Range { start: 0, end: 3 });
    rs.insert(Range { start: 0x100, end: 0x1ff });
    let base = rs.allocate(0x80, 1).unwrap();
    assert_eq!(base, 0x100);
}

#[test]
fn allocate_fails_when_nothing_fits() {
    let mut rs = RangeSet::new();
    rs.insert(Range { start: 0, end: 0xf });
    assert!(rs.allocate(0x20, 1).is_none());
    // A failed allocation leaves the tracker untouched.
    assert_eq!(ranges_of(&rs), vec![(0, 0xf)]);
}

#[test]
fn allocate_zero_size_fails() {
    let mut rs = RangeSet::new();
    rs.insert(Range { start: 0, end: 0xff });
    assert!(rs.allocate(0, 8).is_none());
}

#[test]
fn allocate_exact_fit_empties_range() {
    let mut rs = RangeSet::new();
    rs.insert(Range { start: 0x100, end: 0x1ff });
    let base = rs.allocate(0x100, 1).unwrap();
    assert_eq!(base, 0x100);
    assert_eq!(rs.num_ranges(), 0);
}
