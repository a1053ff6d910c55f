use std::cmp::Ordering;

use bentoo::truth::Region;

fn region(start_line: i64, end_line: Option<i64>, start_column: Option<i64>, end_column: Option<i64>) -> Region {
    Region { start_line, end_line, start_column, end_column }
}

#[test]
fn whole_line_covers_columns() {
    // A whole line 5 is Greater than (covers) columns 3-3 of line 5.
    let whole = region(5, None, None, None);
    let narrow = region(5, None, Some(3), Some(3));
    assert_eq!(whole.partial_cmp(&narrow), Some(Ordering::Greater));
    assert_eq!(narrow.partial_cmp(&whole), Some(Ordering::Less));
}

#[test]
fn disjoint_line_ranges_are_incomparable() {
    let a = region(1, Some(2), None, None);
    let b = region(10, Some(11), None, None);
    assert_eq!(a.partial_cmp(&b), None);
    assert_eq!(b.partial_cmp(&a), None);
}

#[test]
fn equal_regions() {
    let a = region(5, Some(7), Some(2), Some(9));
    assert_eq!(a.partial_cmp(&a), Some(Ordering::Equal));
}

#[test]
fn start_column_one_is_unspecified() {
    // An explicit start column of 1 means the same as no start column.
    let explicit = region(5, None, Some(1), None);
    let implicit = region(5, None, None, None);
    assert_eq!(explicit.partial_cmp(&implicit), Some(Ordering::Equal));
    assert_eq!(implicit.partial_cmp(&explicit), Some(Ordering::Equal));
}

#[test]
fn missing_end_line_means_single_line() {
    let single = region(5, None, None, None);
    let spelled = region(5, Some(5), None, None);
    assert_eq!(single.partial_cmp(&spelled), Some(Ordering::Equal));
}

#[test]
fn nested_line_ranges() {
    let outer = region(1, Some(10), None, None);
    let inner = region(3, Some(4), None, None);
    assert_eq!(outer.partial_cmp(&inner), Some(Ordering::Greater));
    assert_eq!(inner.partial_cmp(&outer), Some(Ordering::Less));
}

#[test]
fn partial_line_overlap_is_incomparable() {
    let a = region(1, Some(5), None, None);
    let b = region(3, Some(8), None, None);
    assert_eq!(a.partial_cmp(&b), None);
    assert_eq!(b.partial_cmp(&a), None);
}

#[test]
fn column_overlap_on_one_line_is_incomparable() {
    let a = region(5, None, Some(1), Some(4));
    let b = region(5, None, Some(2), Some(9));
    assert_eq!(a.partial_cmp(&b), None);
}

#[test]
fn missing_end_column_is_widest() {
    let open_ended = region(5, None, Some(2), None);
    let bounded = region(5, None, Some(2), Some(40));
    assert_eq!(open_ended.partial_cmp(&bounded), Some(Ordering::Greater));
    assert_eq!(bounded.partial_cmp(&open_ended), Some(Ordering::Less));
}

#[test]
fn transitivity_on_concrete_regions() {
    let small = region(5, None, Some(3), Some(4));
    let mid = region(5, None, Some(2), Some(6));
    let large = region(4, Some(6), None, None);
    assert_eq!(small.partial_cmp(&mid), Some(Ordering::Less));
    assert_eq!(mid.partial_cmp(&large), Some(Ordering::Less));
    assert_eq!(small.partial_cmp(&large), Some(Ordering::Less));
}
