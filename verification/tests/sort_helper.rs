use b4s::{Separator, SortedString};
use std::ops::Range;

fn comma() -> Separator {
    Separator::new(b',').unwrap()
}

#[test]
fn test_sort_reorders_entries() {
    let sep = Separator::new(b'\n').unwrap();
    let sorted = SortedString::sort(b"c\nb\na", sep);
    assert_eq!(sorted, b"a\nb\nc");
}

#[test]
fn test_sorted_output_passes_checked_construction() {
    let sep = Separator::new(b'\n').unwrap();
    let sorted = SortedString::sort(b"c\nb\na", sep);
    let ss = SortedString::new_checked(&sorted, sep).unwrap();
    assert_eq!(
        ss.binary_search(b"c"),
        Ok(Range { start: 4, end: 5 })
    );
}

#[test]
fn test_sort_keeps_duplicates() {
    let sorted = SortedString::sort(b"b,a,b,a", comma());
    assert_eq!(sorted, b"a,a,b,b");
}

#[test]
fn test_sort_of_sorted_input_is_unchanged() {
    let sorted = SortedString::sort(b"a,b,c", comma());
    assert_eq!(sorted, b"a,b,c");
}

#[test]
fn test_sort_is_idempotent() {
    for haystack in [&b"c,b,a"[..], b"zz,a,mm,a,", b",x,", b"single"] {
        let once = SortedString::sort(haystack, comma());
        let twice = SortedString::sort(&once, comma());
        assert_eq!(twice, once);
    }
}

#[test]
fn test_sort_of_empty_haystack_is_empty() {
    let sorted = SortedString::sort(b"", comma());
    assert_eq!(sorted, b"");
}

#[test]
fn test_sort_moves_empty_entries_first() {
    let sorted = SortedString::sort(b"b,,a", comma());
    assert_eq!(sorted, b",a,b");
}
