use b4s::{SearchError, Separator, SortedString, SortedStringCreationError};
use std::ops::Range;

fn comma() -> Separator {
    Separator::new(b',').unwrap()
}

#[test]
fn test_checked_construction_succeeds_on_sorted_haystack() {
    let ss = SortedString::new_checked(b"a,b,c", comma());
    assert!(ss.is_ok());
}

#[test]
fn test_unsorted_haystack_is_rejected() {
    for haystack in [
        &b"c,b,a"[..],
        b"a,",
        b"a,b,c,",
        b"a,,",
        b",a,",
        b"Hello,Cruel,World",
    ] {
        let ss = SortedString::new_checked(haystack, comma());
        assert_eq!(ss, Err(SortedStringCreationError::NotSorted));
    }
}

#[test]
fn test_out_of_order_entries_are_rejected() {
    let ss = SortedString::new_checked(b"a,c,b", comma());
    assert_eq!(ss, Err(SortedStringCreationError::NotSorted));
}

#[test]
fn test_trailing_separator_is_rejected() {
    // A trailing newline puts an empty entry last, contradicting sorting.
    let sep = Separator::new(b'\n').unwrap();
    let ss = SortedString::new_checked(b"Aachen\nAmpel\nAngel\nApfel\n", sep);
    assert_eq!(ss, Err(SortedStringCreationError::NotSorted));
}

#[test]
fn test_empty_haystack_is_rejected() {
    for sep in [b',', b'-', b'\0'] {
        let sep = Separator::new(sep).unwrap();
        let ss = SortedString::new_checked(b"", sep);
        assert_eq!(ss, Err(SortedStringCreationError::EmptyHaystack));
    }
}

#[test]
fn test_separator_guard_accepts_single_byte_values() {
    assert!(Separator::new(0).is_some());
    assert!(Separator::new(b',').is_some());
    assert!(Separator::new(127).is_some());
}

#[test]
fn test_separator_guard_rejects_multibyte_values() {
    // Bytes with the high bit set occur inside multi-byte encodings.
    assert!(Separator::new(128).is_none());
    assert!(Separator::new(0xC3).is_none());
    assert!(Separator::new(255).is_none());
}

#[test]
fn test_separator_reports_its_byte() {
    assert_eq!(comma().as_byte(), b',');
}

#[test]
fn test_unchecked_construction_on_unsorted_haystack_searches_wrongly() {
    // Unable to find an element present in the unsorted haystack: wrong
    // results, not a crash.
    let ss = SortedString::new_unchecked(b"a,c,b", comma());
    assert_eq!(
        ss.binary_search(b"b"),
        Err(SearchError(Range { start: 0, end: 1 }))
    );
}
