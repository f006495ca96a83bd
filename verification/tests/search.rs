use b4s::{SearchError, SearchResult, Separator, SortedString};
use std::ops::Range;

fn base_test(needle: &[u8], haystack: &[u8], sep: u8, expected: SearchResult) {
    let sep = Separator::new(sep).unwrap();
    let ss = SortedString::new_checked(haystack, sep).unwrap();
    assert_eq!(ss.binary_search(needle), expected);
}

fn err(start: usize, end: usize) -> SearchResult {
    Err(SearchError(Range { start, end }))
}

fn ok(start: usize, end: usize) -> SearchResult {
    Ok(Range { start, end })
}

const NINE: &[u8] = b"abc,def,ghi,jkl,mno,pqr,stu,vwx,yz";

#[test]
fn test_first_entry_of_nine() {
    base_test(b"abc", NINE, b',', ok(0, 3));
}

#[test]
fn test_second_entry_of_nine() {
    base_test(b"def", NINE, b',', ok(4, 7));
}

#[test]
fn test_middle_entry_of_nine() {
    base_test(b"mno", NINE, b',', ok(16, 19));
}

#[test]
fn test_seventh_entry_of_nine() {
    base_test(b"stu", NINE, b',', ok(24, 27));
}

#[test]
fn test_last_entry_of_nine() {
    base_test(b"yz", NINE, b',', ok(32, 34));
}

#[test]
fn test_remaining_entries_of_nine() {
    base_test(b"ghi", NINE, b',', ok(8, 11));
    base_test(b"jkl", NINE, b',', ok(12, 15));
    base_test(b"pqr", NINE, b',', ok(20, 23));
    base_test(b"vwx", NINE, b',', ok(28, 31));
}

#[test]
fn test_needle_shorter_than_any_haystack_item() {
    base_test(b"mn", b"abc,mno,yz", b',', err(0, 3));
    base_test(b"a", b"abc,def,yz", b',', err(0, 3));
    base_test(b"z", b"abc,def,yz", b',', err(8, 10));
}

#[test]
fn test_needle_longer_than_any_haystack_item() {
    base_test(b"abcd", b"abc,def,yz", b',', err(0, 3));
    base_test(b"xyz", b"abc,def,yz", b',', err(4, 7));
    base_test(b"zyz", b"abc,def,yz", b',', err(8, 10));
}

#[test]
fn test_single_character_haystack() {
    base_test(b"abc", b"a,b,c", b',', err(0, 1));
}

#[test]
fn test_single_character_needle() {
    base_test(b"a", b"a,def,yz", b',', ok(0, 1));
    base_test(b"a", b"abc,def,yz", b',', err(0, 3));
    base_test(b"z", b"abc,def,z", b',', ok(8, 9));
    base_test(b"z", b"abc,def,yz", b',', err(8, 10));
}

#[test]
fn test_single_character_needle_and_haystack() {
    base_test(b"a", b"a,b,c", b',', ok(0, 1));
    base_test(b"c", b"a,b,c", b',', ok(4, 5));
    base_test(b"d", b"a,b,c", b',', err(4, 5));
}

#[test]
fn test_repeated_character_needle() {
    base_test(b"aaa", b"aaa,def,yz", b',', ok(0, 3));
    base_test(b"aaa", b"abc,def,yz", b',', err(0, 3));
    base_test(b"zzz", b"abc,def,zzz", b',', ok(8, 11));
    base_test(b"zzz", b"abc,def,yz", b',', err(8, 10));
}

#[test]
fn test_empty_needle() {
    base_test(b"", b",", b',', ok(0, 0));
    base_test(b"", b",,", b',', ok(1, 1));
    base_test(b"", b"abc", b',', err(0, 3));
}

#[test]
fn test_oddly_shaped_haystack() {
    base_test(b"abc", b"abc", b',', ok(0, 3));
    base_test(b"abc", b"abc,def", b',', ok(0, 3));
    base_test(b"abc", b",", b',', err(0, 0));
    base_test(b"", b",,,,", b',', ok(2, 2));
    base_test(b"abc", b",,,abc", b',', ok(3, 6));
}

#[test]
fn test_switched_characters_needle() {
    base_test(b"nmo", b"abc,mno,yz", b',', err(4, 7));
    base_test(b"cba", b"abc,def,yz", b',', err(0, 3));
}

#[test]
fn test_different_separators() {
    base_test(b"abc", b"abc-def-yz", b'-', ok(0, 3));
    base_test(b"abc", b"abc\0def\0yz", b'\0', ok(0, 3));
    base_test(b"defg", b"abc\0def\0yz", b'\0', err(4, 7));
}

#[test]
fn test_real_world_examples() {
    base_test(b"abc", b"Hund\nKatze\nMaus", b'\n', err(11, 15));
    base_test(b"ABC", b"Hund\nKatze\nMaus", b'\n', err(0, 4));
    base_test(b"Hund", b"Hund\nKatze\nMaus", b'\n', ok(0, 4));
    base_test(b"Katze", b"Hund\nKatze\nMaus", b'\n', ok(5, 10));
    base_test(b"Maus", b"Hund\nKatze\nMaus", b'\n', ok(11, 15));
}

#[test]
fn test_real_world_examples_with_multibyte_characters() {
    base_test("Hündin".as_bytes(), "Hund\nKatze\nMaus".as_bytes(), b'\n', err(5, 10));
    base_test("Hündin".as_bytes(), "Hündin\nKatze\nMaus".as_bytes(), b'\n', ok(0, 7));
    base_test(
        "Mäuschen".as_bytes(),
        "Hündin\nKatze\nMäuschen".as_bytes(),
        b'\n',
        ok(14, 23),
    );
}

#[test]
fn test_real_world_examples_with_common_prefixes() {
    base_test(
        "Abdämpfung".as_bytes(),
        "Abdämpfung\nAbenteuer\nAbschluss".as_bytes(),
        b'\n',
        ok(0, 11),
    );
    base_test(
        "Abdämpfung".as_bytes(),
        "Abdrehen\nAbdämpfung\nAbschluss".as_bytes(),
        b'\n',
        ok(9, 20),
    );
}

#[test]
fn test_multibyte_haystack_with_many_scripts() {
    let haystack = "Apfel|Bäume|Zäune|zäunen|Äpfel|Öfen|ƒoo|مرحبًا|你好|😂".as_bytes();
    base_test("Bäume".as_bytes(), haystack, b'|', ok(6, 12));
}

#[test]
fn test_needle_contains_separator() {
    base_test(b"abc,def", b"abc,def,ghi", b',', err(0, 3));
}

#[test]
fn test_separator_character_inside_entries() {
    // The letter A as the separator: entries are what stands between the As.
    base_test(b"Angel", b"Aachen\nAmpel\nAngel\nApfel\n", b'A', err(0, 0));
    base_test(b"ngel\n", b"Aachen\nAmpel\nAngel\nApfel\n", b'A', ok(14, 19));
}

#[test]
fn test_open_edge_case_empty_needle_after_leading_separator() {
    // Open edge case: the haystack ",a" holds an empty first entry, yet the
    // probe sequence passes over it, so the empty needle is not found. The
    // search stays panic-free and deterministic; this pins the behavior.
    base_test(b"", b",a", b',', err(1, 2));
}

#[test]
fn test_repeated_search_is_deterministic() {
    let sep = Separator::new(b',').unwrap();
    let ss = SortedString::new_checked(b"abc,def,yz", sep).unwrap();
    let first = ss.binary_search(b"absent");
    let second = ss.binary_search(b"absent");
    assert_eq!(first, second);
    assert_eq!(first, err(0, 3));
}

#[test]
fn test_round_trip_all_entries_found() {
    let entries: [&[u8]; 5] = [b"alpha", b"beta", b"delta", b"gamma!", b"zeta"];
    let haystack = entries.join(&[b','][..]);
    let sep = Separator::new(b',').unwrap();
    let ss = SortedString::new_checked(&haystack, sep).unwrap();
    for entry in entries {
        let range = ss.binary_search(entry).unwrap();
        assert_eq!(&haystack[range], entry);
    }
}
