//! Soundness and completeness of the search model: what a returned span
//! means, and when success is owed.

use vstd::prelude::*;

use crate::model::end_of;
use crate::model::entries;
use crate::model::free_of;
use crate::model::lemma_end_of;
use crate::model::lemma_end_of_reaches;
use crate::model::lemma_entries_from_free;
use crate::model::lemma_entry_has_probe;
use crate::model::lemma_probe;
use crate::model::lemma_sep_count_monotone;
use crate::model::lemma_start_of;
use crate::model::lemma_start_of_reaches;
use crate::model::probed;
use crate::model::sep_count;
use crate::model::sorted;
use crate::model::start_of;
use crate::order::lemma_lex_le_trans;
use crate::order::lemma_lex_trichotomy;
use crate::order::lex_le;
use crate::order::lex_lt;
use crate::spec_search;
use crate::spec_search_from;

verus! {

/// Soundness of the search model: a successful result is the span of a probed
/// entry whose bytes equal the needle, and a failure span is either the
/// initial carried span or the span of a probed entry that did not match.
pub proof fn lemma_search_sound(
    h: Seq<u8>,
    sep: u8,
    needle: Seq<u8>,
    low: int,
    high: int,
    start: int,
    end: int,
)
    requires
        0 <= low <= high <= h.len(),
    ensures
        spec_search_from(h, sep, needle, low, high, start, end) matches Ok(p) ==> exists|q: int|
            0 <= q < h.len() && p.0 == start_of(h, sep, q) && p.1 == end_of(h, sep, q)
                && #[trigger] probed(h, sep, q) == needle,
        spec_search_from(h, sep, needle, low, high, start, end) matches Err(p) ==> ((p.0 == start
            && p.1 == end) || exists|q: int|
            0 <= q < h.len() && p.0 == start_of(h, sep, q) && p.1 == end_of(h, sep, q)
                && #[trigger] probed(h, sep, q) != needle),
    decreases high - low,
{
    if low < high {
        let mid = low + (high - low) / 2;
        let s = start_of(h, sep, mid);
        let e = end_of(h, sep, mid);
        let entry = h.subrange(s, e);
        assert(probed(h, sep, mid) == entry);
        lemma_lex_trichotomy(needle, entry);
        if lex_lt(needle, entry) {
            let nhigh = if mid == 0 {
                0
            } else {
                mid - 1
            };
            if low < nhigh {
                lemma_search_sound(h, sep, needle, low, nhigh, s, e);
            }
        } else if needle == entry {
        } else {
            lemma_search_sound(h, sep, needle, mid + 1, high, s, e);
        }
    }
}

/// Bridges sortedness of the entry sequence to probe positions: probing a
/// later position never examines a lexicographically smaller entry.
pub proof fn lemma_sorted_positions(h: Seq<u8>, sep: u8)
    requires
        sorted(entries(h, sep)),
    ensures
        forall|p: int, q: int|
            0 <= p <= q < h.len() ==> lex_le(
                #[trigger] probed(h, sep, p),
                #[trigger] probed(h, sep, q),
            ),
{
    assert forall|p: int, q: int| 0 <= p <= q < h.len() implies lex_le(
        #[trigger] probed(h, sep, p),
        #[trigger] probed(h, sep, q),
    ) by {
        lemma_probe(h, sep, p);
        lemma_probe(h, sep, q);
        lemma_sep_count_monotone(h, sep, p, q);
        assert(lex_le(
            entries(h, sep)[sep_count(h, sep, p)],
            entries(h, sep)[sep_count(h, sep, q)],
        ));
    }
}

/// Completeness of the search model over any window that still holds a probe
/// position examining an entry equal to the needle, provided nothing below
/// the window matches and the needle is non-empty.
pub proof fn lemma_search_complete(
    h: Seq<u8>,
    sep: u8,
    needle: Seq<u8>,
    low: int,
    high: int,
    start: int,
    end: int,
)
    requires
        0 <= low <= high <= h.len(),
        needle.len() > 0,
        forall|p: int, q: int|
            0 <= p <= q < h.len() ==> lex_le(
                #[trigger] probed(h, sep, p),
                #[trigger] probed(h, sep, q),
            ),
        forall|p: int| 0 <= p < low ==> #[trigger] probed(h, sep, p) != needle,
        exists|p: int| low <= p < high && #[trigger] probed(h, sep, p) == needle,
    ensures
        spec_search_from(h, sep, needle, low, high, start, end) is Ok,
    decreases high - low,
{
    let p0 = choose|p: int| low <= p < high && #[trigger] probed(h, sep, p) == needle;
    assert(low < high);
    let mid = low + (high - low) / 2;
    let s = start_of(h, sep, mid);
    let e = end_of(h, sep, mid);
    let entry = h.subrange(s, e);
    lemma_start_of(h, sep, mid);
    lemma_end_of(h, sep, mid);
    lemma_lex_trichotomy(needle, entry);
    assert(probed(h, sep, mid) == entry);
    if needle == entry {
    } else if lex_lt(needle, entry) {
        assert(p0 < mid) by {
            if p0 >= mid {
                assert(lex_le(probed(h, sep, mid), probed(h, sep, p0)));
            }
        }
        assert(p0 < s) by {
            if p0 >= s {
                lemma_start_of_reaches(h, sep, s, p0);
                lemma_end_of_reaches(h, sep, p0, e);
                assert(probed(h, sep, p0) == entry);
            }
        }
        assert(mid > 0);
        let nhigh = mid - 1;
        if p0 < nhigh {
            assert(low <= p0 < nhigh && probed(h, sep, p0) == needle);
        } else {
            assert(p0 == mid - 1 && p0 == s - 1 && mid == s);
            assert(h[s - 1] == sep);
            assert(end_of(h, sep, s - 1) == s - 1);
            let s2 = start_of(h, sep, s - 1);
            lemma_start_of(h, sep, s - 1);
            assert(h.subrange(s2, s - 1) == needle);
            assert(s2 <= s - 2);
            lemma_start_of_reaches(h, sep, s2, s - 2);
            lemma_end_of_reaches(h, sep, s - 2, s - 1);
            assert(probed(h, sep, s - 2) == needle);
            assert(s - 2 >= low);
            assert(low <= s - 2 < nhigh && probed(h, sep, s - 2) == needle);
        }
        assert(low < nhigh);
        lemma_search_complete(h, sep, needle, low, nhigh, s, e);
    } else {
        assert forall|p: int| 0 <= p < mid + 1 implies #[trigger] probed(h, sep, p)
            != needle by {
            assert(lex_le(probed(h, sep, p), probed(h, sep, mid)));
            lemma_lex_le_trans(probed(h, sep, p), entry, needle);
            lemma_lex_trichotomy(probed(h, sep, p), needle);
        }
        assert(mid + 1 <= p0 < high && probed(h, sep, p0) == needle);
        lemma_search_complete(h, sep, needle, mid + 1, high, s, e);
    }
}

/// On a sorted haystack, a search for a non-empty needle that equals some
/// entry succeeds, and the returned span holds exactly the needle's bytes.
pub proof fn lemma_search_finds(h: Seq<u8>, sep: u8, needle: Seq<u8>)
    requires
        sorted(entries(h, sep)),
        needle.len() > 0,
        exists|i: int| 0 <= i < entries(h, sep).len() && #[trigger] entries(h, sep)[i] == needle,
    ensures
        spec_search(h, sep, needle) is Ok,
        spec_search(h, sep, needle) matches Ok(p) ==> 0 <= p.0 <= p.1 <= h.len() && h.subrange(
            p.0,
            p.1,
        ) == needle,
{
    let i = choose|i: int|
        0 <= i < entries(h, sep).len() && #[trigger] entries(h, sep)[i] == needle;
    lemma_entry_has_probe(h, sep, 0, i);
    lemma_sorted_positions(h, sep);
    lemma_search_complete(h, sep, needle, 0, h.len() as int, 0, h.len() as int);
    lemma_search_spans(h, sep, needle);
}

/// Any span the search returns, successful or not, lies inside the haystack,
/// and a successful span holds exactly the needle's bytes.
pub proof fn lemma_search_spans(h: Seq<u8>, sep: u8, needle: Seq<u8>)
    ensures
        spec_search(h, sep, needle) matches Ok(p) ==> 0 <= p.0 <= p.1 <= h.len() && h.subrange(
            p.0,
            p.1,
        ) == needle && exists|i: int|
            0 <= i < entries(h, sep).len() && #[trigger] entries(h, sep)[i] == needle,
        spec_search(h, sep, needle) matches Err(p) ==> 0 <= p.0 <= p.1 <= h.len(),
{
    lemma_search_sound(h, sep, needle, 0, h.len() as int, 0, h.len() as int);
    if spec_search(h, sep, needle) is Ok {
        let p = spec_search(h, sep, needle)->Ok_0;
        let q = choose|q: int|
            0 <= q < h.len() && p.0 == start_of(h, sep, q) && p.1 == end_of(h, sep, q)
                && #[trigger] probed(h, sep, q) == needle;
        lemma_start_of(h, sep, q);
        lemma_end_of(h, sep, q);
        lemma_probe(h, sep, q);
    } else {
        let p = spec_search(h, sep, needle)->Err_0;
        if !(p.0 == 0 && p.1 == h.len()) {
            let q = choose|q: int|
                0 <= q < h.len() && p.0 == start_of(h, sep, q) && p.1 == end_of(h, sep, q)
                    && #[trigger] probed(h, sep, q) != needle;
            lemma_start_of(h, sep, q);
            lemma_end_of(h, sep, q);
        }
    }
}

/// A needle that equals no entry of the haystack is never found, whether or
/// not the haystack is sorted.
pub proof fn lemma_search_absent(h: Seq<u8>, sep: u8, needle: Seq<u8>)
    requires
        forall|i: int| 0 <= i < entries(h, sep).len() ==> #[trigger] entries(h, sep)[i] != needle,
    ensures
        spec_search(h, sep, needle) is Err,
{
    lemma_search_spans(h, sep, needle);
}

/// A needle containing the separator byte equals no entry, since entries are
/// separator-free; such a search always fails.
pub proof fn lemma_search_needle_with_separator(h: Seq<u8>, sep: u8, needle: Seq<u8>)
    requires
        !free_of(needle, sep),
    ensures
        spec_search(h, sep, needle) is Err,
{
    lemma_entries_from_free(h, sep, 0);
    assert forall|i: int| 0 <= i < entries(h, sep).len() implies #[trigger] entries(h, sep)[i]
        != needle by {
        assert(free_of(entries(h, sep)[i], sep));
    }
    lemma_search_absent(h, sep, needle);
}

} // verus!

