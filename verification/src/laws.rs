//! The laws of the library, stated over the spec-level model that the
//! executable functions' contracts are written against.

use vstd::prelude::*;

use crate::matches_model;
use crate::model::entries;
use crate::model::free_of;
use crate::model::join;
use crate::model::lemma_join_entries;
use crate::model::sorted;
use crate::order::lemma_lex_total_ordering;
use crate::order::lex_leq;
use crate::proofs::lemma_search_absent;
use crate::proofs::lemma_search_finds;
use crate::proofs::lemma_search_needle_with_separator;
use crate::sorting::sort_spec;
use crate::spec_search;
use crate::SearchResult;

verus! {

/// On a sorted haystack, searching for a non-empty needle that equals one of
/// the entries succeeds, and the returned span holds exactly the needle's
/// bytes.
pub proof fn search_finds_present_entry(h: Seq<u8>, sep: u8, needle: Seq<u8>)
    requires
        sorted(entries(h, sep)),
        needle.len() > 0,
        exists|i: int| 0 <= i < entries(h, sep).len() && #[trigger] entries(h, sep)[i] == needle,
    ensures
        spec_search(h, sep, needle) is Ok,
        spec_search(h, sep, needle) matches Ok(p) ==> 0 <= p.0 <= p.1 <= h.len() && h.subrange(
            p.0,
            p.1,
        ) == needle,
{
    lemma_search_finds(h, sep, needle);
}

/// Round-trip success: join any sorted sequence of separator-free entries
/// with the separator, and searching the result for any one of those entries
/// returns a span holding exactly that entry's bytes.
///
/// Empty entries are excluded: the probe sequence can pass over an empty
/// entry, so an empty needle may fail even when an empty entry is present
/// (joining the two entries `""` and `"a"` gives such a haystack).
pub proof fn round_trip_search_succeeds(es: Seq<Seq<u8>>, sep: u8, i: int)
    requires
        es.len() >= 1,
        forall|j: int| 0 <= j < es.len() ==> free_of(#[trigger] es[j], sep),
        sorted(es),
        0 <= i < es.len(),
        es[i].len() > 0,
    ensures
        spec_search(join(es, sep), sep, es[i]) is Ok,
        spec_search(join(es, sep), sep, es[i]) matches Ok(p) ==> 0 <= p.0 <= p.1 <= join(
            es,
            sep,
        ).len() && join(es, sep).subrange(p.0, p.1) == es[i],
{
    lemma_join_entries(es, sep);
    lemma_search_finds(join(es, sep), sep, es[i]);
}

/// Negative result correctness: a needle that equals no entry is never found,
/// on any haystack, sorted or not.
pub proof fn absent_needle_yields_not_found(h: Seq<u8>, sep: u8, needle: Seq<u8>)
    requires
        forall|i: int| 0 <= i < entries(h, sep).len() ==> #[trigger] entries(h, sep)[i] != needle,
    ensures
        spec_search(h, sep, needle) is Err,
{
    lemma_search_absent(h, sep, needle);
}

/// Determinism: two search results that both match the model for the same
/// haystack, separator and needle are the same result, failure spans
/// included; repeating a search can never change its outcome.
pub proof fn search_is_deterministic(
    h: Seq<u8>,
    sep: u8,
    needle: Seq<u8>,
    r1: SearchResult,
    r2: SearchResult,
)
    requires
        matches_model(r1, spec_search(h, sep, needle)),
        matches_model(r2, spec_search(h, sep, needle)),
    ensures
        r1 == r2,
{
    match (r1, r2) {
        (Ok(a), Ok(b)) => {
            assert(a.start == b.start && a.end == b.end);
        },
        (Err(a), Err(b)) => {
            assert(a.0.start == b.0.start && a.0.end == b.0.end);
        },
        _ => {},
    }
}

/// Separator-in-needle non-match: a needle containing the separator byte can
/// equal no entry, so such a search always ends in failure.
pub proof fn separator_needle_yields_not_found(h: Seq<u8>, sep: u8, needle: Seq<u8>)
    requires
        !free_of(needle, sep),
    ensures
        spec_search(h, sep, needle) is Err,
{
    lemma_search_needle_with_separator(h, sep, needle);
}

/// Idempotence of the sort helper: sorting an already sorted haystack changes
/// nothing.
pub proof fn sort_helper_idempotent(h: Seq<u8>, sep: u8)
    ensures
        sort_spec(sort_spec(h, sep), sep) == sort_spec(h, sep),
{
    let es = entries(h, sep);
    let leq = lex_leq();
    lemma_lex_total_ordering();
    es.lemma_sort_by_ensures(leq);
    let ses = es.sort_by(leq);
    crate::sorting::lemma_sort_spec_entries(h, sep);
    assert(entries(sort_spec(h, sep), sep) == ses);
    ses.lemma_sort_by_ensures(leq);
    vstd::seq_lib::lemma_sorted_unique(ses.sort_by(leq), ses, leq);
    assert(ses.sort_by(leq) == ses);
    assert(sort_spec(sort_spec(h, sep), sep) == join(ses.sort_by(leq), sep));
}

} // verus!
