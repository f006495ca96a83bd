//! The sort-and-join convenience helper: splits a haystack at its separator,
//! reorders the entries into non-decreasing lexicographic order, and rejoins
//! them with the same separator. Callers use it to prepare data before
//! checked construction; it is not part of the search hot path.

use vstd::prelude::*;

use itertools::Itertools;

use crate::model::entries;
use crate::model::entries_from;
use crate::model::join;
use crate::model::lemma_entries_from_step;
use crate::order::lemma_lex_total_ordering;
use crate::order::lex_leq;
use crate::scan_end;

verus! {

/// What the sort helper returns: the entries of the haystack rearranged into
/// non-decreasing lexicographic order and rejoined with the same separator.
/// The sorted rearrangement of a sequence is unique, so this pins the result
/// completely.
pub open spec fn sort_spec(h: Seq<u8>, sep: u8) -> Seq<u8> {
    join(entries(h, sep).sort_by(lex_leq()), sep)
}

/// What `sort_spec` means: its entries are exactly the input's entries
/// rearranged into sorted order, so they form the same multiset.
pub proof fn lemma_sort_spec_entries(h: Seq<u8>, sep: u8)
    ensures
        entries(sort_spec(h, sep), sep) == entries(h, sep).sort_by(lex_leq()),
        crate::model::sorted(entries(sort_spec(h, sep), sep)),
        entries(sort_spec(h, sep), sep).to_multiset() == entries(h, sep).to_multiset(),
{
    broadcast use vstd::seq_lib::group_to_multiset_ensures;

    let es = entries(h, sep);
    let leq = lex_leq();
    lemma_lex_total_ordering();
    es.lemma_sort_by_ensures(leq);
    let ses = es.sort_by(leq);
    lemma_entries_from_step(h, sep, 0);
    assert(es.to_multiset().len() == es.len());
    assert(ses.to_multiset().len() == ses.len());
    crate::model::lemma_entries_from_free(h, sep, 0);
    assert forall|i: int| 0 <= i < ses.len() implies crate::model::free_of(
        #[trigger] ses[i],
        sep,
    ) by {
        assert(ses.contains(ses[i]));
        assert(ses.to_multiset().count(ses[i]) > 0);
        assert(es.contains(ses[i]));
        let j = choose|j: int| 0 <= j < es.len() && es[j] == ses[i];
        assert(crate::model::free_of(es[j], sep));
    }
    crate::model::lemma_join_entries(ses, sep);
    assert forall|i: int, j: int| 0 <= i <= j < ses.len() implies crate::order::lex_le(
        ses[i],
        ses[j],
    ) by {
        if i == j {
            crate::order::lemma_lex_trichotomy(ses[i], ses[j]);
        } else {
            assert(leq(ses[i], ses[j]));
        }
    }
}

/// Relies on `itertools::Itertools::sorted`, which collects the entries into
/// a vector and sorts it with the standard library's stable slice sort: the
/// result is a permutation of the input, ascending under `Ord`, which for
/// byte vectors is the lexicographic byte order.
#[verifier::external_body]
fn sort_entry_vec(v: Vec<Vec<u8>>) -> (r: Vec<Vec<u8>>)
    ensures
        r.deep_view().to_multiset() == v.deep_view().to_multiset(),
        vstd::relations::sorted_by(r.deep_view(), lex_leq()),
{
    v.into_iter().sorted().collect()
}

/// Splits the haystack into its entries, as owned byte vectors.
fn split_to_entries(h: &[u8], sep: u8) -> (r: Vec<Vec<u8>>)
    ensures
        r.deep_view() == entries(h@, sep),
{
    let mut r: Vec<Vec<u8>> = Vec::new();
    let mut k: usize = 0;
    proof {
        assert(r.deep_view() =~~= Seq::<Seq<u8>>::empty());
        assert(entries(h@, sep) =~~= r.deep_view() + entries_from(h@, sep, 0));
    }
    loop
        invariant_except_break
            k <= h@.len(),
            k == 0 || h@[k - 1] == sep,
            entries(h@, sep) == r.deep_view() + entries_from(h@, sep, k as int),
        ensures
            r.deep_view() == entries(h@, sep),
        decreases h@.len() - k,
    {
        let e = scan_end(h, k, sep);
        let piece = vstd::slice::slice_to_vec(vstd::slice::slice_subrange(h, k, e));
        proof {
            lemma_entries_from_step(h@, sep, k as int);
            crate::model::lemma_end_of(h@, sep, k as int);
        }
        let ghost old_dv = r.deep_view();
        r.push(piece);
        proof {
            assert(r.deep_view() =~~= old_dv.push(piece@));
        }
        if e == h.len() {
            proof {
                assert(entries(h@, sep) =~~= r.deep_view());
            }
            break ;
        }
        proof {
            assert(entries(h@, sep) =~~= r.deep_view() + entries_from(h@, sep, e + 1));
        }
        k = e + 1;
    }
    r
}

/// Joins entry vectors back into one haystack, with the separator between
/// neighbours.
fn join_entries(es: &Vec<Vec<u8>>, sep: u8) -> (r: Vec<u8>)
    ensures
        r@ == join(es.deep_view(), sep),
{
    let ghost dv = es.deep_view();
    let mut r: Vec<u8> = Vec::new();
    let mut i: usize = 0;
    proof {
        assert(dv.skip(0) =~= dv);
        assert(r@ + join(dv.skip(0), sep) =~= join(dv, sep));
    }
    while i < es.len()
        invariant
            i <= es@.len(),
            dv == es.deep_view(),
            dv.len() == es@.len(),
            join(dv, sep) == r@ + join(dv.skip(i as int), sep),
        decreases es@.len() - i,
    {
        let ghost old_view = r@;
        let ghost suffix = dv.skip(i as int);
        proof {
            assert(suffix[0] =~= es@[i as int]@);
        }
        r.extend_from_slice(es[i].as_slice());
        if i + 1 < es.len() {
            r.push(sep);
            proof {
                assert(suffix.drop_first() =~= dv.skip(i + 1));
                assert(join(suffix, sep) == suffix[0] + seq![sep] + join(suffix.drop_first(), sep));
                assert(r@ =~= old_view + suffix[0] + seq![sep]);
                assert(r@ + join(dv.skip(i + 1), sep) =~= join(dv, sep));
            }
        } else {
            proof {
                assert(suffix.len() == 1);
                assert(join(suffix, sep) == suffix[0]);
                assert(dv.skip(i + 1) =~= Seq::<Seq<u8>>::empty());
                assert(r@ =~= old_view + suffix[0]);
                assert(r@ + join(dv.skip(i + 1), sep) =~= join(dv, sep));
            }
        }
        i = i + 1;
    }
    proof {
        if dv.len() == 0 {
            assert(join(dv, sep) =~= r@);
        } else {
            assert(dv.skip(i as int).len() == 0);
            assert(join(dv, sep) =~= r@ + join(dv.skip(i as int), sep));
            assert(join(dv, sep) =~= r@);
        }
    }
    r
}

/// Splits, sorts with the trusted comparison sort, and rejoins; the unique
/// sorted rearrangement makes the result exactly `sort_spec`.
pub(crate) fn sort_haystack(h: &[u8], sep: u8) -> (r: Vec<u8>)
    ensures
        r@ == sort_spec(h@, sep),
{
    let pieces = split_to_entries(h, sep);
    let sorted_pieces = sort_entry_vec(pieces);
    proof {
        let es = entries(h@, sep);
        lemma_lex_total_ordering();
        es.lemma_sort_by_ensures(lex_leq());
        vstd::seq_lib::lemma_sorted_unique(
            sorted_pieces.deep_view(),
            es.sort_by(lex_leq()),
            lex_leq(),
        );
        assert(sorted_pieces.deep_view() == es.sort_by(lex_leq()));
    }
    join_entries(&sorted_pieces, sep)
}

} // verus!
