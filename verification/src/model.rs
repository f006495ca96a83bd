//! The mathematical model of a separated haystack: where entries start and
//! end, how the haystack splits into a sequence of entries, and how entries
//! join back into a haystack.

use vstd::prelude::*;

verus! {

/// Start of the entry enclosing byte position `p`: the nearest separator
/// strictly below `p` plus one, or the start of the haystack.
pub open spec fn start_of(h: Seq<u8>, sep: u8, p: int) -> int
    decreases p,
{
    if p <= 0 {
        0
    } else if h[p - 1] == sep {
        p
    } else {
        start_of(h, sep, p - 1)
    }
}

/// End of the entry enclosing byte position `p`: the nearest separator at or
/// above `p`, or the end of the haystack.
pub open spec fn end_of(h: Seq<u8>, sep: u8, p: int) -> int
    decreases h.len() - p,
{
    if p >= h.len() {
        h.len() as int
    } else if h[p] == sep {
        p
    } else {
        end_of(h, sep, p + 1)
    }
}

/// The entry that a probe of byte position `p` examines.
pub open spec fn probed(h: Seq<u8>, sep: u8, p: int) -> Seq<u8> {
    h.subrange(start_of(h, sep, p), end_of(h, sep, p))
}

/// Number of separator bytes strictly below position `p`; equivalently, the
/// index of the entry enclosing `p`.
pub open spec fn sep_count(h: Seq<u8>, sep: u8, p: int) -> int
    decreases p,
{
    if p <= 0 {
        0
    } else if h[p - 1] == sep {
        sep_count(h, sep, p - 1) + 1
    } else {
        sep_count(h, sep, p - 1)
    }
}

/// The entries of the haystack from byte position `k` on, split at the
/// separator. Splitting an empty tail yields one empty entry, so a haystack
/// of `n` separators holds `n + 1` entries.
pub open spec fn entries_from(h: Seq<u8>, sep: u8, k: int) -> Seq<Seq<u8>>
    decreases h.len() - k,
{
    if k >= h.len() {
        seq![Seq::empty()]
    } else if h[k] == sep {
        seq![Seq::empty()] + entries_from(h, sep, k + 1)
    } else {
        let rest = entries_from(h, sep, k + 1);
        rest.update(0, seq![h[k]] + rest[0])
    }
}

/// All entries of the haystack, in order.
pub open spec fn entries(h: Seq<u8>, sep: u8) -> Seq<Seq<u8>> {
    entries_from(h, sep, 0)
}

/// The entries are in non-decreasing lexicographic order.
pub open spec fn sorted(es: Seq<Seq<u8>>) -> bool {
    forall|i: int, j: int| 0 <= i <= j < es.len() ==> crate::order::lex_le(es[i], es[j])
}

/// No byte of `s` equals `b`.
pub open spec fn free_of(s: Seq<u8>, b: u8) -> bool {
    forall|i: int| 0 <= i < s.len() ==> s[i] != b
}

/// The entries joined back into one haystack, with the separator between
/// neighbours.
pub open spec fn join(es: Seq<Seq<u8>>, sep: u8) -> Seq<u8>
    decreases es.len(),
{
    if es.len() == 0 {
        Seq::empty()
    } else if es.len() == 1 {
        es[0]
    } else {
        es[0] + seq![sep] + join(es.drop_first(), sep)
    }
}

/// Non-decreasing neighbours propagate to any pair of entry indices.
proof fn lemma_adjacent_le_pair(es: Seq<Seq<u8>>, i: int, j: int)
    requires
        forall|n: int| 0 <= n < es.len() - 1 ==> crate::order::lex_le(#[trigger] es[n], es[n + 1]),
        0 <= i <= j < es.len(),
    ensures
        crate::order::lex_le(es[i], es[j]),
    decreases j - i,
{
    if i == j {
        crate::order::lemma_lex_trichotomy(es[i], es[j]);
    } else {
        lemma_adjacent_le_pair(es, i, j - 1);
        crate::order::lemma_lex_le_trans(es[i], es[j - 1], es[j]);
    }
}

/// A sequence of entries whose neighbours are in non-decreasing order is
/// sorted.
pub proof fn lemma_adjacent_implies_sorted(es: Seq<Seq<u8>>)
    requires
        forall|n: int| 0 <= n < es.len() - 1 ==> crate::order::lex_le(#[trigger] es[n], es[n + 1]),
    ensures
        sorted(es),
{
    assert forall|i: int, j: int| 0 <= i <= j < es.len() implies crate::order::lex_le(
        es[i],
        es[j],
    ) by {
        lemma_adjacent_le_pair(es, i, j);
    }
}

/// Characterizes `start_of`: it lies in `[0, p]`, the bytes between it and
/// `p` are separator-free, and it is either the haystack start or preceded by
/// a separator.
pub proof fn lemma_start_of(h: Seq<u8>, sep: u8, p: int)
    requires
        0 <= p <= h.len(),
    ensures
        0 <= start_of(h, sep, p) <= p,
        forall|j: int| start_of(h, sep, p) <= j < p ==> h[j] != sep,
        start_of(h, sep, p) > 0 ==> h[start_of(h, sep, p) - 1] == sep,
    decreases p,
{
    if p > 0 && h[p - 1] != sep {
        lemma_start_of(h, sep, p - 1);
    }
}

/// Characterizes `end_of`: it lies in `[p, len]`, the bytes between `p` and
/// it are separator-free, and it is either the haystack end or a separator.
pub proof fn lemma_end_of(h: Seq<u8>, sep: u8, p: int)
    requires
        0 <= p <= h.len(),
    ensures
        p <= end_of(h, sep, p) <= h.len(),
        forall|j: int| p <= j < end_of(h, sep, p) ==> h[j] != sep,
        end_of(h, sep, p) < h.len() ==> h[end_of(h, sep, p)] == sep,
    decreases h.len() - p,
{
    if p < h.len() && h[p] != sep {
        lemma_end_of(h, sep, p + 1);
    }
}

/// The converse: a position with those properties is `start_of`.
pub proof fn lemma_start_of_reaches(h: Seq<u8>, sep: u8, s: int, p: int)
    requires
        0 <= s <= p <= h.len(),
        forall|j: int| s <= j < p ==> h[j] != sep,
        s == 0 || h[s - 1] == sep,
    ensures
        start_of(h, sep, p) == s,
    decreases p - s,
{
    if p > s {
        lemma_start_of_reaches(h, sep, s, p - 1);
    }
}

/// The converse: a position with those properties is `end_of`.
pub proof fn lemma_end_of_reaches(h: Seq<u8>, sep: u8, p: int, e: int)
    requires
        0 <= p <= e <= h.len(),
        forall|j: int| p <= j < e ==> h[j] != sep,
        e == h.len() || h[e] == sep,
    ensures
        end_of(h, sep, p) == e,
    decreases e - p,
{
    if p < e {
        lemma_end_of_reaches(h, sep, p + 1, e);
    }
}

/// `sep_count` does not decrease from `p` to `q`.
pub proof fn lemma_sep_count_monotone(h: Seq<u8>, sep: u8, p: int, q: int)
    requires
        p <= q,
    ensures
        sep_count(h, sep, p) <= sep_count(h, sep, q),
    decreases q - p,
{
    if p < q {
        lemma_sep_count_monotone(h, sep, p, q - 1);
    }
}

/// Over a separator-free stretch, `sep_count` stays constant.
pub proof fn lemma_sep_count_free(h: Seq<u8>, sep: u8, p: int, q: int)
    requires
        p <= q,
        forall|j: int| p <= j < q ==> h[j] != sep,
    ensures
        sep_count(h, sep, q) == sep_count(h, sep, p),
    decreases q - p,
{
    if p < q {
        lemma_sep_count_free(h, sep, p, q - 1);
    }
}

/// Unrolls `entries_from` by one whole entry: the first entry runs from `k`
/// to `end_of(k)`, and the remaining entries restart past that separator.
pub proof fn lemma_entries_from_step(h: Seq<u8>, sep: u8, k: int)
    requires
        0 <= k <= h.len(),
    ensures
        entries_from(h, sep, k).len() >= 1,
        entries_from(h, sep, k)[0] == h.subrange(k, end_of(h, sep, k)),
        end_of(h, sep, k) < h.len() ==> entries_from(h, sep, k) == seq![
            h.subrange(k, end_of(h, sep, k)),
        ] + entries_from(h, sep, end_of(h, sep, k) + 1),
        end_of(h, sep, k) == h.len() ==> entries_from(h, sep, k) == seq![
            h.subrange(k, end_of(h, sep, k)),
        ],
    decreases h.len() - k,
{
    lemma_end_of(h, sep, k);
    let e = end_of(h, sep, k);
    if k >= h.len() {
        assert(h.subrange(k, e) =~= Seq::<u8>::empty());
        assert(entries_from(h, sep, k) =~= seq![h.subrange(k, e)]);
    } else if h[k] == sep {
        assert(e == k);
        assert(h.subrange(k, e) =~= Seq::<u8>::empty());
        assert(entries_from(h, sep, k) =~= seq![h.subrange(k, e)] + entries_from(h, sep, k + 1));
    } else {
        lemma_entries_from_step(h, sep, k + 1);
        assert(end_of(h, sep, k) == end_of(h, sep, k + 1));
        let rest = entries_from(h, sep, k + 1);
        let cur = entries_from(h, sep, k);
        assert(cur == rest.update(0, seq![h[k]] + rest[0]));
        assert(seq![h[k]] + h.subrange(k + 1, e) =~= h.subrange(k, e));
        assert(cur[0] == h.subrange(k, e));
        if e < h.len() {
            assert(cur =~= seq![h.subrange(k, e)] + entries_from(h, sep, e + 1));
        } else {
            assert(cur =~= seq![h.subrange(k, e)]);
        }
    }
}

/// Every entry is free of the separator byte.
pub proof fn lemma_entries_from_free(h: Seq<u8>, sep: u8, k: int)
    requires
        0 <= k <= h.len(),
    ensures
        forall|i: int|
            0 <= i < entries_from(h, sep, k).len() ==> free_of(
                #[trigger] entries_from(h, sep, k)[i],
                sep,
            ),
    decreases h.len() - k,
{
    lemma_entries_from_step(h, sep, k);
    lemma_end_of(h, sep, k);
    let e = end_of(h, sep, k);
    assert(free_of(h.subrange(k, e), sep));
    if e < h.len() {
        lemma_entries_from_free(h, sep, e + 1);
    }
}

/// Probing position `p` examines exactly the entry with index
/// `sep_count(p) - sep_count(k)` among the entries from `k` on, and the
/// enclosing entry never starts before `k`.
pub proof fn lemma_probe_from(h: Seq<u8>, sep: u8, k: int, p: int)
    requires
        0 <= k <= p < h.len(),
        k == 0 || h[k - 1] == sep,
    ensures
        0 <= sep_count(h, sep, p) - sep_count(h, sep, k) < entries_from(h, sep, k).len(),
        entries_from(h, sep, k)[sep_count(h, sep, p) - sep_count(h, sep, k)] == probed(h, sep, p),
        k <= start_of(h, sep, p),
    decreases p - k,
{
    lemma_entries_from_step(h, sep, k);
    lemma_end_of(h, sep, k);
    let e = end_of(h, sep, k);
    if p < e {
        lemma_sep_count_free(h, sep, k, p);
        lemma_start_of_reaches(h, sep, k, p);
        lemma_end_of_reaches(h, sep, p, e);
    } else if p == e {
        assert(h[p] == sep);
        assert(end_of(h, sep, p) == e);
        lemma_sep_count_free(h, sep, k, p);
        lemma_start_of_reaches(h, sep, k, p);
    } else {
        assert(e < h.len() && h[e] == sep);
        lemma_probe_from(h, sep, e + 1, p);
        lemma_sep_count_free(h, sep, k, e);
        assert(sep_count(h, sep, e + 1) == sep_count(h, sep, k) + 1);
        lemma_sep_count_monotone(h, sep, e + 1, p);
        let i = sep_count(h, sep, p) - sep_count(h, sep, k);
        assert(entries_from(h, sep, k)[i] == entries_from(h, sep, e + 1)[i - 1]);
    }
}

/// Probing any position examines a genuine entry of the haystack.
pub proof fn lemma_probe(h: Seq<u8>, sep: u8, p: int)
    requires
        0 <= p < h.len(),
    ensures
        0 <= sep_count(h, sep, p) < entries(h, sep).len(),
        entries(h, sep)[sep_count(h, sep, p)] == probed(h, sep, p),
{
    lemma_probe_from(h, sep, 0, p);
}

/// Splitting from position `k` on is the same as splitting the suffix that
/// starts at `k`.
pub proof fn lemma_entries_from_skip(h: Seq<u8>, sep: u8, k: int)
    requires
        0 <= k <= h.len(),
    ensures
        entries_from(h, sep, k) == entries_from(h.skip(k), sep, 0),
    decreases h.len() - k,
{
    let g = h.skip(k);
    if k >= h.len() {
        assert(g.len() == 0);
    } else {
        assert(g[0] == h[k]);
        lemma_entries_from_skip(g, sep, 1);
        assert(g.skip(1) =~= h.skip(k + 1));
        lemma_entries_from_skip(h, sep, k + 1);
        assert(entries_from(g, sep, 1) == entries_from(h, sep, k + 1));
    }
}

/// Joining separator-free entries and splitting the result recovers exactly
/// those entries.
pub proof fn lemma_join_entries(es: Seq<Seq<u8>>, sep: u8)
    requires
        es.len() >= 1,
        forall|i: int| 0 <= i < es.len() ==> free_of(#[trigger] es[i], sep),
    ensures
        entries(join(es, sep), sep) == es,
    decreases es.len(),
{
    let h = join(es, sep);
    if es.len() == 1 {
        assert(h == es[0]);
        lemma_end_of_reaches(h, sep, 0, h.len() as int);
        lemma_entries_from_step(h, sep, 0);
        assert(h.subrange(0, h.len() as int) =~= h);
        assert(entries(h, sep) =~= es);
    } else {
        let rest = es.drop_first();
        let tail = join(rest, sep);
        let first = es[0];
        assert(h == first + seq![sep] + tail);
        let len0 = first.len() as int;
        assert forall|j: int| 0 <= j < len0 implies h[j] != sep by {
            assert(h[j] == first[j]);
        }
        assert(h[len0] == sep);
        lemma_end_of_reaches(h, sep, 0, len0);
        lemma_entries_from_step(h, sep, 0);
        assert(h.subrange(0, len0) =~= first);
        lemma_entries_from_skip(h, sep, len0 + 1);
        assert(h.skip(len0 + 1) =~= tail);
        assert forall|i: int| 0 <= i < rest.len() implies free_of(#[trigger] rest[i], sep) by {
            assert(rest[i] == es[i + 1]);
        }
        lemma_join_entries(rest, sep);
        assert(entries(h, sep) =~= es);
    }
}

/// Every non-empty entry is examined by some probe position.
pub proof fn lemma_entry_has_probe(h: Seq<u8>, sep: u8, k: int, i: int)
    requires
        0 <= k <= h.len(),
        k == 0 || h[k - 1] == sep,
        0 <= i < entries_from(h, sep, k).len(),
        entries_from(h, sep, k)[i].len() > 0,
    ensures
        exists|p: int|
            0 <= p < h.len() && #[trigger] probed(h, sep, p) == entries_from(h, sep, k)[i],
    decreases i,
{
    lemma_entries_from_step(h, sep, k);
    lemma_end_of(h, sep, k);
    let e = end_of(h, sep, k);
    if i == 0 {
        assert(e > k);
        lemma_start_of_reaches(h, sep, k, k);
        lemma_end_of_reaches(h, sep, k, e);
        assert(probed(h, sep, k) == entries_from(h, sep, k)[0]);
        assert(0 <= k < h.len());
    } else {
        assert(entries_from(h, sep, k).len() > 1);
        assert(e < h.len());
        lemma_entry_has_probe(h, sep, e + 1, i - 1);
        assert(entries_from(h, sep, k)[i] == entries_from(h, sep, e + 1)[i - 1]);
    }
}

} // verus!
