//! Binary search for a needle inside one large sorted haystack of
//! variable-length entries separated by a single byte, without splitting the
//! haystack into a container of substrings first.
//!
//! The haystack is borrowed, never copied: a [`SortedString`] is a thin view
//! holding a byte slice and a [`Separator`]. A search probes a byte position,
//! expands outward to the separators enclosing it, and compares the needle to
//! that entry, shrinking the window of byte offsets until a match is found or
//! the window is exhausted.

use vstd::prelude::*;

pub mod laws;
pub mod model;
pub mod order;
pub mod proofs;
pub mod sorting;

use core::ops::Range;
use model::end_of;
use model::entries;
use model::entries_from;
use model::lemma_adjacent_implies_sorted;
use model::lemma_end_of;
use model::lemma_entries_from_step;
use model::lemma_start_of;
use model::sorted;
use model::start_of;
use order::compare;
use order::lemma_lex_trichotomy;
use order::lex_le;
use order::lex_lt;
use order::Rel;

verus! {

/// A single-byte separator, restricted to the single-byte range of UTF-8.
///
/// A byte in this range never occurs inside the multi-byte encoding of any
/// other character, so scanning raw haystack bytes for it is sound and every
/// occurrence is a character boundary.
#[derive(Debug, Clone, Copy, PartialEq, Eq)]
pub struct Separator {
    byte: u8,
}

impl View for Separator {
    type V = u8;

    closed spec fn view(&self) -> u8 {
        self.byte
    }
}

impl Separator {
    #[verifier::type_invariant]
    closed spec fn single_byte(self) -> bool {
        self.byte < 128
    }

    /// Accepts a candidate separator byte, rejecting any value that cannot be
    /// a whole character of its own in UTF-8 text.
    pub fn new(byte: u8) -> (r: Option<Separator>)
        ensures
            byte < 128 <==> r is Some,
            r matches Some(s) ==> s@ == byte,
    {
        if byte < 128 {
            Some(Separator { byte })
        } else {
            None
        }
    }

    /// The raw byte value of the separator.
    pub fn as_byte(&self) -> (b: u8)
        ensures
            b == self@,
            b < 128,
    {
        proof {
            use_type_invariant(self);
        }
        self.byte
    }
}

/// Relies on the derived `Clone` of `core::ops::Range`, which clones the two
/// bounds; needed so that the derived `Clone` of [`SearchError`] is accepted.
pub assume_specification<Idx: Clone>[ <Range<Idx> as Clone>::clone ](r: &Range<Idx>) -> (res: Range<
    Idx,
>)
    ensures
        vstd::pervasive::cloned::<Idx>(r.start, res.start),
        vstd::pervasive::cloned::<Idx>(r.end, res.end),
;

/// Error returned in case of a failed search: the byte span of the last
/// *unsuccessful* comparison.
///
/// This is not the span where the needle could be inserted; that lies to the
/// left or to the right of this span, depending on how the final comparison
/// went, which is deliberately not reported.
#[derive(Debug, Clone, PartialEq, Eq)]
pub struct SearchError(pub Range<usize>);

/// The result of a [`SortedString::binary_search`]: the byte span of a match,
/// or a [`SearchError`] carrying the span of the last unsuccessful comparison.
pub type SearchResult = Result<Range<usize>, SearchError>;

/// Error that can occur when creating a [`SortedString`].
#[derive(Debug, Clone, Copy, PartialEq, Eq)]
pub enum SortedStringCreationError {
    /// The passed haystack was not sorted.
    NotSorted,
    /// The passed haystack was empty.
    EmptyHaystack,
}

/// The search, as a mathematical function of the haystack, the separator and
/// the needle: probe the middle of the window `[low, high)`, expand to the
/// enclosing entry, compare, and shrink the window; `start` and `end` carry
/// the most recently examined span for the failure case.
pub open spec fn spec_search_from(
    h: Seq<u8>,
    sep: u8,
    needle: Seq<u8>,
    low: int,
    high: int,
    start: int,
    end: int,
) -> Result<(int, int), (int, int)>
    decreases high - low,
{
    if low < high {
        let mid = low + (high - low) / 2;
        let s = start_of(h, sep, mid);
        let e = end_of(h, sep, mid);
        let entry = h.subrange(s, e);
        if lex_lt(needle, entry) {
            let nhigh = if mid == 0 {
                0
            } else {
                mid - 1
            };
            if low < nhigh {
                spec_search_from(h, sep, needle, low, nhigh, s, e)
            } else {
                Err((s, e))
            }
        } else if needle == entry {
            Ok((s, e))
        } else {
            spec_search_from(h, sep, needle, mid + 1, high, s, e)
        }
    } else {
        Err((start, end))
    }
}

/// The search over the whole haystack.
pub open spec fn spec_search(h: Seq<u8>, sep: u8, needle: Seq<u8>) -> Result<
    (int, int),
    (int, int),
> {
    spec_search_from(h, sep, needle, 0, h.len() as int, 0, h.len() as int)
}

/// Relates an executable search result to the model's: same variant, same
/// byte span.
pub open spec fn matches_model(r: SearchResult, m: Result<(int, int), (int, int)>) -> bool {
    match (r, m) {
        (Ok(rg), Ok(p)) => rg.start == p.0 && rg.end == p.1,
        (Err(se), Err(p)) => se.0.start == p.0 && se.0.end == p.1,
        _ => false,
    }
}

/// Scans backward from `mid` to the separator below it (or the haystack
/// start): the start of the entry enclosing `mid`.
fn scan_start(h: &[u8], mid: usize, sep: u8) -> (s: usize)
    requires
        mid <= h@.len(),
    ensures
        s == start_of(h@, sep, mid as int),
        s <= mid,
{
    let mut i: usize = mid;
    while i > 0 && h[i - 1] != sep
        invariant
            i <= mid <= h@.len(),
            start_of(h@, sep, mid as int) == start_of(h@, sep, i as int),
        decreases i,
    {
        i = i - 1;
    }
    proof {
        lemma_start_of(h@, sep, mid as int);
    }
    i
}

/// Scans forward from `mid` to the separator at or above it (or the haystack
/// end): the end of the entry enclosing `mid`.
pub(crate) fn scan_end(h: &[u8], mid: usize, sep: u8) -> (e: usize)
    requires
        mid <= h@.len(),
    ensures
        e == end_of(h@, sep, mid as int),
        mid <= e <= h@.len(),
{
    let mut i: usize = mid;
    while i < h.len() && h[i] != sep
        invariant
            mid <= i <= h@.len(),
            end_of(h@, sep, mid as int) == end_of(h@, sep, i as int),
        decreases h@.len() - i,
    {
        i = i + 1;
    }
    proof {
        lemma_end_of(h@, sep, mid as int);
    }
    i
}

/// Main type to perform binary search through: a borrowed haystack of sorted,
/// separator-delimited entries, together with the separator to split by.
///
/// The type is cheap: it does not own the potentially large haystack. The
/// soundness of [`SortedString::binary_search`] rests on the haystack being
/// sorted, which [`SortedString::new_checked`] validates up front and
/// [`SortedString::new_unchecked`] takes on trust.
#[derive(Debug, Clone, PartialEq, Eq)]
pub struct SortedString<'a> {
    string: &'a [u8],
    sep: Separator,
}

impl<'a> SortedString<'a> {
    /// The haystack bytes.
    pub closed spec fn haystack(&self) -> Seq<u8> {
        self.string@
    }

    /// The separator byte.
    pub closed spec fn separator(&self) -> u8 {
        self.sep@
    }

    /// The construction-time invariant that makes searching sound: the
    /// haystack is non-empty and its entries are in non-decreasing
    /// lexicographic order.
    pub open spec fn is_valid(&self) -> bool {
        self.haystack().len() > 0 && sorted(entries(self.haystack(), self.separator()))
    }

    fn new(string: &'a [u8], sep: Separator) -> (r: Self)
        ensures
            r.haystack() == string@,
            r.separator() == sep@,
    {
        Self { string, sep }
    }

    /// Searches for a needle inside this [`SortedString`].
    ///
    /// The success case is a [`Range`] of byte positions delimiting the
    /// matching entry, exclusive of separators. The error case carries the
    /// span of the last unsuccessful comparison. The outcome is exactly the
    /// model's [`spec_search`], so equal inputs always give equal results.
    ///
    /// A needle that contains the separator byte can never match any entry
    /// and deterministically ends in failure; that is accepted behavior, not
    /// an error. One open edge case is inherited from the probe sequence: an
    /// *empty* needle can fail to be found even when the haystack holds an
    /// empty entry (for example a haystack starting with a separator directly
    /// followed by content). The search stays panic-free and deterministic
    /// there; [`crate::laws::search_finds_present_entry`] therefore promises
    /// success for non-empty needles only.
    #[verifier::loop_isolation(false)]
    pub fn binary_search(&self, needle: &[u8]) -> (r: SearchResult)
        ensures
            matches_model(r, spec_search(self.haystack(), self.separator(), needle@)),
            r matches Ok(rg) ==> rg.start <= rg.end <= self.haystack().len()
                && self.haystack().subrange(rg.start as int, rg.end as int) == needle@,
            r matches Err(se) ==> se.0.start <= se.0.end <= self.haystack().len(),
            self.is_valid() && needle@.len() > 0 && (exists|i: int|
                0 <= i < entries(self.haystack(), self.separator()).len() && #[trigger] entries(
                    self.haystack(),
                    self.separator(),
                )[i] == needle@) ==> r is Ok,
            (forall|i: int|
                0 <= i < entries(self.haystack(), self.separator()).len() ==> #[trigger] entries(
                    self.haystack(),
                    self.separator(),
                )[i] != needle@) ==> r is Err,
    {
        proof {
            proofs::lemma_search_spans(self.haystack(), self.separator(), needle@);
            if self.is_valid() && needle@.len() > 0 && (exists|i: int|
                0 <= i < entries(self.haystack(), self.separator()).len() && #[trigger] entries(
                    self.haystack(),
                    self.separator(),
                )[i] == needle@) {
                proofs::lemma_search_finds(self.haystack(), self.separator(), needle@);
            }
        }
        let haystack = self.string;
        let sep = self.sep.as_byte();

        let leftmost: usize = 0;
        let rightmost: usize = haystack.len();

        let mut low: usize = leftmost;
        let mut high: usize = rightmost;

        let mut start: usize = leftmost;
        let mut end: usize = rightmost;

        let ghost target = spec_search(self.haystack(), self.separator(), needle@);

        while low < high
            invariant
                high <= haystack@.len(),
                start <= end <= haystack@.len(),
                sep == self.separator(),
                haystack@ == self.haystack(),
                target == spec_search(self.haystack(), self.separator(), needle@),
                spec_search_from(
                    haystack@,
                    sep,
                    needle@,
                    low as int,
                    high as int,
                    start as int,
                    end as int,
                ) == target,
            decreases (if low <= high {
                high - low
            } else {
                0int
            }),
        {
            let mid = low + (high - low) / 2;

            let s = scan_start(haystack, mid, sep);
            let e = scan_end(haystack, mid, sep);

            let entry = vstd::slice::slice_subrange(haystack, s, e);

            match compare(needle, entry) {
                Rel::Less => {
                    high = if mid == 0 {
                        0
                    } else {
                        mid - 1
                    };
                },
                Rel::Equal => {
                    return Ok(Range { start: s, end: e });
                },
                Rel::Greater => {
                    low = mid + 1;
                },
            }
            start = s;
            end = e;
        }

        Err(SearchError(Range { start, end }))
    }

    /// Creates a new instance of [`SortedString`], performing sanity checks:
    /// the haystack must be non-empty, and splitting it at the separator must
    /// yield entries in non-decreasing lexicographic order. Each failure mode
    /// is reported as its own [`SortedStringCreationError`]; nothing is
    /// silently coerced.
    ///
    /// See [`SortedString::new_unchecked`] for a version without checks.
    pub fn new_checked(haystack: &'a [u8], sep: Separator) -> (r: Result<
        SortedString<'a>,
        SortedStringCreationError,
    >)
        ensures
            r is Ok <==> haystack@.len() > 0 && sorted(entries(haystack@, sep@)),
            r matches Ok(ss) ==> ss.haystack() == haystack@ && ss.separator() == sep@ && ss.is_valid(),
            r == Err::<SortedString<'a>, _>(SortedStringCreationError::EmptyHaystack) <==> haystack@.len() == 0,
            r == Err::<SortedString<'a>, _>(SortedStringCreationError::NotSorted) <==> haystack@.len() > 0
                && !sorted(entries(haystack@, sep@)),
    {
        if haystack.is_empty() {
            return Err(SortedStringCreationError::EmptyHaystack);
        }

        let sorted_string = Self::new(haystack, sep);

        if sorted_string.is_sorted() {
            Ok(sorted_string)
        } else {
            Err(SortedStringCreationError::NotSorted)
        }
    }

    /// Checks that the entries of the haystack are in non-decreasing
    /// lexicographic order, walking neighbouring entries left to right.
    fn is_sorted(&self) -> (r: bool)
        ensures
            r == sorted(entries(self.haystack(), self.separator())),
    {
        let h = self.string;
        let sep = self.sep.as_byte();
        let ghost hs = self.haystack();
        let ghost es = entries(hs, sep);

        let mut prev_start: usize = 0;
        let mut prev_end: usize = scan_end(h, 0, sep);
        let ghost idx: int = 0;

        proof {
            lemma_entries_from_step(hs, sep, 0);
            assert(es =~= es.take(0) + entries_from(hs, sep, 0));
        }

        while prev_end < h.len()
            invariant
                h@ == hs,
                hs == self.haystack(),
                sep == self.separator(),
                es == entries(hs, sep),
                prev_start <= prev_end <= h@.len(),
                prev_start == 0 || hs[prev_start - 1] == sep,
                prev_end == end_of(hs, sep, prev_start as int),
                0 <= idx < es.len(),
                es == es.take(idx) + entries_from(hs, sep, prev_start as int),
                es[idx] == hs.subrange(prev_start as int, prev_end as int),
                forall|n: int| 0 <= n < idx ==> lex_le(#[trigger] es[n], es[n + 1]),
            decreases h@.len() - prev_end,
        {
            let cur_start = prev_end + 1;
            let cur_end = scan_end(h, cur_start, sep);

            proof {
                lemma_end_of(hs, sep, prev_start as int);
                assert(hs[prev_end as int] == sep);
                lemma_entries_from_step(hs, sep, prev_start as int);
                lemma_entries_from_step(hs, sep, cur_start as int);
                assert(es =~= es.take(idx + 1) + entries_from(hs, sep, cur_start as int));
                assert(es[idx + 1] == hs.subrange(cur_start as int, cur_end as int));
            }

            let prev = vstd::slice::slice_subrange(h, prev_start, prev_end);
            let cur = vstd::slice::slice_subrange(h, cur_start, cur_end);

            match compare(prev, cur) {
                Rel::Greater => {
                    proof {
                        lemma_lex_trichotomy(es[idx], es[idx + 1]);
                        assert(!lex_le(es[idx], es[idx + 1]));
                        assert(!sorted(es));
                    }
                    return false;
                },
                _ => {},
            }

            prev_start = cur_start;
            prev_end = cur_end;
            proof {
                idx = idx + 1;
            }
        }

        proof {
            lemma_entries_from_step(hs, sep, prev_start as int);
            assert(entries_from(hs, sep, prev_start as int) =~= seq![
                hs.subrange(prev_start as int, prev_end as int),
            ]);
            assert(es.len() == idx + 1);
            lemma_adjacent_implies_sorted(es);
        }
        true
    }

    /// Creates an instance of [`SortedString`] without performing sanity
    /// checks.
    ///
    /// If the haystack is in fact unsorted, searches return wrong results
    /// (typically spurious failures), but they stay in bounds, panic-free and
    /// deterministic: the contract of [`SortedString::binary_search`] pins the
    /// outcome for any haystack, sorted or not.
    #[must_use]
    pub fn new_unchecked(string: &'a [u8], sep: Separator) -> (r: Self)
        ensures
            r.haystack() == string@,
            r.separator() == sep@,
    {
        Self::new(string, sep)
    }

    /// Convenience method to sort a haystack by a given separator, returning
    /// an owned copy with the same entries rearranged into non-decreasing
    /// lexicographic order and rejoined with the same separator.
    ///
    /// [`SortedString`] does not own its data, so this helper prepares a
    /// haystack in the required format before checked construction.
    #[must_use]
    pub fn sort(string: &[u8], sep: Separator) -> (r: Vec<u8>)
        ensures
            r@ == sorting::sort_spec(string@, sep@),
            sorted(entries(r@, sep@)),
            entries(r@, sep@).to_multiset() == entries(string@, sep@).to_multiset(),
    {
        proof {
            sorting::lemma_sort_spec_entries(string@, sep@);
        }
        sorting::sort_haystack(string, sep.as_byte())
    }
}

} // verus!
