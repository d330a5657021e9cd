use vstd::prelude::*;
use crate::capability::{KmpMatchable, KmpSearchable};
use crate::search::{
    is_first_occurrence_from, lemma_first_occurrence_unique, matches_from, occurs_at, KmpSearch,
};

verus! {

proof fn lemma_first_occurrence_exists<N: KmpMatchable<H>, H>(needle: Seq<N>, hay: Seq<H>, from: int, q: int)
    requires
        from <= q,
        occurs_at(needle, hay, q),
    ensures
        exists|p: int| is_first_occurrence_from(needle, hay, from, p),
    decreases q - from,
{
    if exists|q2: int| from <= q2 < q && occurs_at(needle, hay, q2) {
        let q2 = choose|q2: int| from <= q2 < q && occurs_at(needle, hay, q2);
        lemma_first_occurrence_exists(needle, hay, from, q2);
    } else {
        assert(is_first_occurrence_from(needle, hay, from, q));
    }
}

/// In overlapping mode the reported positions are exactly the positions at or
/// after `from` where the needle occurs, in strictly increasing order.
pub proof fn lemma_overlapping_matches_are_occurrences<N: KmpMatchable<H>, H>(
    needle: Seq<N>,
    hay: Seq<H>,
    from: int,
)
    ensures
        forall|p: int|
            #[trigger] matches_from(needle, hay, from, true).contains(p) <==> from <= p && occurs_at(
                needle,
                hay,
                p,
            ),
        forall|i: int, j: int|
            0 <= i < j < matches_from(needle, hay, from, true).len() ==> matches_from(
                needle,
                hay,
                from,
                true,
            )[i] < matches_from(needle, hay, from, true)[j],
    decreases hay.len() + 1 - from,
{
    let ms = matches_from(needle, hay, from, true);
    if exists|p: int| is_first_occurrence_from(needle, hay, from, p) {
        let p = choose|p: int| is_first_occurrence_from(needle, hay, from, p);
        let rest = matches_from(needle, hay, p + 1, true);
        lemma_overlapping_matches_are_occurrences(needle, hay, p + 1);
        assert(ms == seq![p] + rest);
        assert forall|x: int| #[trigger] ms.contains(x) <==> from <= x && occurs_at(needle, hay, x) by {
            if ms.contains(x) {
                let i = choose|i: int| 0 <= i < ms.len() && ms[i] == x;
                if i > 0 {
                    assert(rest[i - 1] == x);
                    assert(rest.contains(x));
                }
            }
            if from <= x && occurs_at(needle, hay, x) {
                if x == p {
                    assert(ms[0] == x);
                } else {
                    assert(rest.contains(x));
                    let i = choose|i: int| 0 <= i < rest.len() && rest[i] == x;
                    assert(ms[i + 1] == x);
                }
            }
        }
        assert forall|i: int, j: int| 0 <= i < j < ms.len() implies ms[i] < ms[j] by {
            if i == 0 {
                assert(rest.contains(ms[j])) by {
                    assert(rest[j - 1] == ms[j]);
                }
            } else {
                assert(ms[i] == rest[i - 1] && ms[j] == rest[j - 1]);
            }
        }
    } else {
        assert forall|x: int| #[trigger] ms.contains(x) <==> from <= x && occurs_at(needle, hay, x) by {
            if from <= x && occurs_at(needle, hay, x) {
                lemma_first_occurrence_exists(needle, hay, from, x);
            }
        }
    }
}

/// An overlapping search reports exactly the positions where the needle
/// occurs, each once and in increasing order: the classical result.
pub proof fn law_overlapping_search_is_classical<N: KmpMatchable<H>, H>(needle: Seq<N>, hay: Seq<H>)
    ensures
        forall|p: int| #[trigger]
            matches_from(needle, hay, 0, true).contains(p) <==> occurs_at(needle, hay, p),
        forall|i: int, j: int|
            0 <= i < j < matches_from(needle, hay, 0, true).len() ==> matches_from(needle, hay, 0, true)[i]
                < matches_from(needle, hay, 0, true)[j],
{
    lemma_overlapping_matches_are_occurrences(needle, hay, 0);
}

/// In non-overlapping mode, from `from` on, each reported position is an
/// occurrence and each lies at least a needle length past the one before.
pub proof fn lemma_disjoint_matches_spaced<N: KmpMatchable<H>, H>(needle: Seq<N>, hay: Seq<H>, from: int)
    requires
        needle.len() > 0,
    ensures
        forall|i: int|
            0 <= i < matches_from(needle, hay, from, false).len() ==> from <= #[trigger] matches_from(
                needle,
                hay,
                from,
                false,
            )[i] && occurs_at(needle, hay, matches_from(needle, hay, from, false)[i]),
        forall|i: int, j: int|
            0 <= i < j < matches_from(needle, hay, from, false).len() ==> matches_from(
                needle,
                hay,
                from,
                false,
            )[i] + needle.len() <= matches_from(needle, hay, from, false)[j],
    decreases hay.len() + 1 - from,
{
    let n = needle.len() as int;
    let ms = matches_from(needle, hay, from, false);
    if exists|p: int| is_first_occurrence_from(needle, hay, from, p) {
        let p = choose|p: int| is_first_occurrence_from(needle, hay, from, p);
        let rest = matches_from(needle, hay, p + n, false);
        lemma_disjoint_matches_spaced(needle, hay, p + n);
        assert(ms == seq![p] + rest);
        assert forall|i: int| 0 <= i < ms.len() implies from <= #[trigger] ms[i] && occurs_at(needle, hay, ms[i]) by {
            if i > 0 {
                assert(ms[i] == rest[i - 1]);
            }
        }
        assert forall|i: int, j: int| 0 <= i < j < ms.len() implies ms[i] + n <= ms[j] by {
            assert(ms[j] == rest[j - 1]);
            if i > 0 {
                assert(ms[i] == rest[i - 1]);
            }
        }
    }
}

/// In non-overlapping mode every occurrence at or after `from` overlaps a
/// reported position.
pub proof fn lemma_disjoint_matches_cover_occurrences<N: KmpMatchable<H>, H>(
    needle: Seq<N>,
    hay: Seq<H>,
    from: int,
)
    requires
        needle.len() > 0,
    ensures
        forall|q: int|
            from <= q && #[trigger] occurs_at(needle, hay, q) ==> exists|i: int|
                0 <= i < matches_from(needle, hay, from, false).len() && #[trigger] matches_from(
                    needle,
                    hay,
                    from,
                    false,
                )[i] <= q < matches_from(needle, hay, from, false)[i] + needle.len(),
    decreases hay.len() + 1 - from,
{
    let n = needle.len() as int;
    let ms = matches_from(needle, hay, from, false);
    if exists|p: int| is_first_occurrence_from(needle, hay, from, p) {
        let p = choose|p: int| is_first_occurrence_from(needle, hay, from, p);
        let rest = matches_from(needle, hay, p + n, false);
        lemma_disjoint_matches_cover_occurrences(needle, hay, p + n);
        assert(ms == seq![p] + rest);
        assert forall|q: int| from <= q && #[trigger] occurs_at(needle, hay, q) implies exists|i: int|
            0 <= i < ms.len() && #[trigger] ms[i] <= q < ms[i] + n by {
            if q < p + n {
                assert(ms[0] <= q < ms[0] + n);
            } else {
                let i = choose|i: int| 0 <= i < rest.len() && #[trigger] rest[i] <= q < rest[i] + n;
                assert(ms[i + 1] == rest[i]);
            }
        }
    } else {
        assert forall|q: int| from <= q && #[trigger] occurs_at(needle, hay, q) implies exists|i: int|
            0 <= i < ms.len() && #[trigger] ms[i] <= q < ms[i] + n by {
            lemma_first_occurrence_exists(needle, hay, from, q);
        }
    }
}

/// A non-overlapping search reports the classical result: occurrences taken
/// from the left, each a needle length past the one before, with every
/// occurrence overlapping a reported one.
pub proof fn law_disjoint_search_is_classical<N: KmpMatchable<H>, H>(needle: Seq<N>, hay: Seq<H>)
    requires
        needle.len() > 0,
    ensures
        forall|i: int|
            0 <= i < matches_from(needle, hay, 0, false).len() ==> occurs_at(
                needle,
                hay,
                #[trigger] matches_from(needle, hay, 0, false)[i],
            ),
        forall|i: int, j: int|
            0 <= i < j < matches_from(needle, hay, 0, false).len() ==> matches_from(needle, hay, 0, false)[i]
                + needle.len() <= matches_from(needle, hay, 0, false)[j],
        forall|q: int| #[trigger]
            occurs_at(needle, hay, q) ==> exists|i: int|
                0 <= i < matches_from(needle, hay, 0, false).len() && #[trigger] matches_from(needle, hay, 0, false)[i]
                    <= q < matches_from(needle, hay, 0, false)[i] + needle.len(),
{
    lemma_disjoint_matches_spaced(needle, hay, 0);
    lemma_disjoint_matches_cover_occurrences(needle, hay, 0);
}

proof fn lemma_empty_needle_matches<N: KmpMatchable<H>, H>(
    needle: Seq<N>,
    hay: Seq<H>,
    from: int,
    overlapping: bool,
)
    requires
        needle.len() == 0,
        0 <= from <= hay.len() + 1,
    ensures
        matches_from(needle, hay, from, overlapping) == Seq::new(
            (hay.len() + 1 - from) as nat,
            |i: int| from + i,
        ),
    decreases hay.len() + 1 - from,
{
    if from <= hay.len() {
        assert(is_first_occurrence_from(needle, hay, from, from));
        let p = choose|p: int| is_first_occurrence_from(needle, hay, from, p);
        lemma_first_occurrence_unique(needle, hay, from, from, p);
        lemma_empty_needle_matches(needle, hay, from + 1, overlapping);
        assert(matches_from(needle, hay, from, overlapping) =~= Seq::new(
            (hay.len() + 1 - from) as nat,
            |i: int| from + i,
        ));
    } else {
        assert(!exists|p: int| is_first_occurrence_from(needle, hay, from, p));
        assert(matches_from(needle, hay, from, overlapping) =~= Seq::new(
            (hay.len() + 1 - from) as nat,
            |i: int| from + i,
        ));
    }
}

/// An empty needle is reported at every position of the haystack and at its
/// end, in either mode.
pub proof fn law_empty_needle_matches_everywhere<N: KmpMatchable<H>, H>(
    needle: Seq<N>,
    hay: Seq<H>,
    overlapping: bool,
)
    requires
        needle.len() == 0,
    ensures
        matches_from(needle, hay, 0, overlapping) == Seq::new((hay.len() + 1) as nat, |i: int| i),
{
    lemma_empty_needle_matches(needle, hay, 0, overlapping);
    assert(Seq::new((hay.len() + 1 - 0) as nat, |i: int| 0 + i) =~= Seq::new(
        (hay.len() + 1) as nat,
        |i: int| i,
    ));
}

/// A needle longer than the haystack is never reported.
pub proof fn law_long_needle_never_matches<N: KmpMatchable<H>, H>(
    needle: Seq<N>,
    hay: Seq<H>,
    from: int,
    overlapping: bool,
)
    requires
        needle.len() > hay.len(),
    ensures
        matches_from(needle, hay, from, overlapping) == Seq::<int>::empty(),
{
    assert(!exists|p: int| is_first_occurrence_from(needle, hay, from, p));
}

/// Two searches over the same needle, table and haystack, with the same
/// cursors, each run to its end, report the same positions, whatever the
/// comparisons are. Two fresh searches of one pattern are such searches.
pub proof fn law_search_repeatable<'a, N: KmpSearchable + KmpMatchable<H>, H, const OVERLAPPING: bool>(
    a: KmpSearch<'a, N, H, OVERLAPPING>,
    b: KmpSearch<'a, N, H, OVERLAPPING>,
    ra: Seq<usize>,
    rb: Seq<usize>,
)
    requires
        b.needle_seq() == a.needle_seq(),
        b.table_seq() == a.table_seq(),
        b.haystack_seq() == a.haystack_seq(),
        b.needle_pos() == a.needle_pos(),
        b.haystack_pos() == a.haystack_pos(),
        ra.map_values(|p: usize| p as int) == a.remaining(),
        rb.map_values(|p: usize| p as int) == b.remaining(),
    ensures
        ra == rb,
{
    let ma = ra.map_values(|p: usize| p as int);
    let mb = rb.map_values(|p: usize| p as int);
    assert(ma == mb);
    assert(ma.len() == ra.len() && mb.len() == rb.len());
    assert forall|i: int| 0 <= i < ra.len() implies ra[i] == rb[i] by {
        assert(ma[i] == mb[i]);
    }
    assert(ra =~= rb);
}

} // verus!
