use vstd::prelude::*;
use crate::capability::{consistent_comparisons, KmpMatchable, KmpSearchable};
use crate::table::{is_border, is_longest_border, longest_fallbacks, table_wf, KmpTableItem};

verus! {

/// The needle occurs in the haystack at position `p`: every needle element
/// matches the haystack element it is aligned with.
pub open spec fn occurs_at<N: KmpMatchable<H>, H>(needle: Seq<N>, hay: Seq<H>, p: int) -> bool {
    &&& 0 <= p
    &&& p + needle.len() <= hay.len()
    &&& forall|j: int| 0 <= j < needle.len() ==> (#[trigger] needle[j]).match_haystack_spec(&hay[p + j])
}

/// `p` is the first occurrence of the needle at or after `from`.
pub open spec fn is_first_occurrence_from<N: KmpMatchable<H>, H>(
    needle: Seq<N>,
    hay: Seq<H>,
    from: int,
    p: int,
) -> bool {
    &&& from <= p
    &&& occurs_at(needle, hay, p)
    &&& forall|q: int| from <= q < p ==> !occurs_at(needle, hay, q)
}

/// The needle does not occur at or after `from`.
pub open spec fn no_occurrence_from<N: KmpMatchable<H>, H>(needle: Seq<N>, hay: Seq<H>, from: int) -> bool {
    forall|q: int| from <= q ==> !occurs_at(needle, hay, q)
}

/// Where the search goes on after reporting a match at `p`.
pub open spec fn resume_after(p: int, needle_len: int, overlapping: bool) -> int {
    if overlapping || needle_len == 0 {
        p + 1
    } else {
        p + needle_len
    }
}

/// The positions reported from `from` on: the first occurrence, then the
/// positions reported from where the search resumes after it.
pub open spec fn matches_from<N: KmpMatchable<H>, H>(
    needle: Seq<N>,
    hay: Seq<H>,
    from: int,
    overlapping: bool,
) -> Seq<int>
    decreases hay.len() + 1 - from,
{
    if exists|p: int| is_first_occurrence_from(needle, hay, from, p) {
        let p = choose|p: int| is_first_occurrence_from(needle, hay, from, p);
        seq![p] + matches_from(needle, hay, resume_after(p, needle.len() as int, overlapping), overlapping)
    } else {
        Seq::empty()
    }
}

/// The comparison loop of one step. With `comparing` the element before the
/// haystack cursor is compared with the needle element at the needle cursor;
/// without it the next haystack element is taken first. A full match is
/// reported with the cursors reset; on a mismatch the needle cursor falls back
/// through the table, and both cursors are rewound by the entry's offset.
/// `fuel` bounds the number of moves.
pub open spec fn scan<N: KmpMatchable<H>, H>(
    needle: Seq<N>,
    t: Seq<KmpTableItem>,
    hay: Seq<H>,
    overlapping: bool,
    np: int,
    hp: int,
    comparing: bool,
    fuel: nat,
) -> (Option<int>, int, int)
    decreases fuel,
{
    if fuel == 0 {
        (None, np, hp)
    } else if !comparing {
        if hp >= hay.len() {
            (None, np, hp)
        } else {
            scan(needle, t, hay, overlapping, np, hp + 1, true, (fuel - 1) as nat)
        }
    } else if needle[np].match_haystack_spec(&hay[hp - 1]) {
        if np + 1 != needle.len() {
            scan(needle, t, hay, overlapping, np + 1, hp, false, (fuel - 1) as nat)
        } else if overlapping {
            (Some(hp - needle.len()), t[np].needle - t[np].haystack, hp - t[np].haystack)
        } else {
            (Some(hp - needle.len()), 0, hp)
        }
    } else if np == 0 {
        scan(needle, t, hay, overlapping, np, hp, false, (fuel - 1) as nat)
    } else {
        scan(
            needle,
            t,
            hay,
            overlapping,
            t[np - 1].needle - t[np - 1].haystack,
            hp - t[np - 1].haystack,
            true,
            (fuel - 1) as nat,
        )
    }
}

/// Enough moves for any step over a needle of length `n` and a haystack of
/// length `len`.
pub open spec fn step_fuel(n: int, len: int) -> nat {
    (2 * ((n + 1) * (len + 1)) + 2) as nat
}

/// One step of the search from cursors `np` and `hp`: the report, and the
/// cursors after it.
pub open spec fn search_step<N: KmpMatchable<H>, H>(
    needle: Seq<N>,
    t: Seq<KmpTableItem>,
    hay: Seq<H>,
    overlapping: bool,
    np: int,
    hp: int,
) -> (Option<int>, int, int) {
    if hp > hay.len() || needle.len() - np > hay.len() - hp {
        (None, np, hp)
    } else if needle.len() == 0 {
        (Some(hp), 0, hp + 1)
    } else {
        scan(needle, t, hay, overlapping, np, hp, false, step_fuel(needle.len() as int, hay.len() as int))
    }
}

/// The positions reported by steps from cursors `np` and `hp` up to the first
/// step that reports none, taking at most `fuel` steps.
pub open spec fn run<N: KmpMatchable<H>, H>(
    needle: Seq<N>,
    t: Seq<KmpTableItem>,
    hay: Seq<H>,
    overlapping: bool,
    np: int,
    hp: int,
    fuel: nat,
) -> Seq<int>
    decreases fuel,
{
    if fuel == 0 {
        Seq::empty()
    } else {
        let step = search_step(needle, t, hay, overlapping, np, hp);
        match step.0 {
            Some(p) => seq![p] + run(needle, t, hay, overlapping, step.1, step.2, (fuel - 1) as nat),
            None => Seq::empty(),
        }
    }
}

/// A report as an integer.
pub open spec fn report_of(r: Option<usize>) -> Option<int> {
    match r {
        Some(p) => Some(p as int),
        None => None,
    }
}

/// The alignment at `s` has not failed on any haystack element before `e`.
pub open spec fn alive<N: KmpMatchable<H>, H>(needle: Seq<N>, hay: Seq<H>, s: int, e: int) -> bool {
    forall|j: int| 0 <= j < needle.len() && s + j < e ==> (#[trigger] needle[j]).match_haystack_spec(&hay[s + j])
}

/// The first `np` needle elements match the haystack elements just before `e`.
pub open spec fn prefix_matched<N: KmpMatchable<H>, H>(needle: Seq<N>, hay: Seq<H>, np: int, e: int) -> bool {
    forall|j: int| 0 <= j < np ==> (#[trigger] needle[j]).match_haystack_spec(&hay[e - np + j])
}

pub(crate) proof fn lemma_first_occurrence_unique<N: KmpMatchable<H>, H>(
    needle: Seq<N>,
    hay: Seq<H>,
    from: int,
    p: int,
    q: int,
)
    requires
        is_first_occurrence_from(needle, hay, from, p),
        is_first_occurrence_from(needle, hay, from, q),
    ensures
        p == q,
{
}

proof fn lemma_dead_not_occurs<N: KmpMatchable<H>, H>(needle: Seq<N>, hay: Seq<H>, s: int, e: int)
    requires
        !alive(needle, hay, s, e),
        e <= hay.len(),
    ensures
        !occurs_at(needle, hay, s),
{
    let j = choose|j: int|
        !(0 <= j < needle.len() && s + j < e ==> (#[trigger] needle[j]).match_haystack_spec(&hay[s + j]));
    assert(!needle[j].match_haystack_spec(&hay[s + j]));
}

/// After a match of the first `np` needle elements ending before `e`, an
/// alignment between that one and the one of the longest border cannot have
/// survived: it would make a longer border.
proof fn lemma_skipped_alignment_dead<N: KmpSearchable + KmpMatchable<H>, H>(
    needle: Seq<N>,
    hay: Seq<H>,
    np: int,
    e: int,
    k: int,
    s: int,
)
    requires
        consistent_comparisons::<N, H>(),
        0 < np <= needle.len(),
        np <= e <= hay.len(),
        prefix_matched(needle, hay, np, e),
        is_longest_border(needle, np, k),
        e - np < s < e - k,
    ensures
        !alive(needle, hay, s, e),
{
    let m = e - s;
    if alive(needle, hay, s, e) {
        assert forall|j: int| 0 <= j < m implies (#[trigger] needle[np - m + j]).match_possible_spec(&needle[j]) by {
            assert(needle[j].match_haystack_spec(&hay[s + j]));
            assert(needle[np - m + j].match_haystack_spec(&hay[e - np + (np - m + j)]));
        }
        assert(is_border(needle, np, m));
    }
}

/// Moving a matched prefix onto one of its borders keeps it matched, and so
/// does dropping the last `h` elements of that border.
proof fn lemma_border_prefix_matched<N: KmpSearchable + KmpMatchable<H>, H>(
    needle: Seq<N>,
    hay: Seq<H>,
    np: int,
    e: int,
    k: int,
    h: int,
)
    requires
        consistent_comparisons::<N, H>(),
        prefix_matched(needle, hay, np, e),
        is_border(needle, np, k),
        0 <= h <= k,
    ensures
        prefix_matched(needle, hay, k - h, e - h),
{
    assert forall|j: int| 0 <= j < k - h implies (#[trigger] needle[j]).match_haystack_spec(
        &hay[e - h - (k - h) + j],
    ) by {
        assert(needle[np - k + j].match_possible_spec(&needle[j]));
        assert(needle[np - k + j].match_haystack_spec(&hay[e - np + (np - k + j)]));
    }
}

proof fn lemma_fallback_progress(n: int, hp: int, np: int, k: int, h: int)
    requires
        0 <= h <= k < np < n,
    ensures
        (n + 1) * (hp - h) - n * (k - h) >= (n + 1) * hp - n * np + 1,
{
    assert((n + 1) * (hp - h) - n * (k - h) - ((n + 1) * hp - n * np) == n * (np - k) - h)
        by (nonlinear_arith);
    assert(n * (np - k) >= n) by (nonlinear_arith)
        requires
            np - k >= 1,
            n >= 0,
    ;
}

proof fn lemma_reset_progress(n: int, hp: int, k: int, h: int)
    requires
        0 <= h <= k < n,
    ensures
        (n + 1) * (hp - h) - n * (k - h) >= (n + 1) * hp - n * n + 1,
        (n + 1) * hp - n * 0 >= (n + 1) * hp - n * n,
{
    lemma_fallback_progress(n + 1, hp, n, k, h);
    assert((n + 1) * (hp - h) - n * (k - h) - ((n + 1) * hp - n * n) == n * (n - k) - h)
        by (nonlinear_arith);
    assert(n * (n - k) >= n) by (nonlinear_arith)
        requires
            n - k >= 1,
            n >= 0,
    ;
    assert(n * n >= 0) by (nonlinear_arith);
}

proof fn lemma_progress_nonneg(n: int, hp: int, np: int)
    requires
        0 <= n,
        0 <= np <= hp,
    ensures
        (n + 1) * hp - n * np >= 0,
{
    assert((n + 1) * hp - n * np == n * (hp - np) + hp) by (nonlinear_arith);
    assert(n * (hp - np) >= 0) by (nonlinear_arith)
        requires
            0 <= n,
            0 <= hp - np,
    ;
}

proof fn lemma_progress_bounded(n: int, hp: int, np: int, len: int)
    requires
        0 <= n,
        0 <= np,
        0 <= hp <= len + 1,
    ensures
        (n + 1) * hp - n * np <= (n + 1) * (len + 1),
{
    assert((n + 1) * hp <= (n + 1) * (len + 1)) by (nonlinear_arith)
        requires
            0 <= n,
            hp <= len + 1,
    ;
    assert(n * np >= 0) by (nonlinear_arith)
        requires
            0 <= n,
            0 <= np,
    ;
}

/// A search for one needle through one haystack, reporting match positions
/// one at a time; `OVERLAPPING` selects whether matches may share elements.
pub struct KmpSearch<'a, N, H, const OVERLAPPING: bool> {
    needle: &'a [N],
    lsp: &'a [KmpTableItem],
    haystack: &'a [H],
    needle_pos: usize,
    haystack_pos: usize,
    /// The position from which the next report is the first occurrence.
    from: Ghost<int>,
}

impl<'a, N: KmpSearchable + KmpMatchable<H>, H, const OVERLAPPING: bool> KmpSearch<'a, N, H, OVERLAPPING> {
    pub closed spec fn needle_seq(&self) -> Seq<N> {
        self.needle@
    }

    pub closed spec fn table_seq(&self) -> Seq<KmpTableItem> {
        self.lsp@
    }

    pub closed spec fn haystack_seq(&self) -> Seq<H> {
        self.haystack@
    }

    /// The position from which the next report is the first occurrence.
    pub closed spec fn from(&self) -> int {
        self.from@
    }

    pub closed spec fn needle_pos(&self) -> int {
        self.needle_pos as int
    }

    pub closed spec fn haystack_pos(&self) -> int {
        self.haystack_pos as int
    }

    /// The step that `next` takes from this state.
    pub open spec fn step(&self) -> (Option<int>, int, int) {
        search_step(
            self.needle_seq(),
            self.table_seq(),
            self.haystack_seq(),
            OVERLAPPING,
            self.needle_pos(),
            self.haystack_pos(),
        )
    }

    /// The positions that `collect` returns from this state.
    pub open spec fn remaining(&self) -> Seq<int> {
        run(
            self.needle_seq(),
            self.table_seq(),
            self.haystack_seq(),
            OVERLAPPING,
            self.needle_pos(),
            self.haystack_pos(),
            (self.progress_bound() - self.progress() + 1) as nat,
        )
    }

    /// Grows with every reported match and is bounded by `progress_bound`.
    pub open spec fn progress(&self) -> int {
        (self.needle_seq().len() + 1) * self.haystack_pos() - self.needle_seq().len() * self.needle_pos()
    }

    pub open spec fn progress_bound(&self) -> int {
        ((self.needle_seq().len() + 1) * (self.haystack_seq().len() + 1)) as int
    }

    /// The reports are exact: the needle is empty, or the comparisons are
    /// consistent and each fallback of the table is a longest border.
    pub open spec fn reports_exact(&self) -> bool {
        ||| self.needle_seq().len() == 0
        ||| consistent_comparisons::<N, H>() && longest_fallbacks(self.needle_seq(), self.table_seq())
    }

    /// What holds of the cursors when reports are exact: the matched prefix,
    /// and no occurrence between `from` and the current alignment.
    closed spec fn exact_inv(&self) -> bool {
        let n = self.needle@.len() as int;
        let hp = self.haystack_pos as int;
        let np = self.needle_pos as int;
        &&& prefix_matched(self.needle@, self.haystack@, np, hp)
        &&& 0 <= self.from@ <= hp - np
        &&& n == 0 ==> self.from@ == hp
        &&& forall|s: int| self.from@ <= s < hp - np ==> !occurs_at(self.needle@, self.haystack@, s)
    }

    pub closed spec fn wf(&self) -> bool {
        let n = self.needle@.len() as int;
        &&& table_wf(self.lsp@, n)
        &&& self.haystack@.len() < usize::MAX
        &&& n > 0 ==> self.needle_pos < n && self.needle_pos <= self.haystack_pos <= self.haystack@.len()
        &&& n == 0 ==> self.needle_pos == 0 && self.haystack_pos <= self.haystack@.len() + 1
        &&& self.reports_exact() ==> self.exact_inv()
    }

    /// Starts a search at the beginning of `haystack`, with `lsp` the failure
    /// table of `needle`.
    pub fn new(needle: &'a [N], lsp: &'a [KmpTableItem], haystack: &'a [H]) -> (r: Self)
        requires
            table_wf(lsp@, needle@.len() as int),
            haystack@.len() < usize::MAX,
        ensures
            r.wf(),
            r.needle_seq() == needle@,
            r.table_seq() == lsp@,
            r.haystack_seq() == haystack@,
            r.from() == 0,
            r.progress() == 0,
            r.needle_pos() == 0,
            r.haystack_pos() == 0,
    {
        proof {
            let n = needle@.len() as int;
            assert((n + 1) * 0 - n * 0 == 0) by (nonlinear_arith);
        }
        KmpSearch { needle, lsp, haystack, needle_pos: 0, haystack_pos: 0, from: Ghost(0) }
    }
    /// Reports the next match position, or `None` once there is none left.
    #[verifier::loop_isolation(false)]
    pub fn next(&mut self) -> (r: Option<usize>)
        requires
            old(self).wf(),
        ensures
            final(self).wf(),
            final(self).needle_seq() == old(self).needle_seq(),
            final(self).table_seq() == old(self).table_seq(),
            final(self).haystack_seq() == old(self).haystack_seq(),
            final(self).progress() <= final(self).progress_bound(),
            r is Some ==> final(self).progress() > old(self).progress(),
            r matches Some(p) ==> p + old(self).needle_seq().len() <= old(self).haystack_seq().len(),
            report_of(r) == old(self).step().0,
            final(self).needle_pos() == old(self).step().1,
            final(self).haystack_pos() == old(self).step().2,
            old(self).reports_exact() ==> match r {
                Some(p) => {
                    &&& is_first_occurrence_from(
                        old(self).needle_seq(),
                        old(self).haystack_seq(),
                        old(self).from(),
                        p as int,
                    )
                    &&& final(self).from() == resume_after(
                        p as int,
                        old(self).needle_seq().len() as int,
                        OVERLAPPING,
                    )
                },
                None => {
                    &&& no_occurrence_from(old(self).needle_seq(), old(self).haystack_seq(), old(self).from())
                    &&& final(self).from() == old(self).from()
                },
            },
    {
        let needle_len = self.needle.len();
        let ghost n = needle_len as int;
        let ghost exact = self.reports_exact();
        let ghost m0 = self.progress();
        let ghost needle_s = self.needle@;
        let ghost hay_s = self.haystack@;
        let ghost from = self.from@;
        let ghost step0 = self.step();
        let ghost lsp_s = self.lsp@;
        let ghost bound = self.progress_bound();
        if self.haystack_pos > self.haystack.len()
            || needle_len - self.needle_pos > self.haystack.len() - self.haystack_pos {
            proof {
                lemma_progress_bounded(n, self.haystack_pos as int, self.needle_pos as int, hay_s.len() as int);
            }
            return None;
        }
        if needle_len == 0 {
            proof {
                assert((0 + 1) * (self.haystack_pos as int) - 0 * 0 == self.haystack_pos as int) by (nonlinear_arith);
            }
            self.haystack_pos = self.haystack_pos + 1;
            self.from = Ghost(self.from@ + 1);
            proof {
                assert((0 + 1) * (self.haystack_pos as int) - 0 * 0 == self.haystack_pos as int) by (nonlinear_arith);
                lemma_progress_bounded(n, self.haystack_pos as int, self.needle_pos as int, hay_s.len() as int);
            }
            return Some(self.haystack_pos - 1);
        }
        let ghost mut fuel: nat = step_fuel(n, hay_s.len() as int);
        proof {
            lemma_progress_nonneg(n, self.haystack_pos as int, self.needle_pos as int);
            lemma_progress_bounded(n, self.haystack_pos as int, self.needle_pos as int, hay_s.len() as int);
        }
        loop
            invariant
                bound == self.progress_bound(),
                scan(needle_s, lsp_s, hay_s, OVERLAPPING, self.needle_pos as int, self.haystack_pos as int, false, fuel)
                    == step0,
                fuel >= 2 * bound - 2 * self.progress() + 1,
                n > 0,
                needle_len == n,
                self.needle@ == needle_s,
                self.haystack@ == hay_s,
                self.lsp@ == old(self).lsp@,
                self.from@ == from,
                n == needle_s.len(),
                exact == self.reports_exact(),
                table_wf(self.lsp@, n),
                hay_s.len() < usize::MAX,
                self.needle_pos < n,
                self.needle_pos <= self.haystack_pos <= hay_s.len(),
                exact ==> self.exact_inv(),
                self.progress() >= m0,
            decreases self.progress_bound() - self.progress(),
        {
            proof {
                lemma_progress_bounded(n, self.haystack_pos as int, self.needle_pos as int, hay_s.len() as int);
            }
            if self.haystack_pos >= self.haystack.len() {
                return None;
            }
            let ghost m_top = self.progress();
            self.haystack_pos = self.haystack_pos + 1;
            proof {
                fuel = (fuel - 1) as nat;
            }
            proof {
                let hp0 = self.haystack_pos - 1;
                let np0 = self.needle_pos as int;
                assert((n + 1) * (hp0 + 1) - n * np0 == (n + 1) * hp0 - n * np0 + n + 1) by (nonlinear_arith);
            }
            loop
                invariant
                    bound == self.progress_bound(),
                    scan(needle_s, lsp_s, hay_s, OVERLAPPING, self.needle_pos as int, self.haystack_pos as int, true, fuel)
                        == step0,
                    fuel >= 2 * bound - 2 * self.progress() + 2 * n + 2,
                    n > 0,
                    needle_len == n,
                    self.needle@ == needle_s,
                    self.haystack@ == hay_s,
                    self.lsp@ == old(self).lsp@,
                    self.from@ == from,
                    n == needle_s.len(),
                    exact == self.reports_exact(),
                    table_wf(self.lsp@, n),
                    hay_s.len() < usize::MAX,
                    self.needle_pos < n,
                    self.needle_pos + 1 <= self.haystack_pos <= hay_s.len(),
                    self.progress() >= m_top + n + 1,
                    m_top >= m0,
                    exact ==> {
                        let hi = self.haystack_pos - 1;
                        &&& prefix_matched(needle_s, hay_s, self.needle_pos as int, hi)
                        &&& from <= hi - self.needle_pos
                        &&& forall|s: int| from <= s < hi - self.needle_pos ==> !occurs_at(needle_s, hay_s, s)
                    },
                decreases self.needle_pos,
            {
                let ghost np = self.needle_pos as int;
                let ghost hp = self.haystack_pos as int;
                let ghost hi = hp - 1;
                proof {
                    lemma_progress_bounded(n, hp, np, hay_s.len() as int);
                }
                if self.needle[self.needle_pos].match_haystack(&self.haystack[self.haystack_pos - 1]) {
                    self.needle_pos = self.needle_pos + 1;
                    proof {
                        assert((n + 1) * hp - n * (np + 1) == (n + 1) * hp - n * np - n) by (nonlinear_arith);
                        if exact {
                            assert forall|j: int| 0 <= j < np + 1 implies (#[trigger] needle_s[j]).match_haystack_spec(
                                &hay_s[hp - (np + 1) + j],
                            ) by {
                                if j < np {
                                    assert(needle_s[j].match_haystack_spec(&hay_s[hi - np + j]));
                                }
                            }
                        }
                    }
                    if self.needle_pos != needle_len {
                        proof {
                            fuel = (fuel - 1) as nat;
                        }
                        break;
                    }
                    let match_pos = self.haystack_pos - needle_len;
                    proof {
                        if exact {
                            assert(occurs_at(needle_s, hay_s, match_pos as int));
                        }
                    }
                    if OVERLAPPING {
                        let back = self.lsp[self.needle_pos - 1];
                        proof {
                            assert(back.haystack == self.lsp@[n - 1].haystack);
                            lemma_reset_progress(n, hp, back.needle as int, back.haystack as int);
                        }
                        self.needle_pos = back.needle;
                        if back.haystack != 0 {
                            self.needle_pos = self.needle_pos - back.haystack;
                            self.haystack_pos = self.haystack_pos - back.haystack;
                        }
                        self.from = Ghost(match_pos + 1);
                        proof {
                            if exact {
                                let k = back.needle as int;
                                assert(is_longest_border(needle_s, n, k));
                                lemma_border_prefix_matched(needle_s, hay_s, n, hp, k, back.haystack as int);
                                assert forall|s: int| match_pos + 1 <= s < hp - k implies !occurs_at(
                                    needle_s,
                                    hay_s,
                                    s,
                                ) by {
                                    lemma_skipped_alignment_dead(needle_s, hay_s, n, hp, k, s);
                                    lemma_dead_not_occurs(needle_s, hay_s, s, hp);
                                }
                            }
                        }
                    } else {
                        self.needle_pos = 0;
                        self.from = Ghost(match_pos + needle_len);
                        proof {
                            lemma_reset_progress(n, hp, 0, 0);
                        }
                    }
                    proof {
                        lemma_progress_bounded(n, self.haystack_pos as int, self.needle_pos as int, hay_s.len() as int);
                    }
                    return Some(match_pos);
                }
                proof {
                    if exact {
                        assert(!occurs_at(needle_s, hay_s, hi - np)) by {
                            assert(!needle_s[np].match_haystack_spec(&hay_s[hi - np + np]));
                        }
                    }
                }
                if self.needle_pos == 0 {
                    proof {
                        fuel = (fuel - 1) as nat;
                    }
                    break;
                }
                let back = self.lsp[self.needle_pos - 1];
                proof {
                    assert(back.haystack == self.lsp@[np - 1].haystack);
                    lemma_fallback_progress(n, hp, np, back.needle as int, back.haystack as int);
                }
                self.needle_pos = back.needle;
                if back.haystack != 0 {
                    self.needle_pos = self.needle_pos - back.haystack;
                    self.haystack_pos = self.haystack_pos - back.haystack;
                }
                proof {
                    fuel = (fuel - 1) as nat;
                    if exact {
                        let k = back.needle as int;
                        let h = back.haystack as int;
                        assert(is_longest_border(needle_s, np, k));
                        lemma_border_prefix_matched(needle_s, hay_s, np, hi, k, h);
                        assert forall|s: int| from <= s < hi - k implies !occurs_at(needle_s, hay_s, s) by {
                            if s > hi - np {
                                lemma_skipped_alignment_dead(needle_s, hay_s, np, hi, k, s);
                                lemma_dead_not_occurs(needle_s, hay_s, s, hi);
                            }
                        }
                    }
                }
            }
            proof {
                lemma_progress_bounded(n, self.haystack_pos as int, self.needle_pos as int, hay_s.len() as int);
            }
        }
    }

    /// Runs the search to its end and returns every reported position, in order.
    #[verifier::loop_isolation(false)]
    pub fn collect(self) -> (r: Vec<usize>)
        requires
            self.wf(),
        ensures
            forall|i: int|
                0 <= i < r@.len() ==> r@[i] + self.needle_seq().len() <= self.haystack_seq().len(),
            r@.map_values(|p: usize| p as int) == self.remaining(),
            self.reports_exact() ==> r@.map_values(|p: usize| p as int) == matches_from(
                self.needle_seq(),
                self.haystack_seq(),
                self.from(),
                OVERLAPPING,
            ),
    {
        let ghost needle_s = self.needle@;
        let ghost hay_s = self.haystack@;
        let ghost start = self.from@;
        let ghost exact = self.reports_exact();
        let ghost total = self.remaining();
        let ghost mut rf: nat = (self.progress_bound() - self.progress() + 1) as nat;
        let mut search = self;
        let mut found: Vec<usize> = Vec::new();
        proof {
            lemma_progress_bounded(
                needle_s.len() as int,
                search.haystack_pos as int,
                search.needle_pos as int,
                hay_s.len() as int,
            );
            assert(found@.map_values(|p: usize| p as int) =~= Seq::<int>::empty());
        }
        loop
            invariant
                search.wf(),
                search.needle@ == needle_s,
                search.haystack@ == hay_s,
                search.lsp@ == self.lsp@,
                exact == search.reports_exact(),
                search.progress() <= search.progress_bound(),
                rf >= search.progress_bound() - search.progress() + 1,
                found@.map_values(|p: usize| p as int) + run(
                    needle_s,
                    self.lsp@,
                    hay_s,
                    OVERLAPPING,
                    search.needle_pos(),
                    search.haystack_pos(),
                    rf,
                ) == total,
                forall|i: int| 0 <= i < found@.len() ==> found@[i] + needle_s.len() <= hay_s.len(),
                exact ==> found@.map_values(|p: usize| p as int) + matches_from(
                    needle_s,
                    hay_s,
                    search.from(),
                    OVERLAPPING,
                ) == matches_from(needle_s, hay_s, start, OVERLAPPING),
            decreases search.progress_bound() - search.progress(),
        {
            let ghost before = search.from();
            let ghost rest_before = run(
                needle_s,
                self.lsp@,
                hay_s,
                OVERLAPPING,
                search.needle_pos(),
                search.haystack_pos(),
                rf,
            );
            match search.next() {
                Some(p) => {
                    let ghost prev = found@.map_values(|p: usize| p as int);
                    found.push(p);
                    proof {
                        let rest = run(
                            needle_s,
                            self.lsp@,
                            hay_s,
                            OVERLAPPING,
                            search.needle_pos(),
                            search.haystack_pos(),
                            (rf - 1) as nat,
                        );
                        assert(rest_before == seq![p as int] + rest);
                        assert(found@.map_values(|p: usize| p as int) =~= prev.push(p as int));
                        assert(prev.push(p as int) + rest =~= prev + (seq![p as int] + rest));
                        rf = (rf - 1) as nat;
                        if exact {
                            let rest = matches_from(needle_s, hay_s, search.from(), OVERLAPPING);
                            let q = choose|q: int| is_first_occurrence_from(needle_s, hay_s, before, q);
                            lemma_first_occurrence_unique(needle_s, hay_s, before, p as int, q);
                            assert(matches_from(needle_s, hay_s, before, OVERLAPPING) == seq![p as int] + rest);
                            assert(found@.map_values(|p: usize| p as int) =~= prev.push(p as int));
                            assert(prev.push(p as int) + rest =~= prev + (seq![p as int] + rest));
                        }
                    }
                },
                None => {
                    proof {
                        assert(rest_before == Seq::<int>::empty());
                        assert(found@.map_values(|p: usize| p as int) + Seq::<int>::empty()
                            =~= found@.map_values(|p: usize| p as int));
                        if exact {
                            assert(!exists|q: int| is_first_occurrence_from(needle_s, hay_s, before, q));
                            assert(matches_from(needle_s, hay_s, before, OVERLAPPING) == Seq::<int>::empty());
                            assert(found@.map_values(|p: usize| p as int) + Seq::<int>::empty()
                                =~= found@.map_values(|p: usize| p as int));
                        }
                    }
                    return found;
                },
            }
        }
    }
}

} // verus!
