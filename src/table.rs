use vstd::prelude::*;
use crate::capability::{possible_equivalence, KmpSearchable};

verus! {

/// The failure-table entry of one needle position.
#[derive(Debug, Clone, Copy)]
pub struct KmpTableItem {
    /// Needle cursor to resume at after a mismatch past this position.
    pub needle: usize,
    /// How many of the elements matched up to `needle` were only possible
    /// matches; the haystack cursor is rewound by this much on a fallback.
    pub haystack: usize,
}

/// A failure table borrowed from its owner.
pub type KmpTable<'a> = &'a [KmpTableItem];

/// An owned failure table.
pub type KmpOwnedTable = Vec<KmpTableItem>;

impl KmpTableItem {
    pub fn needle(&self) -> (r: usize)
        ensures
            r == self.needle,
    {
        self.needle
    }

    pub fn haystack(&self) -> (r: usize)
        ensures
            r == self.haystack,
    {
        self.haystack
    }
}

/// `k` is the length of a proper border of the first `len` elements of `s`:
/// a prefix that possibly matches the suffix of that length, element by element.
pub open spec fn is_border<N: KmpSearchable>(s: Seq<N>, len: int, k: int) -> bool {
    &&& 0 <= k < len <= s.len()
    &&& forall|j: int| 0 <= j < k ==> (#[trigger] s[len - k + j]).match_possible_spec(&s[j])
}

/// `k` is the longest proper border of the first `len` elements of `s`.
pub open spec fn is_longest_border<N: KmpSearchable>(s: Seq<N>, len: int, k: int) -> bool {
    &&& is_border(s, len, k)
    &&& forall|k2: int| k < k2 < len ==> !is_border(s, len, k2)
}

/// Each entry points strictly back into the needle, and its provisional offset
/// never exceeds its fallback cursor.
pub open spec fn table_wf(t: Seq<KmpTableItem>, n: int) -> bool {
    &&& t.len() == n
    &&& forall|i: int| 0 <= i < n ==> #[trigger] t[i].haystack <= t[i].needle <= i
}

/// Every fallback cursor is the longest proper border of the needle up to
/// that position.
pub open spec fn longest_fallbacks<N: KmpSearchable>(s: Seq<N>, t: Seq<KmpTableItem>) -> bool {
    &&& t.len() <= s.len()
    &&& forall|i: int| 0 <= i < t.len() ==> is_longest_border(s, i + 1, (#[trigger] t[i]).needle as int)
}

/// Every possible match among the needle's elements is guaranteed.
pub open spec fn possible_is_guaranteed<N: KmpSearchable>(s: Seq<N>) -> bool {
    forall|i: int, j: int|
        0 <= i < s.len() && 0 <= j < s.len() && #[trigger] s[i].match_possible_spec(&s[j])
            ==> s[i].match_guaranteed_spec(&s[j])
}

/// Facts of each entry that hold for any comparisons: a fallback ends on a
/// possible match, and on a guaranteed one where the entry has no offset.
pub open spec fn fallbacks_compared<N: KmpSearchable>(s: Seq<N>, t: Seq<KmpTableItem>) -> bool {
    &&& t.len() <= s.len()
    &&& t.len() > 0 ==> t[0].needle == 0 && t[0].haystack == 0
    &&& forall|i: int|
        0 <= i < t.len() && (#[trigger] t[i]).needle > 0 ==> s[i].match_possible_spec(&s[t[i].needle - 1]) && (
        t[i].haystack == 0 ==> s[i].match_guaranteed_spec(&s[t[i].needle - 1]))
    &&& possible_is_guaranteed(s) ==> forall|i: int| 0 <= i < t.len() ==> (#[trigger] t[i]).haystack == 0
}

/// The entry recorded for position `p`, starting from `item`: on a possible
/// match with the element at `item.needle` the cursor advances and the offset
/// is set to 1 at the first match that is not guaranteed, or grows once set;
/// on a mismatch at cursor 0 the item is recorded; otherwise the search goes on
/// from the entry before the cursor.
pub open spec fn extend_entry<N: KmpSearchable>(
    s: Seq<N>,
    t: Seq<KmpTableItem>,
    p: int,
    item: KmpTableItem,
) -> KmpTableItem
    decreases item.needle,
{
    if 0 <= p < s.len() && item.needle < s.len() && s[p].match_possible_spec(&s[item.needle as int]) {
        KmpTableItem {
            needle: (item.needle + 1) as usize,
            haystack: if item.haystack != 0 {
                (item.haystack + 1) as usize
            } else if s[p].match_guaranteed_spec(&s[item.needle as int]) {
                0
            } else {
                1
            },
        }
    } else if item.needle == 0 || item.needle > t.len() || t[item.needle - 1].needle >= item.needle {
        item
    } else {
        extend_entry(s, t, p, t[item.needle - 1])
    }
}

/// The failure table of the first `len` elements of `s`: `(0, 0)` first, then
/// each entry extended from the one before it.
pub open spec fn table_of<N: KmpSearchable>(s: Seq<N>, len: nat) -> Seq<KmpTableItem>
    decreases len,
{
    if len == 0 {
        Seq::empty()
    } else if len == 1 {
        seq![KmpTableItem { needle: 0, haystack: 0 }]
    } else {
        let t = table_of(s, (len - 1) as nat);
        t.push(extend_entry(s, t, len - 1, t[len - 2]))
    }
}

/// A border shorter than another border `k` of `s[..len]` is exactly a border of `s[..k]`.
pub proof fn lemma_border_of_border<N: KmpSearchable>(s: Seq<N>, len: int, k: int, k2: int)
    requires
        possible_equivalence::<N>(),
        is_border(s, len, k),
        0 <= k2 < k,
    ensures
        is_border(s, len, k2) <==> is_border(s, k, k2),
{
    if is_border(s, len, k2) {
        assert forall|j: int| 0 <= j < k2 implies (#[trigger] s[k - k2 + j]).match_possible_spec(&s[j]) by {
            let a = s[len - k + (k - k2 + j)];
            assert(a.match_possible_spec(&s[k - k2 + j]));
            assert(s[len - k2 + j].match_possible_spec(&s[j]));
        }
    }
    if is_border(s, k, k2) {
        assert forall|j: int| 0 <= j < k2 implies (#[trigger] s[len - k2 + j]).match_possible_spec(&s[j]) by {
            assert(s[k - k2 + j].match_possible_spec(&s[j]));
            assert(s[len - k + (k - k2 + j)].match_possible_spec(&s[k - k2 + j]));
        }
    }
}

/// Builds the failure table of `needle`, one entry per element.
#[verifier::loop_isolation(false)]
pub fn kmp_table<N: KmpSearchable>(needle: &[N]) -> (r: KmpOwnedTable)
    ensures
        r@ == table_of(needle@, needle@.len()),
        table_wf(r@, needle@.len() as int),
        fallbacks_compared(needle@, r@),
        possible_equivalence::<N>() ==> longest_fallbacks(needle@, r@),
{
    let n = needle.len();
    let mut lsp: Vec<KmpTableItem> = Vec::with_capacity(n);
    if n == 0 {
        assert(lsp@ =~= table_of(needle@, 0));
        return lsp;
    }
    lsp.push(KmpTableItem { needle: 0, haystack: 0 });
    assert(lsp@ =~= table_of(needle@, 1));
    let mut p: usize = 1;
    while p < n
        invariant
            1 <= p <= n,
            n == needle@.len(),
            lsp@ == table_of(needle@, p as nat),
            table_wf(lsp@, p as int),
            fallbacks_compared(needle@, lsp@),
            possible_equivalence::<N>() ==> longest_fallbacks(needle@, lsp@),
        decreases n - p,
    {
        let mut item = lsp[p - 1];
        assert(item.haystack == lsp@[p - 1].haystack);
        loop
            invariant
                1 <= p < n,
                n == needle@.len(),
                table_wf(lsp@, p as int),
                fallbacks_compared(needle@, lsp@),
                possible_equivalence::<N>() ==> longest_fallbacks(needle@, lsp@),
                item.haystack <= item.needle < p,
                lsp@ == table_of(needle@, p as nat),
                extend_entry(needle@, lsp@, p as int, item) == extend_entry(needle@, lsp@, p as int, lsp@[p - 1]),
                possible_is_guaranteed(needle@) ==> item.haystack == 0,
                possible_equivalence::<N>() ==> {
                    &&& is_border(needle@, p as int, item.needle as int)
                    &&& forall|k2: int|
                        item.needle < k2 < p && is_border(needle@, p as int, k2)
                            ==> !needle@[p as int].match_possible_spec(&needle@[k2])
                },
            decreases item.needle,
        {
            if needle[p].is_match_possible(&needle[item.needle]) {
                if item.haystack == 0 {
                    if !needle[p].is_match_guaranteed(&needle[item.needle]) {
                        item.haystack = 1;
                    }
                } else {
                    item.haystack = item.haystack + 1;
                }
                item.needle = item.needle + 1;
                break;
            }
            if item.needle == 0 {
                break;
            }
            let ghost k = item.needle as int;
            item = lsp[item.needle - 1];
            assert(item.haystack == lsp@[k - 1].haystack);
            proof {
                if possible_equivalence::<N>() {
                    assert forall|k2: int|
                        item.needle < k2 < p && is_border(needle@, p as int, k2)
                            implies !needle@[p as int].match_possible_spec(&needle@[k2]) by {
                        if k2 < k {
                            lemma_border_of_border(needle@, p as int, k, k2);
                        }
                    }
                    lemma_border_of_border(needle@, p as int, k, item.needle as int);
                }
            }
        }
        proof {
            if possible_equivalence::<N>() {
                let k = item.needle as int;
                let q = p as int + 1;
                assert(is_border(needle@, q, k)) by {
                    if k > 0 {
                        let k1 = k - 1;
                        assert forall|j: int| 0 <= j < k implies (#[trigger] needle@[q - k + j]).match_possible_spec(
                            &needle@[j],
                        ) by {
                            if j < k1 {
                                assert(needle@[p - k1 + j].match_possible_spec(&needle@[j]));
                            }
                        }
                    }
                }
                assert forall|k2: int| k < k2 < q implies !is_border(needle@, q, k2) by {
                    if is_border(needle@, q, k2) {
                        assert(needle@[q - k2 + (k2 - 1)].match_possible_spec(&needle@[k2 - 1]));
                        assert(is_border(needle@, p as int, k2 - 1)) by {
                            assert forall|j: int| 0 <= j < k2 - 1 implies (#[trigger] needle@[p - (k2 - 1)
                                + j]).match_possible_spec(&needle@[j]) by {
                                assert(needle@[q - k2 + j].match_possible_spec(&needle@[j]));
                            }
                        }
                    }
                }
            }
        }
        proof {
            assert(item == extend_entry(needle@, lsp@, p as int, lsp@[p - 1]));
        }
        lsp.push(item);
        p = p + 1;
        proof {
            assert(lsp@[p - 1] == item);
        }
    }
    lsp
}

} // verus!
