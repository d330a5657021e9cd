use vstd::prelude::*;
use crate::capability::{possible_equivalence, KmpMatchable, KmpSearchable};
use crate::search::KmpSearch;
use crate::table::{
    fallbacks_compared, kmp_table, longest_fallbacks, table_of, table_wf, KmpOwnedTable, KmpTable, KmpTableItem,
};

verus! {

/// A needle together with its failure table, built once and searched with
/// any number of times.
pub struct KmpPattern<'a, N> {
    needle: &'a [N],
    lsp: KmpOwnedTable,
}

impl<'a, N: KmpSearchable> KmpPattern<'a, N> {
    pub closed spec fn needle_seq(&self) -> Seq<N> {
        self.needle@
    }

    pub closed spec fn table_seq(&self) -> Seq<KmpTableItem> {
        self.lsp@
    }

    /// The table has one well-formed entry per needle element, each fallback
    /// ending on a possible match; each fallback is a longest border when
    /// possible matches form an equivalence.
    pub open spec fn wf(&self) -> bool {
        &&& table_wf(self.table_seq(), self.needle_seq().len() as int)
        &&& fallbacks_compared(self.needle_seq(), self.table_seq())
        &&& possible_equivalence::<N>() ==> longest_fallbacks(self.needle_seq(), self.table_seq())
    }

    pub fn new(needle: &'a [N]) -> (r: Self)
        ensures
            r.wf(),
            r.needle_seq() == needle@,
            r.table_seq() == table_of(needle@, needle@.len()),
    {
        let table = kmp_table(needle);
        KmpPattern { needle, lsp: table }
    }

    pub fn table(&self) -> (r: KmpTable)
        ensures
            r@ == self.table_seq(),
    {
        self.lsp.as_slice()
    }

    /// A search for non-overlapping matches in `haystack`.
    pub fn find<H>(&'a self, haystack: &'a [H]) -> (r: KmpSearch<'a, N, H, false>) where
        N: KmpMatchable<H>,
        requires
            self.wf(),
            haystack@.len() < usize::MAX,
        ensures
            r.wf(),
            r.needle_seq() == self.needle_seq(),
            r.table_seq() == self.table_seq(),
            r.haystack_seq() == haystack@,
            r.from() == 0,
            r.needle_pos() == 0,
            r.haystack_pos() == 0,
    {
        KmpSearch::new(self.needle, self.lsp.as_slice(), haystack)
    }

    /// A search for possibly overlapping matches in `haystack`.
    pub fn find_overlapping<H>(&'a self, haystack: &'a [H]) -> (r: KmpSearch<'a, N, H, true>) where
        N: KmpMatchable<H>,
        requires
            self.wf(),
            haystack@.len() < usize::MAX,
        ensures
            r.wf(),
            r.needle_seq() == self.needle_seq(),
            r.table_seq() == self.table_seq(),
            r.haystack_seq() == haystack@,
            r.from() == 0,
            r.needle_pos() == 0,
            r.haystack_pos() == 0,
    {
        KmpSearch::new(self.needle, self.lsp.as_slice(), haystack)
    }
}

} // verus!
