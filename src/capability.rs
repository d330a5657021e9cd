use vstd::prelude::*;

verus! {

/// Comparison of two needle elements, used while the failure table is built.
pub trait KmpSearchable: Sized {
    /// Whether the two elements could stand for the same needle position.
    spec fn match_possible_spec(&self, other: &Self) -> bool;

    /// Whether the two elements are certainly equivalent.
    spec fn match_guaranteed_spec(&self, other: &Self) -> bool;

    fn is_match_possible(&self, other: &Self) -> (r: bool)
        ensures
            r == self.match_possible_spec(other),
    ;

    fn is_match_guaranteed(&self, other: &Self) -> (r: bool)
        ensures
            r == self.match_guaranteed_spec(other),
    ;
}

/// Comparison of a needle element with a haystack element, used while searching.
pub trait KmpMatchable<H>: Sized {
    spec fn match_haystack_spec(&self, other: &H) -> bool;

    fn match_haystack(&self, other: &H) -> (r: bool)
        ensures
            r == self.match_haystack_spec(other),
    ;
}

/// Possible matches between needle elements form an equivalence: they are
/// symmetric and transitive.
pub open spec fn possible_equivalence<N: KmpSearchable>() -> bool {
    &&& forall|a: N, b: N| #[trigger] a.match_possible_spec(&b) ==> b.match_possible_spec(&a)
    &&& forall|a: N, b: N, c: N|
        #[trigger] a.match_possible_spec(&b) && #[trigger] b.match_possible_spec(&c) ==> a.match_possible_spec(&c)
}

/// The comparisons agree with each other: possible matches form an
/// equivalence, haystack matching respects it, and two needle elements that
/// match one haystack element are possible matches. Plain equality and
/// comparison ignoring case are such comparisons.
pub open spec fn consistent_comparisons<N: KmpSearchable + KmpMatchable<H>, H>() -> bool {
    &&& possible_equivalence::<N>()
    &&& forall|a: N, b: N, x: H|
        #[trigger] a.match_possible_spec(&b) && #[trigger] b.match_haystack_spec(&x) ==> a.match_haystack_spec(&x)
    &&& forall|a: N, b: N, x: H|
        #[trigger] a.match_haystack_spec(&x) && #[trigger] b.match_haystack_spec(&x) ==> a.match_possible_spec(&b)
}

impl KmpSearchable for u8 {
    open spec fn match_possible_spec(&self, other: &u8) -> bool {
        *self == *other
    }

    open spec fn match_guaranteed_spec(&self, other: &u8) -> bool {
        *self == *other
    }

    fn is_match_possible(&self, other: &u8) -> (r: bool) {
        *self == *other
    }

    fn is_match_guaranteed(&self, other: &u8) -> (r: bool) {
        *self == *other
    }
}

impl KmpMatchable<u8> for u8 {
    open spec fn match_haystack_spec(&self, other: &u8) -> bool {
        *self == *other
    }

    fn match_haystack(&self, other: &u8) -> (r: bool) {
        *self == *other
    }
}

impl KmpSearchable for char {
    open spec fn match_possible_spec(&self, other: &char) -> bool {
        *self == *other
    }

    open spec fn match_guaranteed_spec(&self, other: &char) -> bool {
        *self == *other
    }

    fn is_match_possible(&self, other: &char) -> (r: bool) {
        *self == *other
    }

    fn is_match_guaranteed(&self, other: &char) -> (r: bool) {
        *self == *other
    }
}

impl KmpMatchable<char> for char {
    open spec fn match_haystack_spec(&self, other: &char) -> bool {
        *self == *other
    }

    fn match_haystack(&self, other: &char) -> (r: bool) {
        *self == *other
    }
}

impl KmpSearchable for bool {
    open spec fn match_possible_spec(&self, other: &bool) -> bool {
        *self == *other
    }

    open spec fn match_guaranteed_spec(&self, other: &bool) -> bool {
        *self == *other
    }

    fn is_match_possible(&self, other: &bool) -> (r: bool) {
        *self == *other
    }

    fn is_match_guaranteed(&self, other: &bool) -> (r: bool) {
        *self == *other
    }
}

impl KmpMatchable<bool> for bool {
    open spec fn match_haystack_spec(&self, other: &bool) -> bool {
        *self == *other
    }

    fn match_haystack(&self, other: &bool) -> (r: bool) {
        *self == *other
    }
}

/// Bytes, characters and booleans are compared by plain equality, which is
/// consistent.
pub proof fn lemma_primitives_consistent()
    ensures
        consistent_comparisons::<u8, u8>(),
        consistent_comparisons::<char, char>(),
        consistent_comparisons::<bool, bool>(),
{
}

} // verus!
