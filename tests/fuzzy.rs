use kmp::{kmp_table, KmpMatchable, KmpPattern, KmpSearchable};

/// A needle element that is either a literal byte or a wildcard.
#[derive(Clone, Copy, PartialEq, Debug)]
enum Pat {
    Any,
    Lit(u8),
}

impl KmpSearchable for Pat {
    fn match_possible_spec(&self, other: &Self) -> bool {
        self.is_match_possible(other)
    }

    fn match_guaranteed_spec(&self, other: &Self) -> bool {
        self.is_match_guaranteed(other)
    }

    fn is_match_possible(&self, other: &Self) -> bool {
        *self == Pat::Any || *other == Pat::Any || self == other
    }

    fn is_match_guaranteed(&self, other: &Self) -> bool {
        *self != Pat::Any && self == other
    }
}

impl KmpMatchable<u8> for Pat {
    fn match_haystack_spec(&self, other: &u8) -> bool {
        self.match_haystack(other)
    }

    fn match_haystack(&self, other: &u8) -> bool {
        match self {
            Pat::Any => true,
            Pat::Lit(c) => c == other,
        }
    }
}

fn parse(s: &[u8]) -> Vec<Pat> {
    s.iter().map(|&c| if c == b'?' { Pat::Any } else { Pat::Lit(c) }).collect()
}

fn search(needle: &[u8], haystack: &[u8], overlapping: bool) -> Vec<usize> {
    let needle = parse(needle);
    let pattern = KmpPattern::new(&needle);
    if overlapping {
        pattern.find_overlapping(haystack).collect()
    } else {
        pattern.find(haystack).collect()
    }
}

#[test]
fn wildcard_table_holds_provisional_offsets() {
    let needle = parse(b"a?b");
    let pairs: Vec<(usize, usize)> = kmp_table(&needle).iter().map(|x| (x.needle, x.haystack)).collect();
    assert_eq!(pairs, vec![(0, 0), (1, 1), (2, 2)]);
}

#[test]
fn wildcard_search_rewinds_haystack() {
    assert_eq!(vec![0], search(b"a?b", b"aabxab", true));
    assert_eq!(vec![0, 1, 2], search(b"a?a", b"aaaaa", true));
    assert_eq!(vec![0], search(b"a?a", b"aaaaa", false));
    assert_eq!(vec![0, 3], search(b"??x", b"aaxaax", true));
    assert_eq!(vec![0, 1, 2], search(b"?a?", b"baaab", true));
}

/// A needle byte compared without regard to ASCII case; only an identical
/// byte is a guaranteed match.
#[derive(Clone, Copy, PartialEq, Debug)]
struct Folded(u8);

impl KmpSearchable for Folded {
    fn match_possible_spec(&self, other: &Self) -> bool {
        self.is_match_possible(other)
    }

    fn match_guaranteed_spec(&self, other: &Self) -> bool {
        self.is_match_guaranteed(other)
    }

    fn is_match_possible(&self, other: &Self) -> bool {
        self.0.eq_ignore_ascii_case(&other.0)
    }

    fn is_match_guaranteed(&self, other: &Self) -> bool {
        self.0 == other.0
    }
}

impl KmpMatchable<u8> for Folded {
    fn match_haystack_spec(&self, other: &u8) -> bool {
        self.match_haystack(other)
    }

    fn match_haystack(&self, other: &u8) -> bool {
        self.0.eq_ignore_ascii_case(other)
    }
}

fn folded_search(needle: &[u8], haystack: &[u8], overlapping: bool) -> Vec<usize> {
    let needle: Vec<Folded> = needle.iter().map(|&c| Folded(c)).collect();
    let pattern = KmpPattern::new(&needle);
    if overlapping {
        pattern.find_overlapping(haystack).collect()
    } else {
        pattern.find(haystack).collect()
    }
}

#[test]
fn case_folded_table_marks_inexact_fallbacks() {
    let needle: Vec<Folded> = b"aA".iter().map(|&c| Folded(c)).collect();
    let pairs: Vec<(usize, usize)> = kmp_table(&needle).iter().map(|x| (x.needle, x.haystack)).collect();
    assert_eq!(pairs, vec![(0, 0), (1, 1)]);
}

#[test]
fn case_folded_search() {
    assert_eq!(vec![0, 3], folded_search(b"aBc", b"AbCaBcD", true));
    assert_eq!(vec![0, 3], folded_search(b"aBc", b"AbCaBCd", true));
    assert_eq!(vec![0, 1, 2, 3], folded_search(b"aA", b"aAaAa", true));
    assert_eq!(vec![0, 2], folded_search(b"aA", b"aAaAa", false));
    assert_eq!(vec![0, 2], folded_search(b"abA", b"ABABA", true));
    assert_eq!(vec![0], folded_search(b"abA", b"ABABA", false));
}

#[test]
fn case_folded_rewind_keeps_alignments() {
    assert_eq!(vec![2], folded_search(b"abAc", b"abAbAc", true));
    assert_eq!(vec![2], folded_search(b"abAc", b"abAbAc", false));
}

#[test]
fn case_folded_reports_only_true_occurrences() {
    assert!(folded_search(b"abBacabBaCz", b"abBacabBaCbacabBaCz", true).is_empty());
    assert!(folded_search(b"abBacabBaCz", b"abBacabBaCbacabBaCz", false).is_empty());
}

#[test]
fn case_folded_offsets_accumulate() {
    let needle: Vec<Folded> = b"aAA".iter().map(|&c| Folded(c)).collect();
    let pairs: Vec<(usize, usize)> = kmp_table(&needle).iter().map(|x| (x.needle, x.haystack)).collect();
    assert_eq!(pairs, vec![(0, 0), (1, 1), (2, 2)]);
}
