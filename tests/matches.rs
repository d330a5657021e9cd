use kmp::{KmpMatchable, KmpPattern, KmpSearchable};

fn kmp_match_overlapping<N, H>(needle: &[N], haystack: &[H]) -> Vec<usize>
where
    N: KmpSearchable + KmpMatchable<H>,
{
    let pattern = KmpPattern::new(needle);
    let found_matches: Vec<_> = pattern.find_overlapping(&haystack).collect();
    found_matches
}

fn kmp_match<N, H>(needle: &[N], haystack: &[H]) -> Vec<usize>
where
    N: KmpSearchable + KmpMatchable<H>,
{
    let pattern = KmpPattern::new(needle);
    let found_matches: Vec<_> = pattern.find(&haystack).collect();
    found_matches
}

#[test]
fn kmp_test() {
    let test_cases: &[(&[u8], &[u8], &[usize])] = &[
        (b"abc", b"abc", &[0]),
        (b"abc", b"abcdef", &[0]),
        (b"def", b"abcdef", &[3]),
        (b"bcd", b"abcdef", &[1]),
        (b"xyz", b"abcdef", &[]),
        (b"", b"abcdef", &[0, 1, 2, 3, 4, 5, 6]),
        (b"abc", b"", &[]),
        (b"a", b"aaaaa", &[0, 1, 2, 3, 4]),
        (b"aa", b"aaaaa", &[0, 1, 2, 3]),
        (b"abcdef", b"abc", &[]),
        (b"a.b", b"a.b", &[0]),
        (b"aBc", b"AbCaBcD", &[3]),
        (b"aBc", b"AbCaBCd", &[]),
    ];

    for (needle, haystack, correct_matches) in test_cases {
        let found_matches = kmp_match_overlapping(needle, haystack);
        assert_eq!(
            found_matches.as_slice(),
            *correct_matches,
            "needle: {:?}, haystack: {:?}",
            needle,
            haystack
        );
    }
}

#[test]
fn basic() {
    assert_eq!(
        vec![0, 6, 12],
        kmp_match(
            &['a', 'b', 'c'],
            &['a', 'b', 'c', 'X', 'X', 'X', 'a', 'b', 'c', 'Y', 'Y', 'Y', 'a', 'b', 'c'],
        )
    );
}

#[test]
fn concatenated() {
    assert_eq!(
        vec![1, 4],
        kmp_match(&['a', 'b', 'c'], &['1', 'a', 'b', 'c', 'a', 'b', 'c', '2'])
    );
}

#[test]
fn combined() {
    assert_eq!(
        vec![1],
        kmp_match(&['a', 'b', 'a'], &['1', 'a', 'b', 'a', 'b', 'a', '2'])
    );
}

#[test]
fn empty_needle() {
    assert_eq!(vec![0, 1, 2], kmp_match::<char, _>(&[], &['a', 'b']));
}

#[test]
fn empty_haystack() {
    let empty_haystack: &[char; 0] = &[];
    assert!(kmp_match(&['a', 'b', 'c'], empty_haystack).is_empty());
}

#[test]
fn empty_both() {
    let empty_needle: &[char; 0] = &[];
    let empty_haystack: &[char; 0] = &[];
    assert_eq!(vec![0], kmp_match(empty_needle, empty_haystack));
}

#[test]
fn needle_longer_haystack() {
    assert!(kmp_match(&['a', 'b', 'c'], &['a', 'b']).is_empty());
}

#[test]
fn overlapping_and_disjoint_modes_differ() {
    assert_eq!(vec![0, 1, 2, 3], kmp_match_overlapping(b"aa", b"aaaaa"));
    assert_eq!(vec![0, 2], kmp_match(b"aa", b"aaaaa"));
}

#[test]
fn empty_needle_reports_every_position_in_both_modes() {
    assert_eq!(vec![0, 1, 2, 3], kmp_match::<u8, u8>(b"", b"xyz"));
    assert_eq!(vec![0, 1, 2, 3], kmp_match_overlapping::<u8, u8>(b"", b"xyz"));
    assert_eq!(vec![0], kmp_match_overlapping::<u8, u8>(b"", b""));
}

#[test]
fn long_needle_never_reported() {
    assert!(kmp_match_overlapping(b"abcd", b"abc").is_empty());
    assert!(kmp_match(&[true, true], &[true]).is_empty());
}

#[test]
fn exact_case_only() {
    assert_eq!(vec![3], kmp_match_overlapping(b"aBc", b"AbCaBcD"));
    assert!(kmp_match_overlapping(b"aBc", b"AbCaBCd").is_empty());
    assert_eq!(vec![3], kmp_match(b"aBc", b"AbCaBcD"));
}

#[test]
fn repeated_search_gives_same_result() {
    let needle = b"aba";
    let haystack = b"abababa";
    let pattern = KmpPattern::new(needle);
    let first: Vec<usize> = pattern.find_overlapping(haystack).collect();
    let second: Vec<usize> = pattern.find_overlapping(haystack).collect();
    assert_eq!(first, vec![0, 2, 4]);
    assert_eq!(first, second);
    let third: Vec<usize> = pattern.find(haystack).collect();
    let fourth: Vec<usize> = pattern.find(haystack).collect();
    assert_eq!(third, vec![0, 4]);
    assert_eq!(third, fourth);
}

#[test]
fn next_after_end_keeps_reporting_none() {
    let pattern = KmpPattern::new(b"ab");
    let mut search = pattern.find(b"xaby");
    assert_eq!(Some(1), search.next());
    assert_eq!(None, search.next());
    assert_eq!(None, search.next());
}

#[test]
fn overlapping_after_partial_prefix() {
    assert_eq!(vec![6], kmp_match_overlapping(b"aaab", b"aaaaaaaaab"));
    assert_eq!(vec![2, 11], kmp_match_overlapping(b"abcabd", b"ababcabdabcabcabd"));
}
