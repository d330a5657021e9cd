use kmp::{KmpMatchable, KmpPattern, KmpSearchable};

fn kmp_find<N, H>(needle: &[N], haystack: &[H]) -> Option<usize>
where
    N: KmpSearchable + KmpMatchable<H>,
{
    let pattern = KmpPattern::new(needle);
    pattern.find(&haystack).next()
}

#[test]
fn lib_basic() {
    assert_eq!(
        Some(6),
        kmp_find(
            &['a', 'a', 'a', 'b'],
            &['a', 'a', 'a', 'a', 'a', 'a', 'a', 'a', 'a', 'b']
        )
    )
}

#[test]
fn lib_empty_needle() {
    assert_eq!(
        Some(0),
        kmp_find::<char, _>(&[], &['a', 'b', 'c', 'd', 'e'])
    );
}

#[test]
fn lib_empty_haystack() {
    assert_eq!(None, kmp_find(&['a', 'b', 'c'], &[]));
}

#[test]
fn lib_empty_both() {
    assert_eq!(Some(0), kmp_find::<char, char>(&[], &[]));
}

#[test]
fn lib_needle_longer_haystack() {
    assert_eq!(None, kmp_find(&['a', 'b', 'c'], &['a', 'b']));
}
