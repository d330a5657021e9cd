use kmp::{kmp_table as kd, KmpPattern, KmpSearchable};

fn kmp_table<T: KmpSearchable>(needle: &[T]) -> Vec<usize> {
    kd(needle).iter().map(|x| x.needle).collect()
}

#[test]
fn table_basic() {
    assert_eq!(kmp_table(&['a', 'a', 'a', 'b']), vec![0, 1, 2, 0]);
}

#[test]
fn generation() {
    let empty_needle: &[char; 0] = &[];
    assert!(kmp_table(empty_needle).is_empty());
}

#[test]
fn repeating() {
    assert_eq!(vec![0, 1, 2, 3, 4], kmp_table(&['a', 'a', 'a', 'a', 'a']));
}

#[test]
fn boolean() {
    assert_eq!(
        vec![0, 0, 1, 1, 2, 0, 1],
        kmp_table(&[true, false, true, true, false, false, true])
    );
}

#[test]
fn multiple_chars() {
    assert_eq!(
        vec![0, 0, 1, 0, 1, 2, 3, 2],
        kmp_table(&['a', 'b', 'a', 'c', 'a', 'b', 'a', 'b'])
    );
}

#[test]
fn two_chars_with_repetitions() {
    assert_eq!(
        vec![0, 1, 2, 0, 1, 2, 3, 3, 3, 4],
        kmp_table(&['a', 'a', 'a', 'b', 'a', 'a', 'a', 'a', 'a', 'b'])
    );
}

#[test]
fn classical_lsp_values() {
    assert_eq!(vec![0, 1, 2, 3, 0], kmp_table(b"aaaab"));
}

#[test]
fn single_element_needle() {
    assert_eq!(vec![0], kmp_table(b"z"));
}

#[test]
fn exact_tables_hold_no_provisional_offset() {
    let pattern = KmpPattern::new(b"abaabab");
    let table = pattern.table();
    assert_eq!(table.len(), 7);
    let needles: Vec<usize> = table.iter().map(|x| x.needle()).collect();
    assert_eq!(needles, vec![0, 0, 1, 1, 2, 3, 2]);
    assert!(table.iter().all(|x| x.haystack() == 0));
}
