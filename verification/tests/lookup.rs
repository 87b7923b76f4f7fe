use wasmdbg::lookup::{last_at_most, sorted_triples};

#[test]
fn triples_sort_by_key_then_the_rest() {
    let t = sorted_triples(vec![(5, 1, 0), (3, 2, 2), (5, 0, 9), (3, 2, 1)]);
    assert_eq!(t, vec![(3, 2, 1), (3, 2, 2), (5, 0, 9), (5, 1, 0)]);
}

#[test]
fn last_entry_with_key_at_most() {
    let t = sorted_triples(vec![(10, 0, 0), (20, 0, 1), (20, 1, 0), (30, 1, 1)]);
    assert_eq!(last_at_most(&t, 5), None);
    assert_eq!(last_at_most(&t, 10), Some(0));
    assert_eq!(last_at_most(&t, 25), Some(2));
    assert_eq!(last_at_most(&t, 30), Some(3));
    assert_eq!(last_at_most(&t, u64::MAX), Some(3));
    assert_eq!(last_at_most(&Vec::new(), 7), None);
}
