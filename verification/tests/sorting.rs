use resolvent::sorting::{dedup_sorted_indices, sort_dedup};

#[test]
fn dedup_keeps_each_index_once() {
    let mut v = vec![1, 1, 2, 5, 5, 5, 9];
    dedup_sorted_indices(&mut v);
    assert_eq!(v, vec![1, 2, 5, 9]);
    let mut w = vec![4, 0, 4, 2, 0];
    sort_dedup(&mut w);
    assert_eq!(w, vec![0, 2, 4]);
    let mut e: Vec<usize> = vec![];
    dedup_sorted_indices(&mut e);
    assert!(e.is_empty());
}
