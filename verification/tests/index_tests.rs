use cryptofind::index::PatternWordIndex;

#[test]
fn correctly_next() {
    let mut index = PatternWordIndex::new(2, 3);

    assert_eq!(index.next(), Some(vec![0, 0]));
    assert_eq!(index.next(), Some(vec![0, 1]));
    assert_eq!(index.next(), Some(vec![0, 2]));

    assert_eq!(index.next(), Some(vec![1, 0]));
    assert_eq!(index.next(), Some(vec![1, 1]));
    assert_eq!(index.next(), Some(vec![1, 2]));

    assert_eq!(index.next(), Some(vec![2, 0]));
    assert_eq!(index.next(), Some(vec![2, 1]));
    assert_eq!(index.next(), Some(vec![2, 2]));

    assert_eq!(index.next(), None);
}

#[test]
fn correctly_increments() {
    let mut index = PatternWordIndex::new(3, 3);

    assert_eq!(index.next(), Some(vec![0, 0, 0]));
    assert_eq!(index.next(), Some(vec![0, 0, 1]));
    assert_eq!(index.next(), Some(vec![0, 0, 2]));
    assert_eq!(index.next(), Some(vec![0, 1, 0]));
    assert_eq!(index.next(), Some(vec![0, 1, 1]));

    index.increment_at(1);

    assert_eq!(index.next(), Some(vec![0, 2, 0]));
}

#[test]
fn correctly_increments_2() {
    let mut index = PatternWordIndex::new(3, 3);

    assert_eq!(index.next(), Some(vec![0, 0, 0]));
    assert_eq!(index.next(), Some(vec![0, 0, 1]));

    index.increment_at(0);

    assert_eq!(index.next(), Some(vec![1, 0, 0]));
}
