use cryptofind::vocabulary::{Char, Position, Vocabulary, WordId};
use cryptofind::vocabulary_index::{VocabularyIndex, Words};

fn words_from(ids: &[usize]) -> Words {
    Words::from_sorted(ids.iter().map(|v| WordId(*v)).collect())
}

fn id_values(w: &Words) -> Vec<usize> {
    w.ids().iter().map(|id| id.0).collect()
}

#[test]
fn intersection_is_sorted_and_exact() {
    let a = words_from(&[1, 3, 5, 8]);
    let b = words_from(&[2, 3, 5, 7, 8]);
    let both = a.intersection(&b).unwrap();
    assert_eq!(id_values(&both), vec![3, 5, 8]);
    for pair in both.ids().windows(2) {
        assert!(pair[0].0 < pair[1].0);
    }
}

#[test]
fn intersection_of_disjoint_sets_is_nothing() {
    let a = words_from(&[1, 4]);
    let b = words_from(&[2, 3, 5]);
    assert!(a.intersection(&b).is_none());
}

#[test]
fn intersect_with_narrows_in_place() {
    let mut a = words_from(&[1, 3, 5]);
    let b = words_from(&[3, 4, 5]);
    a.intersect_with(&b);
    assert_eq!(id_values(&a), vec![3, 5]);
    let c = words_from(&[9]);
    a.intersect_with(&c);
    assert!(a.is_empty());
    assert_eq!(a.len(), 0);
}

#[test]
fn index_buckets_list_words_by_letter_and_position() {
    let vocabulary = Vocabulary::new(vec![
        "xyz".to_string(),
        "zyx".to_string(),
        "xyb".to_string(),
        "zyb".to_string(),
    ]);
    let index = VocabularyIndex::new(&vocabulary);
    let x_first = index.get(3, Char(b'x'), Position(0)).unwrap();
    assert_eq!(id_values(&x_first), vec![0, 2]);
    let y_middle = index.get(3, Char(b'y'), Position(1)).unwrap();
    assert_eq!(id_values(&y_middle), vec![0, 1, 2, 3]);
    assert!(index.get(3, Char(b'q'), Position(0)).is_none());
    assert!(index.get(7, Char(b'x'), Position(0)).is_none());
}
