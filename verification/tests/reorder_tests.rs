use cryptofind::cipher_text::{CipherError, CipherText};
use cryptofind::decipher::{Decipher, Solution};
use cryptofind::vocabulary::Vocabulary;
use cryptofind::vocabulary_index::VocabularyIndex;

fn vocab(words: &[&str]) -> Vocabulary {
    Vocabulary::new(words.iter().map(|s| s.to_string()).collect())
}

fn rendered(solution: &Solution) -> Vec<Vec<(usize, Vec<usize>)>> {
    solution
        .partial_solutions()
        .iter()
        .map(|ps| {
            ps.satisfactory_words()
                .iter()
                .enumerate()
                .filter_map(|(cw, entry)| {
                    entry
                        .as_ref()
                        .map(|w| (cw, w.ids().iter().map(|id| id.0).collect()))
                })
                .collect()
        })
        .collect()
}

#[test]
fn same_inputs_give_identical_sequences() {
    let words = ["like", "xyz", "zyx", "xyb", "zyb"];
    let run = |limit: usize| {
        let vocabulary = vocab(&words);
        let index = VocabularyIndex::new(&vocabulary);
        let cipher_text = CipherText::new("abc cba".to_string()).unwrap();
        rendered(&Decipher::new(index, cipher_text).find_solution(limit))
    };
    assert_eq!(run(1000), run(1000));
}

#[test]
fn reorder_keeps_the_set_of_solutions() {
    let words = ["like", "xyz", "zyx", "xyb", "zyb"];
    let vocabulary = vocab(&words);

    let index = VocabularyIndex::new(&vocabulary);
    let cipher_text = CipherText::new("abc cba".to_string()).unwrap();
    let plain = rendered(&Decipher::new(index, cipher_text).find_solution(1000));

    let index = VocabularyIndex::new(&vocabulary);
    let mut cipher_text = CipherText::new("abc cba".to_string()).unwrap();
    cipher_text.reorder_conditions(&[3, 1, 2]).unwrap();
    let permuted = rendered(&Decipher::new(index, cipher_text).find_solution(1000));

    let mut left = plain.clone();
    let mut right = permuted.clone();
    left.sort();
    right.sort();
    assert_eq!(left, right);
}

#[test]
fn reorder_rejects_wrong_length_and_range() {
    let mut cipher_text = CipherText::new("abc cba".to_string()).unwrap();
    assert_eq!(
        cipher_text.reorder_conditions(&[1, 2]).unwrap_err(),
        CipherError::InvalidReorder
    );
    assert_eq!(
        cipher_text.reorder_conditions(&[0, 1, 2]).unwrap_err(),
        CipherError::InvalidReorder
    );
    assert_eq!(
        cipher_text.reorder_conditions(&[1, 2, 4]).unwrap_err(),
        CipherError::InvalidReorder
    );
    assert!(cipher_text.reorder_conditions(&[3, 2, 1]).is_ok());
}

#[test]
fn conditions_are_sorted_by_score() {
    // in "aba cc", the letter a couples one word twice, c couples one word
    // twice, and b appears once; a and c tie on score and come alphabetically
    let cipher_text = CipherText::new("aba cc".to_string()).unwrap();
    let conditions = cipher_text.conditions();
    assert_eq!(conditions.len(), 2);
    assert_eq!(conditions[0].equal_chars().len(), 2);
    assert_eq!(conditions[1].equal_chars().len(), 2);
    // the first condition is the letter a: both occurrences in word 0
    assert_eq!(conditions[0].equal_chars()[0].cipher_word_id.0, 0);
    assert_eq!(conditions[0].equal_chars()[0].position.0, 0);
    assert_eq!(conditions[0].equal_chars()[1].position.0, 2);
    // the second is the letter c: both occurrences in word 1
    assert_eq!(conditions[1].equal_chars()[0].cipher_word_id.0, 1);
}
