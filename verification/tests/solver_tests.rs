use cryptofind::cipher_text::{CipherError, CipherText, CipherWordId};
use cryptofind::decipher::{Decipher, Solution};
use cryptofind::vocabulary::{Vocabulary, WordId};
use cryptofind::vocabulary_index::VocabularyIndex;

fn vocab(words: &[&str]) -> Vocabulary {
    Vocabulary::new(words.iter().map(|s| s.to_string()).collect())
}

fn solve(words: &[&str], cipher: &str, limit: usize) -> Solution {
    let vocabulary = vocab(words);
    let index = VocabularyIndex::new(&vocabulary);
    let cipher_text = CipherText::new(cipher.to_string()).unwrap();
    Decipher::new(index, cipher_text).find_solution(limit)
}

fn ids_of(solution: &Solution, entry: usize, word: usize) -> Vec<usize> {
    let ps = &solution.partial_solutions()[entry];
    match ps.candidates_of(word) {
        Some(w) => w.ids().iter().map(|id| id.0).collect(),
        None => panic!("cipher word {} is unconstrained", word),
    }
}

#[test]
fn empty_cipher_gives_empty_solution() {
    let solution = solve(&["like"], "", 1000);
    assert_eq!(solution.partial_solutions().len(), 0);
    assert!(!solution.overflowed());
}

#[test]
fn cipher_without_repeats_leaves_words_unconstrained() {
    let vocabulary = vocab(&["like", "cat", "stop", "xyz"]);
    let index = VocabularyIndex::new(&vocabulary);
    let cipher_text = CipherText::new("abcd".to_string()).unwrap();
    let solution = Decipher::new(index, cipher_text).find_solution(1000);
    assert_eq!(solution.partial_solutions().len(), 0);
    assert!(!solution.overflowed());
    // the caller expands an unconstrained cipher word to every word of its
    // length: here exactly the four-letter words
    let groups = vocabulary.by_length();
    let four: Vec<usize> = groups[4].iter().map(|p| p.0 .0).collect();
    assert_eq!(four, vec![0, 2]);
}

#[test]
fn missing_length_means_no_solutions_and_no_error() {
    let solution = solve(&["ab"], "abc cba", 1000);
    assert_eq!(solution.partial_solutions().len(), 0);
    assert!(!solution.overflowed());
}

#[test]
fn limit_zero_overflows_at_first_solution() {
    let solution = solve(&["like", "xyz", "zyx", "xyb", "zyb"], "abc cba", 0);
    assert_eq!(solution.partial_solutions().len(), 0);
    assert!(solution.overflowed());
}

#[test]
fn identity_word_stays_unconstrained_without_repeats() {
    // a cipher of four distinct letters imposes no condition; the solver
    // returns no entry and the caller expands cipher word 0 to the only
    // four-letter word, which is the word itself
    let vocabulary = vocab(&["like"]);
    let index = VocabularyIndex::new(&vocabulary);
    let cipher_text = CipherText::new("like".to_string()).unwrap();
    let solution = Decipher::new(index, cipher_text).find_solution(1000);
    assert_eq!(solution.partial_solutions().len(), 0);
    let groups = vocabulary.by_length();
    let four: Vec<usize> = groups[4].iter().map(|p| p.0 .0).collect();
    assert_eq!(four, vec![0]);
}

#[test]
fn palindrome_pair_finds_both_substitutions() {
    let solution = solve(&["like", "xyz", "zyx", "xyb", "zyb"], "abc cba", 1000);
    assert_eq!(solution.partial_solutions().len(), 2);
    assert!(!solution.overflowed());
    assert_eq!(ids_of(&solution, 0, 0), vec![1]); // xyz
    assert_eq!(ids_of(&solution, 0, 1), vec![2]); // zyx
    assert_eq!(ids_of(&solution, 1, 0), vec![2]); // zyx
    assert_eq!(ids_of(&solution, 1, 1), vec![1]); // xyz
}

#[test]
fn repeated_letter_condition_prunes() {
    let solution = solve(&["aabba", "blooper", "zwitter"], "abccdef", 1000);
    assert_eq!(solution.partial_solutions().len(), 1);
    assert_eq!(ids_of(&solution, 0, 0), vec![1]); // blooper: a double at 2 and 3
}

#[test]
fn overflow_returns_exactly_the_cap() {
    let solution = solve(&["aa", "bb", "cc", "dd", "ee", "ff", "gg"], "xx", 5);
    assert_eq!(solution.partial_solutions().len(), 5);
    assert!(solution.overflowed());
    let full = solve(&["aa", "bb", "cc", "dd", "ee", "ff", "gg"], "xx", 1000);
    assert_eq!(full.partial_solutions().len(), 7);
    assert!(!full.overflowed());
}

#[test]
fn solutions_are_sorted_valid_and_consistent() {
    let words = ["like", "xyz", "zyx", "xyb", "zyb"];
    let vocabulary = vocab(&words);
    let cipher_text = CipherText::new("abc cba".to_string()).unwrap();
    let solution = solve(&words, "abc cba", 1000);
    for ps in solution.partial_solutions() {
        for (cw, entry) in ps.satisfactory_words().iter().enumerate() {
            if let Some(set) = entry {
                assert!(set.len() > 0);
                let ids = set.ids();
                for pair in ids.windows(2) {
                    assert!(pair[0].0 < pair[1].0);
                }
                for id in ids {
                    let text = vocabulary.get(*id).expect("identifier in range");
                    let length = cipher_text
                        .length_of(CipherWordId(cw as u8))
                        .expect("cipher word in range");
                    assert_eq!(text.len(), length);
                }
            }
        }
    }
}

fn expect_invalid(phrase: String) {
    match CipherText::new(phrase) {
        Err(e) => assert_eq!(e, CipherError::InvalidCipher),
        Ok(_) => panic!("the phrase should have been rejected"),
    }
}

#[test]
fn rejects_uppercase_cipher() {
    expect_invalid("Abc".to_string());
}

#[test]
fn rejects_overlong_word() {
    expect_invalid("a".repeat(300));
}

#[test]
fn rejects_too_many_words() {
    let mut phrase = String::new();
    for _ in 0..300 {
        phrase.push_str("ab ");
    }
    expect_invalid(phrase);
}

#[test]
fn vocabulary_lookup_round_trip() {
    let vocabulary = vocab(&["like", "xyz"]);
    assert_eq!(vocabulary.len(), 2);
    assert_eq!(vocabulary.get(WordId(0)), Some("like"));
    assert_eq!(vocabulary.get(WordId(1)), Some("xyz"));
    assert_eq!(vocabulary.get(WordId(2)), None);
}
