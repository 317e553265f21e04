use cryptofind::cypher::{char_to_index, index_to_char, CharEncoding, Contradiction, Cypher};
use cryptofind::vocabulary::Vocabulary;

fn words(original: Vec<&str>) -> Vec<String> {
    original.into_iter().map(|s| s.to_owned()).collect()
}

fn solutions(cypher: &str, vocabulary: &[&str]) -> Vec<String> {
    let vocabulary = Vocabulary::new(vocabulary.iter().map(|s| s.to_string()).collect());
    Cypher::new(
        cypher.split_whitespace().map(|s| s.to_owned()).collect(),
        Vec::new(),
    )
    .unwrap()
    .solve_for(&vocabulary)
    .decode()
}

#[test]
fn correctly_decripts() {
    assert_eq!(solutions("like", &["like"]), words(vec!["like"]));
    assert_eq!(
        solutions("abc cba", &["like", "xyz", "zyx", "xyb", "zyb"]),
        words(vec!["zyx xyz", "xyz zyx"])
    );
}

#[test]
fn test_char_to_index() {
    let chars = "abcdefghijklmnopqrstuvwxyz";
    assert_eq!(chars.len(), 26);
    for (index, ch) in chars.chars().enumerate() {
        assert_eq!(index, char_to_index(ch));
    }
}

#[test]
fn test_index_to_char() {
    let chars = "abcdefghijklmnopqrstuvwxyz";
    assert_eq!(chars.len(), 26);
    for (index, ch) in chars.chars().enumerate() {
        assert_eq!(ch, index_to_char(index));
    }
}

#[test]
fn rejects_phrase_with_invalid_character() {
    let phrase = vec!["ab!".to_string()];
    match Cypher::new(phrase, Vec::new()) {
        Err(Contradiction::InvalidChar(c)) => assert_eq!(c, '!'),
        _ => panic!("expected an invalid character report"),
    }
}

#[test]
fn known_encodings_narrow_the_solutions() {
    let vocabulary = Vocabulary::new(
        ["xyz", "zyx"].iter().map(|s| s.to_string()).collect(),
    );
    let cypher = Cypher::new(
        vec!["abc".to_string()],
        vec![CharEncoding::new('a', 'x')],
    )
    .unwrap();
    let decoded = cypher.solve_for(&vocabulary).decode();
    assert_eq!(decoded, vec!["xyz".to_string()]);
}

#[test]
fn conflicting_word_reports_the_existing_encoding() {
    let vocabulary = Vocabulary::new(vec!["ab".to_string()]);
    // mapping "ab" onto the cipher word "aa" would need a to decode to both
    // a and b
    let cypher = Cypher::new(vec!["aa".to_string()], Vec::new()).unwrap();
    let mut aggregator = cypher.solve_for(&vocabulary);
    match aggregator.visit("ab") {
        Err(Contradiction::Encoding(pair)) => {
            assert_eq!(pair.from, 'a');
            assert_eq!(pair.to, 'a');
        }
        _ => panic!("expected a conflicting encoding"),
    }
    assert_eq!(
        Contradiction::same_cypher_word_already_applied(3),
        Contradiction::CypherWordApplied(3)
    );
}
