use std::collections::HashSet;

use cryptofind::matches::{PlaceholderValues, WildcardValueResult};
use cryptofind::pattern::Pattern;

fn pattern(value: &'static str) -> Pattern {
    Pattern::new(value).unwrap()
}

#[test]
fn test_pattern_match() {
    assert!(pattern("**11***").match_word("zwitter").is_none());
    assert!(pattern("**11***").match_word("blooper").is_some());
    assert!(pattern("**11***").match_word("abccdef").is_some());
    assert!(pattern("**11***").match_word("aabba").is_none());
}

#[test]
fn test_placeholder_values() {
    let mut placeholder_values = PlaceholderValues::new();
    assert_eq!(
        placeholder_values.test_word_char('a', '1'),
        WildcardValueResult::NotPresent
    );
    placeholder_values.add('a', '1');
    assert_eq!(
        placeholder_values.test_word_char('a', '1'),
        WildcardValueResult::Equal
    );
    assert_eq!(
        placeholder_values.test_word_char('a', '2'),
        WildcardValueResult::NotEqual
    );
    assert_eq!(
        placeholder_values.test_word_char('b', '1'),
        WildcardValueResult::NotEqual
    );
}

#[test]
fn test_pattern_match_with_known_values() {
    assert!(pattern("+++1+e22").match_word("wellness").is_none());
    assert!(pattern("any+n_").match_word("anyone").is_some());
}

#[test]
fn does_not_match_word_with_repeated_chars() {
    assert!(pattern("++").match_word("ee").is_none());
    assert!(pattern("1+").match_word("ee").is_none());
}

#[test]
fn test_disjoint() {
    let mut set = HashSet::new();
    set.insert('a');
    assert!(!set.is_disjoint(&set));
}

#[test]
fn contradicts_with_pattern() {
    let initial_pattern = pattern("++1");
    let word_match = initial_pattern.match_word("abс").unwrap();

    assert!(word_match.contradicts_pattern(&pattern("a+")));
    assert!(word_match.contradicts_pattern(&pattern("с1")));
    assert!(!word_match.contradicts_pattern(&pattern("++")));
}
