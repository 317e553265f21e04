use cryptofind::matches::{CombinedMatches, PlaceholderValues};
use cryptofind::pattern::{Pattern, PatternSystem};

fn pattern(value: &str) -> Pattern {
    Pattern::new(value).unwrap()
}

#[test]
fn pattern_collects_each_literal_once() {
    let p = pattern("ab1*a_b");
    assert_eq!(p.value.len(), 7);
    assert_eq!(p.known_chars.len(), 2);
    assert!(p.known_chars.contains(&'a'));
    assert!(p.known_chars.contains(&'b'));
}

#[test]
fn system_orders_by_ascending_exactness() {
    // one wildcard costs least, a placeholder more, a literal most
    let patterns = vec![pattern("aa"), pattern("**"), pattern("11")];
    let system = PatternSystem::new(patterns).unwrap();
    let ordered = system.ordered();
    assert_eq!(ordered.len(), 3);
    assert_eq!(ordered[0].value, vec!['*', '*']);
    assert_eq!(ordered[1].value, vec!['1', '1']);
    assert_eq!(ordered[2].value, vec!['a', 'a']);
}

#[test]
fn original_order_undoes_the_sorting() {
    let patterns = vec![pattern("aa"), pattern("**")];
    let system = PatternSystem::new(patterns).unwrap();
    let ordered = system.ordered();
    assert_eq!(ordered[0].value, vec!['*', '*']);
    assert_eq!(ordered[1].value, vec!['a', 'a']);
    // matches found in exactness order, put back in the original order
    let matches: Vec<_> = vec![
        ordered[0].match_word("xy").unwrap(),
        ordered[1].match_word("aa").unwrap(),
    ];
    let back = system.original_order(&matches);
    assert_eq!(back.len(), 2);
    assert_eq!(back[0].word, "aa");
    assert_eq!(back[1].word, "xy");
}

#[test]
fn combined_matches_pool_wildcards_and_conflicts() {
    let first_pattern = pattern("++");
    let first = first_pattern.match_word("ab").unwrap();
    let mut combined = CombinedMatches::empty();
    assert!(!combined.contradicts_with(&first));
    combined.add(first);

    // a match that consumed `a` as a wildcard clashes with the pool
    let second_pattern = pattern("+x");
    let clash = second_pattern.match_word("ax").unwrap();
    assert!(combined.contradicts_with(&clash));

    // a match over fresh characters does not
    let third_pattern = pattern("+y");
    let fresh = third_pattern.match_word("cy").unwrap();
    assert!(!combined.contradicts_with(&fresh));
}

#[test]
fn placeholder_bindings_merge_without_duplicates() {
    let mut left = PlaceholderValues::new();
    left.add('a', '1');
    left.add('b', '2');
    let mut right = PlaceholderValues::new();
    right.add('a', '1');
    right.add('c', '3');
    let merged = left.merge(&right);
    let mut pairs = merged.values.clone();
    pairs.sort();
    assert_eq!(pairs, vec![('a', '1'), ('b', '2'), ('c', '3')]);
}
