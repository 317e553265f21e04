//! Matches of masked patterns against words: the wildcard and placeholder
//! bindings a match fixes, and when two matches contradict each other.

use vstd::prelude::*;
use crate::pattern::Pattern;

verus! {

/// What testing a (word character, placeholder) pair against the recorded
/// bindings can say.
#[derive(Debug, PartialEq, Eq, Structural)]
pub enum WildcardValueResult {
    /// Neither the word character nor the placeholder is bound yet.
    NotPresent,
    /// One of the two is bound, but not to the other.
    NotEqual,
    /// Exactly this pair is already bound.
    Equal,
}

/// Whether `v` holds `c`.
pub open spec fn has_char(v: Seq<char>, c: char) -> bool {
    v.contains(c)
}

/// The first recorded pair that mentions `wc` or `pc` decides the test.
pub open spec fn test_spec(values: Seq<(char, char)>, wc: char, pc: char) -> WildcardValueResult
    decreases values.len(),
{
    if values.len() == 0 {
        WildcardValueResult::NotPresent
    } else if values[0].0 == wc && values[0].1 == pc {
        WildcardValueResult::Equal
    } else if values[0].0 == wc || values[0].1 == pc {
        WildcardValueResult::NotEqual
    } else {
        test_spec(values.drop_first(), wc, pc)
    }
}

/// Some recorded pair binds the word character `wc`.
pub open spec fn binds_word_char(values: Seq<(char, char)>, wc: char) -> bool {
    exists|k: int| 0 <= k < values.len() && values[k].0 == wc
}

/// Two binding lists disagree: some pair of one and some pair of the other
/// share a word character or a placeholder, but not both.
pub open spec fn bindings_conflict(a: Seq<(char, char)>, b: Seq<(char, char)>) -> bool {
    exists|k1: int, k2: int|
        0 <= k1 < a.len() && 0 <= k2 < b.len() && ((#[trigger] a[k1]).0 == (#[trigger] b[k2]).0)
            != (a[k1].1 == b[k2].1)
}

/// The placeholder bindings a match has fixed: which word character each
/// placeholder digit stands for.
#[derive(Debug)]
pub struct PlaceholderValues {
    pub values: Vec<(char, char)>,
}

impl Clone for PlaceholderValues {
    /// Cloning keeps the bindings.
    fn clone(&self) -> (r: PlaceholderValues)
        ensures
            r.values@ == self.values@,
    {
        let mut copy: Vec<(char, char)> = Vec::new();
        let mut k: usize = 0;
        while k < self.values.len()
            invariant
                k <= self.values@.len(),
                copy@ == self.values@.take(k as int),
            decreases self.values@.len() - k,
        {
            copy.push(self.values[k]);
            k = k + 1;
        }
        proof {
            assert(copy@ =~= self.values@);
        }
        PlaceholderValues { values: copy }
    }
}

impl PlaceholderValues {
    /// No bindings yet.
    pub fn new() -> (r: PlaceholderValues)
        ensures
            r.values@.len() == 0,
    {
        PlaceholderValues { values: Vec::new() }
    }

    /// Records that placeholder `pattern_char_value` stands for `word_char`.
    pub fn add(&mut self, word_char: char, pattern_char_value: char)
        ensures
            final(self).values@ == old(self).values@.push((word_char, pattern_char_value)),
    {
        self.values.push((word_char, pattern_char_value));
    }

    /// Tests a pair against the recorded bindings: the first pair mentioning
    /// either side decides.
    pub fn test_word_char(&self, word_char: char, pattern_char_value: char) -> (r:
        WildcardValueResult)
        ensures
            r == test_spec(self.values@, word_char, pattern_char_value),
    {
        let ghost whole = self.values@;
        proof {
            assert(whole.skip(0) =~= whole);
        }
        let mut k: usize = 0;
        while k < self.values.len()
            invariant
                k <= self.values@.len(),
                whole == self.values@,
                test_spec(whole, word_char, pattern_char_value) == test_spec(
                    whole.skip(k as int),
                    word_char,
                    pattern_char_value,
                ),
            decreases self.values@.len() - k,
        {
            let pair = self.values[k];
            proof {
                assert(whole.skip(k as int)[0] == whole[k as int]);
                assert(whole.skip(k as int).drop_first() =~= whole.skip(k + 1));
            }
            if pair.0 == word_char && pair.1 == pattern_char_value {
                return WildcardValueResult::Equal;
            }
            if pair.0 == word_char || pair.1 == pattern_char_value {
                return WildcardValueResult::NotEqual;
            }
            k = k + 1;
        }
        proof {
            assert(whole.skip(whole.len() as int).len() == 0);
        }
        WildcardValueResult::NotPresent
    }

    /// Whether any recorded pair binds `word_char`.
    pub fn contains_word_char(&self, word_char: char) -> (r: bool)
        ensures
            r == binds_word_char(self.values@, word_char),
    {
        let mut k: usize = 0;
        while k < self.values.len()
            invariant
                k <= self.values@.len(),
                forall|m: int| 0 <= m < k ==> (#[trigger] self.values@[m]).0 != word_char,
            decreases self.values@.len() - k,
        {
            if self.values[k].0 == word_char {
                return true;
            }
            k = k + 1;
        }
        false
    }

    /// Whether the two binding lists disagree on any pair.
    pub fn contradicts_with(&self, other: &PlaceholderValues) -> (r: bool)
        ensures
            r == bindings_conflict(self.values@, other.values@),
    {
        let mut k1: usize = 0;
        while k1 < self.values.len()
            invariant
                k1 <= self.values@.len(),
                forall|m1: int, m2: int|
                    0 <= m1 < k1 && 0 <= m2 < other.values@.len() ==> ((
                    #[trigger] self.values@[m1]).0 == (#[trigger] other.values@[m2]).0) == (
                    self.values@[m1].1 == other.values@[m2].1),
            decreases self.values@.len() - k1,
        {
            let a = self.values[k1];
            let mut k2: usize = 0;
            while k2 < other.values.len()
                invariant
                    k2 <= other.values@.len(),
                    a == self.values@[k1 as int],
                    k1 < self.values@.len(),
                    forall|m2: int|
                        0 <= m2 < k2 ==> ((#[trigger] other.values@[m2]).0 == a.0) == (
                        other.values@[m2].1 == a.1),
                decreases other.values@.len() - k2,
            {
                let b = other.values[k2];
                if (a.0 == b.0) != (a.1 == b.1) {
                    return true;
                }
                k2 = k2 + 1;
            }
            k1 = k1 + 1;
        }
        false
    }

    /// Merges two binding lists into one without duplicates: all of this
    /// list's bindings, and every binding of `other` that differs from at
    /// least one of this list's. An empty list adopts `other` wholesale.
    pub fn merge(&self, other: &PlaceholderValues) -> (r: PlaceholderValues)
        ensures
            self.values@.len() == 0 ==> r.values@ == other.values@,
            self.values@.len() > 0 ==> {
                &&& forall|k1: int, k2: int|
                    0 <= k1 < k2 < r.values@.len() ==> #[trigger] r.values@[k1] != #[trigger] r
                        .values@[k2]
                &&& forall|p: (char, char)|
                    #[trigger] r.values@.contains(p) <==> (self.values@.contains(p)
                        || (other.values@.contains(p) && exists|m: int|
                        0 <= m < self.values@.len() && #[trigger] self.values@[m] != p))
            },
    {
        if self.values.len() == 0 {
            return other.clone();
        }
        let mut merged: Vec<(char, char)> = Vec::new();
        let mut k: usize = 0;
        while k < self.values.len()
            invariant
                k <= self.values@.len(),
                forall|m1: int, m2: int|
                    0 <= m1 < m2 < merged@.len() ==> #[trigger] merged@[m1] != #[trigger] merged@[m2],
                forall|p: (char, char)|
                    #[trigger] merged@.contains(p) <==> self.values@.take(k as int).contains(p),
            decreases self.values@.len() - k,
        {
            let pair = self.values[k];
            let ghost old_merged = merged@;
            if !contains_pair(&merged, pair) {
                merged.push(pair);
                proof {
                    crate::vocabulary_index::lemma_contains_push_any(old_merged, pair);
                    assert forall|m1: int, m2: int| 0 <= m1 < m2 < merged@.len() implies #[trigger]
                    merged@[m1] != #[trigger] merged@[m2] by {
                        if m2 == merged@.len() - 1 {
                            assert(old_merged.contains(old_merged[m1]));
                        }
                    }
                }
            }
            proof {
                crate::vocabulary_index::lemma_contains_take_any(self.values@, k as int);
            }
            k = k + 1;
        }
        proof {
            assert(self.values@.take(self.values@.len() as int) =~= self.values@);
        }
        let mut k2: usize = 0;
        while k2 < other.values.len()
            invariant
                k2 <= other.values@.len(),
                self.values@.len() > 0,
                forall|m1: int, m2: int|
                    0 <= m1 < m2 < merged@.len() ==> #[trigger] merged@[m1] != #[trigger] merged@[m2],
                forall|p: (char, char)|
                    #[trigger] merged@.contains(p) <==> (self.values@.contains(p)
                        || (other.values@.take(k2 as int).contains(p) && exists|m: int|
                        0 <= m < self.values@.len() && #[trigger] self.values@[m] != p)),
            decreases other.values@.len() - k2,
        {
            let pair = other.values[k2];
            let differs = differs_from_some(&self.values, pair);
            let ghost old_merged = merged@;
            if differs && !contains_pair(&merged, pair) {
                merged.push(pair);
                proof {
                    crate::vocabulary_index::lemma_contains_push_any(old_merged, pair);
                    assert forall|m1: int, m2: int| 0 <= m1 < m2 < merged@.len() implies #[trigger]
                    merged@[m1] != #[trigger] merged@[m2] by {
                        if m2 == merged@.len() - 1 {
                            assert(old_merged.contains(old_merged[m1]));
                        }
                    }
                }
            }
            proof {
                crate::vocabulary_index::lemma_contains_take_any(other.values@, k2 as int);
            }
            k2 = k2 + 1;
        }
        proof {
            assert(other.values@.take(other.values@.len() as int) =~= other.values@);
        }
        PlaceholderValues { values: merged }
    }
}

/// Whether `v` holds exactly the pair `p`.
fn contains_pair(v: &Vec<(char, char)>, p: (char, char)) -> (r: bool)
    ensures
        r == v@.contains(p),
{
    let mut k: usize = 0;
    while k < v.len()
        invariant
            k <= v@.len(),
            forall|m: int| 0 <= m < k ==> #[trigger] v@[m] != p,
        decreases v@.len() - k,
    {
        if v[k].0 == p.0 && v[k].1 == p.1 {
            proof {
                assert(v@[k as int] == p);
            }
            return true;
        }
        k = k + 1;
    }
    proof {
        if v@.contains(p) {
            let m = choose|m: int| 0 <= m < v@.len() && v@[m] == p;
        }
    }
    false
}

/// Whether some pair of `v` differs from `p`.
fn differs_from_some(v: &Vec<(char, char)>, p: (char, char)) -> (r: bool)
    ensures
        r == exists|m: int| 0 <= m < v@.len() && #[trigger] v@[m] != p,
{
    let mut k: usize = 0;
    while k < v.len()
        invariant
            k <= v@.len(),
            forall|m: int| 0 <= m < k ==> #[trigger] v@[m] == p,
        decreases v@.len() - k,
    {
        if v[k].0 != p.0 || v[k].1 != p.1 {
            proof {
                assert(v@[k as int] != p);
            }
            return true;
        }
        k = k + 1;
    }
    false
}

/// Whether `v` holds the character `c`.
pub fn contains_char(v: &Vec<char>, c: char) -> (r: bool)
    ensures
        r == has_char(v@, c),
{
    let mut k: usize = 0;
    while k < v.len()
        invariant
            k <= v@.len(),
            forall|m: int| 0 <= m < k ==> #[trigger] v@[m] != c,
        decreases v@.len() - k,
    {
        if v[k] == c {
            return true;
        }
        k = k + 1;
    }
    false
}

/// Whether the two character lists share no character.
fn disjoint_chars(a: &Vec<char>, b: &Vec<char>) -> (r: bool)
    ensures
        r == !(exists|c: char| has_char(a@, c) && has_char(b@, c)),
{
    let mut k: usize = 0;
    while k < a.len()
        invariant
            k <= a@.len(),
            forall|m: int| 0 <= m < k ==> !has_char(b@, #[trigger] a@[m]),
        decreases a@.len() - k,
    {
        if contains_char(b, a[k]) {
            proof {
                assert(has_char(a@, a@[k as int]));
            }
            return false;
        }
        k = k + 1;
    }
    proof {
        if exists|c: char| has_char(a@, c) && has_char(b@, c) {
            let c = choose|c: char| has_char(a@, c) && has_char(b@, c);
            let m = choose|m: int| 0 <= m < a@.len() && a@[m] == c;
            assert(!has_char(b@, a@[m]));
        }
    }
    true
}

/// One match of one pattern against one word, with the wildcard characters
/// it consumed and the placeholder bindings it fixed.
#[derive(Debug)]
pub struct Match {
    pub pattern: Pattern,
    pub word: String,
    pub wildcard_values: Vec<char>,
    pub placeholder_values: PlaceholderValues,
}

impl Match {
    /// Whether this match rules the pattern out: the pattern insists on a
    /// literal character that this match already consumed as a wildcard or
    /// bound to a placeholder.
    pub fn contradicts_pattern(&self, pattern: &Pattern) -> (r: bool)
        ensures
            r == exists|k: int|
                0 <= k < pattern.known_chars@.len() && (has_char(
                    self.wildcard_values@,
                    #[trigger] pattern.known_chars@[k],
                ) || binds_word_char(
                    self.placeholder_values.values@,
                    pattern.known_chars@[k],
                )),
    {
        let mut k: usize = 0;
        while k < pattern.known_chars.len()
            invariant
                k <= pattern.known_chars@.len(),
                forall|m: int|
                    0 <= m < k ==> !(has_char(
                        self.wildcard_values@,
                        #[trigger] pattern.known_chars@[m],
                    ) || binds_word_char(
                        self.placeholder_values.values@,
                        pattern.known_chars@[m],
                    )),
            decreases pattern.known_chars@.len() - k,
        {
            let ch = pattern.known_chars[k];
            if contains_char(&self.wildcard_values, ch) {
                return true;
            }
            if self.placeholder_values.contains_word_char(ch) {
                return true;
            }
            k = k + 1;
        }
        false
    }
}

/// Several matches combined: their pooled wildcard characters and merged
/// placeholder bindings.
#[derive(Debug)]
pub struct CombinedMatches {
    pub matches: Vec<Match>,
    pub wildcard_values: Vec<char>,
    pub placeholder_values: PlaceholderValues,
}

impl CombinedMatches {
    /// No matches combined yet.
    pub fn empty() -> (r: CombinedMatches)
        ensures
            r.matches@.len() == 0,
            r.wildcard_values@.len() == 0,
            r.placeholder_values.values@.len() == 0,
    {
        CombinedMatches {
            matches: Vec::new(),
            wildcard_values: Vec::new(),
            placeholder_values: PlaceholderValues::new(),
        }
    }

    /// Whether adding `other` would clash with what is combined so far:
    /// shared wildcard characters, a known character of an already matched
    /// pattern among `other`'s wildcards or placeholder bindings, or
    /// disagreeing placeholder bindings.
    pub fn contradicts_with(&self, other: &Match) -> (r: bool)
        ensures
            r == ({
                ||| exists|c: char|
                    has_char(self.wildcard_values@, c) && has_char(other.wildcard_values@, c)
                ||| exists|m: int, k: int|
                    0 <= m < self.matches@.len() && 0 <= k < (
                    #[trigger] self.matches@[m]).pattern.known_chars@.len() && (has_char(
                        other.wildcard_values@,
                        #[trigger] self.matches@[m].pattern.known_chars@[k],
                    ) || binds_word_char(
                        other.placeholder_values.values@,
                        self.matches@[m].pattern.known_chars@[k],
                    ))
                ||| bindings_conflict(self.placeholder_values.values@, other.placeholder_values.values@)
            }),
    {
        if !disjoint_chars(&self.wildcard_values, &other.wildcard_values) {
            return true;
        }
        let mut m: usize = 0;
        while m < self.matches.len()
            invariant
                m <= self.matches@.len(),
                forall|m1: int, k: int|
                    0 <= m1 < m && 0 <= k < (#[trigger] self.matches@[m1]).pattern.known_chars@.len()
                        ==> !(has_char(
                        other.wildcard_values@,
                        #[trigger] self.matches@[m1].pattern.known_chars@[k],
                    ) || binds_word_char(
                        other.placeholder_values.values@,
                        self.matches@[m1].pattern.known_chars@[k],
                    )),
            decreases self.matches@.len() - m,
        {
            let word_match = &self.matches[m];
            let mut k: usize = 0;
            while k < word_match.pattern.known_chars.len()
                invariant
                    k <= word_match.pattern.known_chars@.len(),
                    m < self.matches@.len(),
                    *word_match == self.matches@[m as int],
                    forall|k1: int|
                        0 <= k1 < k ==> !(has_char(
                            other.wildcard_values@,
                            #[trigger] word_match.pattern.known_chars@[k1],
                        ) || binds_word_char(
                            other.placeholder_values.values@,
                            word_match.pattern.known_chars@[k1],
                        )),
                decreases word_match.pattern.known_chars@.len() - k,
            {
                let known_char = word_match.pattern.known_chars[k];
                if contains_char(&other.wildcard_values, known_char) {
                    return true;
                }
                if other.placeholder_values.contains_word_char(known_char) {
                    return true;
                }
                k = k + 1;
            }
            m = m + 1;
        }
        self.placeholder_values.contradicts_with(&other.placeholder_values)
    }

    /// Pools `other` into the combination: its wildcard characters join the
    /// pool (without duplicates), its placeholder bindings are merged, and
    /// the match itself is kept.
    pub fn add(&mut self, other: Match)
        ensures
            final(self).matches@ == old(self).matches@.push(other),
            forall|c: char|
                has_char(final(self).wildcard_values@, c) <==> (has_char(
                    old(self).wildcard_values@,
                    c,
                ) || has_char(other.wildcard_values@, c)),
            old(self).placeholder_values.values@.len() == 0 ==> final(self).placeholder_values.values@ == other.placeholder_values.values@,
            old(self).placeholder_values.values@.len() > 0 ==> {
                &&& forall|k1: int, k2: int|
                    0 <= k1 < k2 < final(self).placeholder_values.values@.len() ==> #[trigger] final(self).placeholder_values.values@[k1] != #[trigger] final(self).placeholder_values.values@[k2]
                &&& forall|p: (char, char)|
                    #[trigger] final(self).placeholder_values.values@.contains(p) <==> (old(self).placeholder_values.values@.contains(p)
                        || (other.placeholder_values.values@.contains(p) && exists|m: int|
                        0 <= m < old(self).placeholder_values.values@.len() && #[trigger] old(self).placeholder_values.values@[m] != p))
            },
    {
        let mut k: usize = 0;
        while k < other.wildcard_values.len()
            invariant
                k <= other.wildcard_values@.len(),
                forall|c: char|
                    has_char(self.wildcard_values@, c) <==> (has_char(
                        old(self).wildcard_values@,
                        c,
                    ) || has_char(other.wildcard_values@.take(k as int), c)),
                self.placeholder_values == old(self).placeholder_values,
                self.matches == old(self).matches,
            decreases other.wildcard_values@.len() - k,
        {
            let c = other.wildcard_values[k];
            let ghost old_wild = self.wildcard_values@;
            if !contains_char(&self.wildcard_values, c) {
                self.wildcard_values.push(c);
            }
            proof {
                crate::vocabulary_index::lemma_contains_push_any(old_wild, c);
                crate::vocabulary_index::lemma_contains_take_any(other.wildcard_values@, k as int);
                assert forall|c2: char|
                    has_char(self.wildcard_values@, c2) <==> (has_char(
                        old(self).wildcard_values@,
                        c2,
                    ) || has_char(other.wildcard_values@.take(k + 1), c2)) by {
                    assert(has_char(old_wild, c2) <==> (has_char(old(self).wildcard_values@, c2)
                        || has_char(other.wildcard_values@.take(k as int), c2)));
                    if self.wildcard_values@ != old_wild {
                        assert(self.wildcard_values@ == old_wild.push(c));
                    } else {
                        assert(has_char(old_wild, c));
                    }
                }
            }
            k = k + 1;
        }
        proof {
            assert(other.wildcard_values@.take(other.wildcard_values@.len() as int)
                =~= other.wildcard_values@);
        }
        let merged = self.placeholder_values.merge(&other.placeholder_values);
        self.placeholder_values = merged;
        self.matches.push(other);
    }
}

} // verus!
