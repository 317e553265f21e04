//! Masked patterns: `*`, `+` and `_` are wildcards, the digits `0`..`9` are
//! placeholders that must repeat consistently, and every other character is
//! a literal that must match exactly.

use vstd::prelude::*;
use crate::matches::{Match, PlaceholderValues, WildcardValueResult, binds_word_char, contains_char,
    has_char, test_spec};

verus! {

/// A wildcard consumes one word character, each at most once.
pub open spec fn is_wildcard(c: char) -> bool {
    c == '*' || c == '+' || c == '_'
}

/// A placeholder digit that must stand for one repeated word character.
pub open spec fn is_placeholder(c: char) -> bool {
    '0' <= c && c <= '9'
}

/// Every other pattern character is a literal the word must carry.
pub open spec fn is_literal(c: char) -> bool {
    !is_wildcard(c) && !is_placeholder(c)
}

/// One step of the match: what the wildcard pool and placeholder bindings
/// become after pattern position `i`, or nothing when the word is ruled
/// out there. The whole match walks the positions from the left.
pub open spec fn match_rec(
    pat: Seq<char>,
    known: Seq<char>,
    word: Seq<char>,
    i: int,
    wild: Seq<char>,
    ph: Seq<(char, char)>,
) -> Option<(Seq<char>, Seq<(char, char)>)>
    decreases pat.len() - i,
{
    if !(0 <= i <= pat.len()) || pat.len() != word.len() {
        None
    } else if i == pat.len() {
        Some((wild, ph))
    } else {
        let pc = pat[i];
        let wc = word[i];
        if is_wildcard(pc) {
            if binds_word_char(ph, wc) || has_char(known, wc) || has_char(wild, wc) {
                None
            } else {
                match_rec(pat, known, word, i + 1, wild.push(wc), ph)
            }
        } else if is_placeholder(pc) {
            if has_char(known, wc) {
                None
            } else {
                match test_spec(ph, wc, pc) {
                    WildcardValueResult::NotPresent => match_rec(
                        pat,
                        known,
                        word,
                        i + 1,
                        wild,
                        ph.push((wc, pc)),
                    ),
                    WildcardValueResult::NotEqual => None,
                    WildcardValueResult::Equal => match_rec(pat, known, word, i + 1, wild, ph),
                }
            }
        } else {
            if wc == pc {
                match_rec(pat, known, word, i + 1, wild, ph)
            } else {
                None
            }
        }
    }
}

/// A masked pattern and the set of literal characters it insists on.
#[derive(Debug)]
pub struct Pattern {
    pub value: Vec<char>,
    pub known_chars: Vec<char>,
}

impl Clone for Pattern {
    /// Cloning keeps the pattern and its literal set.
    fn clone(&self) -> (r: Pattern)
        ensures
            r.value@ == self.value@,
            r.known_chars@ == self.known_chars@,
    {
        Pattern { value: copy_chars(&self.value), known_chars: copy_chars(&self.known_chars) }
    }
}

/// An exact copy of a character list.
fn copy_chars(v: &Vec<char>) -> (r: Vec<char>)
    ensures
        r@ == v@,
{
    let mut copy: Vec<char> = Vec::new();
    let mut k: usize = 0;
    while k < v.len()
        invariant
            k <= v@.len(),
            copy@ == v@.take(k as int),
        decreases v@.len() - k,
    {
        copy.push(v[k]);
        k = k + 1;
    }
    proof {
        assert(copy@ =~= v@);
    }
    copy
}

impl Pattern {
    /// Reads a pattern: wildcards and placeholders keep their roles, and
    /// every other character becomes a literal, collected once each.
    pub fn new(value: &str) -> (r: Result<Pattern, String>)
        ensures
            r is Ok,
            ({
                let p = r->Ok_0;
                &&& p.value@ == value@
                &&& (forall|k1: int, k2: int|
                    0 <= k1 < k2 < p.known_chars@.len() ==> #[trigger] p.known_chars@[k1]
                        != #[trigger] p.known_chars@[k2])
                &&& forall|c: char|
                    #![trigger has_char(p.known_chars@, c)]
                    has_char(p.known_chars@, c) <==> (has_char(value@, c) && is_literal(c))
            }),
    {
        let n = value.unicode_len();
        let mut chars: Vec<char> = Vec::new();
        let mut known_chars: Vec<char> = Vec::new();
        let mut i: usize = 0;
        while i < n
            invariant
                n == value@.len(),
                i <= n,
                chars@ == value@.take(i as int),
                forall|k1: int, k2: int|
                    0 <= k1 < k2 < known_chars@.len() ==> #[trigger] known_chars@[k1] != #[trigger]
                    known_chars@[k2],
                forall|c: char|
                    #![trigger has_char(known_chars@, c)]
                    has_char(known_chars@, c) <==> (has_char(value@.take(i as int), c) && is_literal(
                        c,
                    )),
            decreases n - i,
        {
            let c = value.get_char(i);
            chars.push(c);
            let ghost old_known = known_chars@;
            let is_lit = !(c == '*' || c == '+' || c == '_' || ('0' <= c && c <= '9'));
            proof {
                assert(is_lit == is_literal(c));
            }
            if is_lit && !contains_char(&known_chars, c) {
                known_chars.push(c);
                proof {
                    crate::vocabulary_index::lemma_contains_push_any(old_known, c);
                    assert forall|k1: int, k2: int|
                        0 <= k1 < k2 < known_chars@.len() implies #[trigger] known_chars@[k1]
                        != #[trigger] known_chars@[k2] by {
                        if k2 == known_chars@.len() - 1 {
                            assert(old_known.contains(old_known[k1]));
                        }
                    }
                }
            }
            proof {
                assert(chars@ =~= value@.take(i + 1));
                crate::vocabulary_index::lemma_contains_take_any(value@, i as int);
                assert forall|c2: char| #![trigger has_char(known_chars@, c2)]
                    has_char(known_chars@, c2) <==> (has_char(value@.take(i + 1), c2) && is_literal(
                        c2,
                    )) by {
                    assert(has_char(old_known, c2) == (has_char(value@.take(i as int), c2)
                        && is_literal(c2)));
                    if known_chars@ != old_known {
                        assert(known_chars@ == old_known.push(c));
                    } else {
                        if c2 == c && is_literal(c) {
                            assert(has_char(old_known, c));
                        }
                    }
                }
            }
            i = i + 1;
        }
        proof {
            assert(chars@ =~= value@);
            assert(value@.take(n as int) =~= value@);
        }
        Ok(Pattern { value: chars, known_chars })
    }

    /// Matches a word against the pattern: walks the positions from the
    /// left, consuming wildcards, binding placeholders and checking
    /// literals; the match carries the wildcard pool and placeholder
    /// bindings it fixed. A word of a different length never matches.
    pub fn match_word(&self, word: &str) -> (r: Option<Match>)
        ensures
            match r {
                Some(m) => {
                    &&& word@.len() == self.value@.len()
                    &&& match_rec(
                        self.value@,
                        self.known_chars@,
                        word@,
                        0,
                        Seq::empty(),
                        Seq::empty(),
                    ) == Some((m.wildcard_values@, m.placeholder_values.values@))
                    &&& m.word@ == word@
                    &&& m.pattern.value@ == self.value@
                    &&& m.pattern.known_chars@ == self.known_chars@
                },
                None => word@.len() != self.value@.len() || match_rec(
                    self.value@,
                    self.known_chars@,
                    word@,
                    0,
                    Seq::empty(),
                    Seq::empty(),
                ) is None,
            },
    {
        let n = word.unicode_len();
        if n != self.value.len() {
            return None;
        }
        let ghost pat = self.value@;
        let ghost known = self.known_chars@;
        let mut placeholder_values = PlaceholderValues::new();
        let mut wildcard_values: Vec<char> = Vec::new();
        let mut i: usize = 0;
        proof {
            assert(placeholder_values.values@ =~= Seq::<(char, char)>::empty());
            assert(wildcard_values@ =~= Seq::<char>::empty());
        }
        while i < n
            invariant
                n == word@.len(),
                pat == self.value@,
                known == self.known_chars@,
                pat.len() == n,
                i <= n,
                match_rec(pat, known, word@, 0, Seq::empty(), Seq::empty()) == match_rec(
                    pat,
                    known,
                    word@,
                    i as int,
                    wildcard_values@,
                    placeholder_values.values@,
                ),
            decreases n - i,
        {
            let word_char = word.get_char(i);
            let pattern_char = self.value[i];
            if pattern_char == '*' || pattern_char == '+' || pattern_char == '_' {
                if placeholder_values.contains_word_char(word_char) {
                    return None;
                }
                if contains_char(&self.known_chars, word_char) {
                    return None;
                }
                if contains_char(&wildcard_values, word_char) {
                    return None;
                }
                wildcard_values.push(word_char);
            } else if '0' <= pattern_char && pattern_char <= '9' {
                if contains_char(&self.known_chars, word_char) {
                    return None;
                }
                match placeholder_values.test_word_char(word_char, pattern_char) {
                    WildcardValueResult::NotPresent => {
                        placeholder_values.add(word_char, pattern_char);
                    },
                    WildcardValueResult::NotEqual => {
                        return None;
                    },
                    WildcardValueResult::Equal => {},
                }
            } else {
                if word_char != pattern_char {
                    return None;
                }
            }
            i = i + 1;
        }
        let m = Match {
            pattern: self.clone(),
            word: copy_str(word),
            wildcard_values,
            placeholder_values,
        };
        Some(m)
    }
}

/// An owned copy of a borrowed word.
fn copy_str(s: &str) -> (r: String)
    ensures
        r@ == s@,
{
    s.to_owned()
}

} // verus!

verus! {

/// How many characters of `s` equal `c`.
pub open spec fn count_eq(s: Seq<char>, c: char) -> int
    decreases s.len(),
{
    if s.len() == 0 {
        0
    } else {
        count_eq(s.drop_last(), c) + if s.last() == c {
            1int
        } else {
            0int
        }
    }
}

/// No more occurrences than characters.
proof fn lemma_count_eq_le(s: Seq<char>, c: char)
    ensures
        0 <= count_eq(s, c) <= s.len(),
    decreases s.len(),
{
    if s.len() > 0 {
        lemma_count_eq_le(s.drop_last(), c);
    }
}

/// The cost contributed by pattern position `i`: a wildcard costs three per
/// pattern character, the n-th occurrence of a placeholder digit twelve
/// times n, and the n-th occurrence of a literal thirty-two times n, each
/// scaled by the pattern's length. These are the original fractional
/// weights, scaled by eight so they stay whole numbers.
pub open spec fn score_term(v: Seq<char>, i: int) -> int {
    let c = v[i];
    if is_wildcard(c) {
        3 * (v.len() as int)
    } else if is_placeholder(c) {
        12 * (v.len() as int) * count_eq(v.take(i + 1), c)
    } else {
        32 * (v.len() as int) * count_eq(v.take(i + 1), c)
    }
}

/// The cost of the first `i` positions.
pub open spec fn score_upto(v: Seq<char>, i: int) -> int
    decreases i,
{
    if i <= 0 {
        0
    } else {
        score_upto(v, i - 1) + score_term(v, i - 1)
    }
}

/// The exactness score of a whole pattern: how strongly it pins words down.
/// Patterns are solved in ascending score order.
pub open spec fn exactness8(v: Seq<char>) -> int {
    score_upto(v, v.len() as int)
}

/// Two patterns with the same mask and the same literal set.
pub open spec fn pattern_like(a: Pattern, b: Pattern) -> bool {
    a.value@ == b.value@ && a.known_chars@ == b.known_chars@
}

/// Occurrences of `c` among the first `upto` characters of `v`.
fn count_occurrences(v: &Vec<char>, upto: usize, c: char) -> (r: usize)
    requires
        upto <= v@.len(),
    ensures
        r == count_eq(v@.take(upto as int), c),
        r <= upto,
{
    let mut count: usize = 0;
    let mut j: usize = 0;
    while j < upto
        invariant
            j <= upto <= v@.len(),
            count == count_eq(v@.take(j as int), c),
            count <= j,
        decreases upto - j,
    {
        proof {
            assert(v@.take(j + 1).drop_last() =~= v@.take(j as int));
            assert(v@.take(j + 1).last() == v@[j as int]);
        }
        if v[j] == c {
            count = count + 1;
        }
        j = j + 1;
    }
    count
}

/// The exactness score, computed position by position.
fn exactness_score_of(p: &Pattern) -> (r: u64)
    requires
        p.value@.len() <= 10000,
    ensures
        r == exactness8(p.value@),
{
    let n = p.value.len();
    let mut score: u64 = 0;
    let mut i: usize = 0;
    while i < n
        invariant
            n == p.value@.len() <= 10000,
            i <= n,
            score == score_upto(p.value@, i as int),
            score <= 3200000000 * (i as int),
        decreases n - i,
    {
        let c = p.value[i];
        let term: u64 = if c == '*' || c == '+' || c == '_' {
            3 * (n as u64)
        } else {
            let occ = count_occurrences(&p.value, i + 1, c);
            proof {
                lemma_count_eq_le(p.value@.take(i + 1), c);
                assert(12 * (n as int) * (occ as int) <= 1200000000 && 32 * (n as int) * (
                occ as int) <= 3200000000) by (nonlinear_arith)
                    requires
                        0 <= occ <= n <= 10000,
                ;
            }
            if '0' <= c && c <= '9' {
                12 * (n as u64) * (occ as u64)
            } else {
                32 * (n as u64) * (occ as u64)
            }
        };
        proof {
            assert(term == score_term(p.value@, i as int));
        }
        score = score + term;
        i = i + 1;
    }
    score
}

/// A set of patterns to be solved together, with a copy ordered by ascending
/// exactness so the most selective patterns are tried first, and the map
/// from each pattern's original position to its position in that order.
pub struct PatternSystem {
    patterns: Vec<Pattern>,
    ordered_by_exactness: Vec<Pattern>,
    order: Vec<usize>,
}

impl PatternSystem {
    /// The patterns as given.
    pub closed spec fn pats(&self) -> Seq<Pattern> {
        self.patterns@
    }

    /// The same patterns, ordered by ascending exactness.
    pub closed spec fn ordered_model(&self) -> Seq<Pattern> {
        self.ordered_by_exactness@
    }

    /// Where each original pattern went in the ordering.
    pub closed spec fn order_model(&self) -> Seq<usize> {
        self.order@
    }

    /// Orders the patterns by ascending exactness (stably) and remembers
    /// where each one went.
    pub fn new(patterns: Vec<Pattern>) -> (r: Result<PatternSystem, String>)
        requires
            forall|k: int|
                0 <= k < patterns@.len() ==> (#[trigger] patterns@[k]).value@.len() <= 10000,
        ensures
            r is Ok,
            ({
                let sys = r->Ok_0;
                &&& sys.pats() == patterns@
                &&& sys.ordered_model().len() == patterns@.len()
                &&& sys.order_model().len() == patterns@.len()
                &&& forall|j1: int, j2: int|
                    0 <= j1 < j2 < sys.ordered_model().len() ==> exactness8(
                        (#[trigger] sys.ordered_model()[j1]).value@,
                    ) <= exactness8((#[trigger] sys.ordered_model()[j2]).value@)
                &&& forall|k: int|
                    0 <= k < patterns@.len() ==> (#[trigger] sys.order_model()[k]) < patterns@.len()
                        && pattern_like(sys.ordered_model()[sys.order_model()[k] as int], patterns@[k])
            }),
    {
        let mut ordered: Vec<Pattern> = Vec::new();
        let mut scores: Vec<u64> = Vec::new();
        let mut order: Vec<usize> = Vec::new();
        let mut k: usize = 0;
        while k < patterns.len()
            invariant
                k <= patterns@.len(),
                forall|m: int|
                    0 <= m < patterns@.len() ==> (#[trigger] patterns@[m]).value@.len() <= 10000,
                ordered@.len() == k,
                scores@.len() == k,
                order@.len() == k,
                forall|j: int|
                    0 <= j < k ==> #[trigger] scores@[j] == exactness8(ordered@[j].value@),
                forall|j1: int, j2: int| 0 <= j1 < j2 < k ==> scores@[j1] <= scores@[j2],
                forall|m: int|
                    0 <= m < k ==> (#[trigger] order@[m]) < k && pattern_like(
                        ordered@[order@[m] as int],
                        patterns@[m],
                    ),
            decreases patterns@.len() - k,
        {
            let p = patterns[k].clone();
            let ghost pv = p;
            proof {
                assert(pattern_like(pv, patterns@[k as int]));
            }
            let sc = exactness_score_of(&p);
            let mut pos: usize = 0;
            while pos < scores.len() && scores[pos] <= sc
                invariant
                    pos <= scores@.len(),
                    forall|j: int| 0 <= j < pos ==> #[trigger] scores@[j] <= sc,
                decreases scores@.len() - pos,
            {
                pos = pos + 1;
            }
            let ghost old_ordered = ordered@;
            let ghost old_scores = scores@;
            let ghost old_order = order@;
            ordered.insert(pos, p);
            scores.insert(pos, sc);
            proof {
                old_ordered.insert_ensures(pos as int, pv);
                old_scores.insert_ensures(pos as int, sc);
            }
            let mut m: usize = 0;
            while m < order.len()
                invariant
                    m <= order@.len(),
                    order@.len() == k,
                    pos <= k,
                    old_ordered.len() == k,
                    ordered@ == old_ordered.insert(pos as int, pv),
                    ordered@.len() == k + 1,
                    ordered@[pos as int] == pv,
                    forall|j: int|
                        0 <= j < m ==> (#[trigger] order@[j]) < k + 1 && pattern_like(
                            ordered@[order@[j] as int],
                            patterns@[j],
                        ),
                    forall|j: int|
                        m <= j < k ==> (#[trigger] order@[j]) < k && pattern_like(
                            old_ordered[order@[j] as int],
                            patterns@[j],
                        ),
                decreases order@.len() - m,
            {
                let at = order[m];
                proof {
                    old_ordered.insert_ensures(pos as int, pv);
                    if at >= pos {
                        assert(ordered@[at + 1] == old_ordered[at as int]);
                    } else {
                        assert(ordered@[at as int] == old_ordered[at as int]);
                    }
                }
                if at >= pos {
                    order.set(m, at + 1);
                }
                m = m + 1;
            }
            order.push(pos);
            proof {
                old_ordered.insert_ensures(pos as int, pv);
                old_scores.insert_ensures(pos as int, sc);
                assert(ordered@[pos as int] == pv);
                assert(pattern_like(ordered@[pos as int], patterns@[k as int]));
                assert forall|j: int| 0 <= j < k + 1 implies #[trigger] scores@[j] == exactness8(
                    ordered@[j].value@,
                ) by {
                    if j < pos {
                        assert(scores@[j] == old_scores[j]);
                        assert(ordered@[j] == old_ordered[j]);
                    } else if j > pos {
                        assert(scores@[j] == old_scores[j - 1]);
                        assert(ordered@[j] == old_ordered[j - 1]);
                    }
                }
                assert forall|j1: int, j2: int| 0 <= j1 < j2 < k + 1 implies scores@[j1]
                    <= scores@[j2] by {
                    if j1 < pos {
                        assert(scores@[j1] == old_scores[j1]);
                    }
                    if j2 > pos {
                        assert(scores@[j2] == old_scores[j2 - 1]);
                    }
                    if j2 < pos {
                        assert(scores@[j2] == old_scores[j2]);
                    }
                    if j1 > pos {
                        assert(scores@[j1] == old_scores[j1 - 1]);
                    }
                }
            }
            k = k + 1;
        }
        let ghost ordv = ordered@;
        let ghost ordr = order@;
        let ghost scv = scores@;
        let ghost pv_all = patterns@;
        let sys = PatternSystem { patterns, ordered_by_exactness: ordered, order };
        proof {
            assert(sys.pats() == pv_all);
            assert(sys.ordered_model() == ordv);
            assert(sys.order_model() == ordr);
            assert forall|j1: int, j2: int|
                0 <= j1 < j2 < sys.ordered_model().len() implies exactness8(
                (#[trigger] sys.ordered_model()[j1]).value@,
            ) <= exactness8((#[trigger] sys.ordered_model()[j2]).value@) by {
                assert(scv[j1] == exactness8(ordv[j1].value@));
                assert(scv[j2] == exactness8(ordv[j2].value@));
                assert(scv[j1] <= scv[j2]);
            }
            assert forall|k2: int| 0 <= k2 < pv_all.len() implies (#[trigger] sys.order_model()[
                k2
            ]) < pv_all.len() && pattern_like(
                sys.ordered_model()[sys.order_model()[k2] as int],
                pv_all[k2],
            ) by {
                assert(ordr[k2] < pv_all.len() && pattern_like(ordv[ordr[k2] as int], pv_all[k2]));
            }
        }
        Ok(sys)
    }

    /// The patterns in ascending exactness order.
    pub fn ordered(&self) -> (r: &[Pattern])
        ensures
            r@ == self.ordered_model(),
    {
        self.ordered_by_exactness.as_slice()
    }

    /// Rearranges matches found in exactness order back into the patterns'
    /// original order.
    pub fn original_order<'k>(&self, exactness_order: &'k [Match]) -> (r: Vec<&'k Match>)
        requires
            forall|m: int|
                0 <= m < self.order_model().len() ==> (#[trigger] self.order_model()[m])
                    < exactness_order@.len(),
        ensures
            r@.len() == self.order_model().len(),
            forall|m: int|
                0 <= m < r@.len() ==> #[trigger] r@[m] == &exactness_order@[self.order_model()[
                    m
                ] as int],
    {
        proof {
            assert(self.order_model() == self.order@);
            assert forall|j: int| 0 <= j < self.order@.len() implies (#[trigger] self.order@[j])
                < exactness_order@.len() by {
                assert(self.order_model()[j] == self.order@[j]);
            }
        }
        let mut original_order: Vec<&'k Match> = Vec::new();
        let mut m: usize = 0;
        while m < self.order.len()
            invariant
                m <= self.order@.len(),
                original_order@.len() == m,
                forall|j: int|
                    0 <= j < self.order@.len() ==> (#[trigger] self.order@[j])
                        < exactness_order@.len(),
                forall|j: int|
                    0 <= j < m ==> #[trigger] original_order@[j] == &exactness_order@[self.order@[
                        j
                    ] as int],
            decreases self.order@.len() - m,
        {
            let index_in_ordered = self.order[m];
            original_order.push(&exactness_order[index_in_ordered]);
            m = m + 1;
        }
        original_order
    }
}

} // verus!
