//! An earlier generation of the solver: a full substitution mapping is grown
//! word by word, and every mapping that decodes the whole phrase into
//! vocabulary words is collected.

use vstd::prelude::*;
use crate::cipher_text::{count_true, lemma_count_all_false, lemma_count_true_le,
    lemma_count_true_update};
use crate::vocabulary::{Vocabulary, is_lower, lower_word};

verus! {

/// The placeholder for a cipher letter whose decoding is not fixed yet.
pub const UNKNOWN: char = '-';

/// Every entry of an encoding is a fixed lowercase letter or still unknown.
pub open spec fn enc_wf(e: Seq<char>) -> bool {
    e.len() == 26 && forall|i: int| 0 <= i < 26 ==> is_lower(#[trigger] e[i]) || e[i] == '-'
}

/// What the mapping of one cipher letter merged over another entry gives:
/// a fixed entry of `b` wins, an unknown entry of `b` keeps `a`'s.
pub open spec fn merge_enc(a: Seq<char>, b: Seq<char>) -> Seq<char> {
    Seq::new(26, |i: int| if b[i] == '-' { a[i] } else { b[i] })
}

/// Entries `i` of the two encodings fix the same cipher letter differently.
pub open spec fn enc_conflict(a: Seq<char>, b: Seq<char>, i: int) -> bool {
    a[i] != '-' && b[i] != '-' && a[i] != b[i]
}

/// Decodes one cipher letter under an encoding.
pub open spec fn decode_char(e: Seq<char>, c: char) -> char {
    e[c as int - 97]
}

/// Decodes one cipher word letter by letter.
pub open spec fn decode_word(e: Seq<char>, w: Seq<char>) -> Seq<char> {
    w.map_values(|c: char| decode_char(e, c))
}

/// Decodes a phrase and joins the decoded words with single spaces.
pub open spec fn decode_join(e: Seq<char>, words: Seq<Seq<char>>) -> Seq<char>
    decreases words.len(),
{
    if words.len() == 0 {
        Seq::empty()
    } else if words.len() == 1 {
        decode_word(e, words[0])
    } else {
        decode_join(e, words.drop_last()) + seq![' '] + decode_word(e, words.last())
    }
}

/// One fixed decoding: cipher letter `from` decodes to plaintext `to`.
#[derive(Debug, Clone, Copy, PartialEq, Eq, Structural, Hash)]
pub struct CharEncoding {
    pub from: char,
    pub to: char,
}

impl CharEncoding {
    /// Fixes `from` to decode to `to`.
    pub fn new(from: char, to: char) -> (r: CharEncoding)
        ensures
            r.from == from,
            r.to == to,
    {
        CharEncoding { from, to }
    }
}

/// Why a phrase, a fixed decoding, or a combination of mappings is rejected.
#[derive(Debug, Clone, Copy, PartialEq, Eq, Structural)]
pub enum Contradiction {
    /// A cipher letter would have to decode to two different letters; the
    /// held pair names the cipher letter and the decoding already fixed.
    Encoding(CharEncoding),
    /// The same cipher word position was already satisfied.
    CypherWordApplied(usize),
    /// The phrase holds a character outside `a`..=`z`.
    InvalidChar(char),
}

impl Contradiction {
    /// The conflict of fixing cipher letter `from`, already decoding to `to`.
    pub fn encoding(from: char, to: char) -> (r: Contradiction)
        ensures
            r == Contradiction::Encoding(CharEncoding { from, to }),
    {
        Contradiction::Encoding(CharEncoding::new(from, to))
    }

    /// The conflict of satisfying cipher word `cypher_word_index` twice.
    pub fn same_cypher_word_already_applied(cypher_word_index: usize) -> (r: Contradiction)
        ensures
            r == Contradiction::CypherWordApplied(cypher_word_index),
    {
        Contradiction::CypherWordApplied(cypher_word_index)
    }
}

/// The conflict at alphabet index `index`, whose fixed decoding clashes with
/// `other_char_encoding`.
pub fn contradiction(index: usize, other_char_encoding: char) -> (r: Contradiction)
    requires
        index < 26,
    ensures
        r == Contradiction::Encoding(
            CharEncoding { from: ((index + 97) as u8) as char, to: other_char_encoding },
        ),
{
    Contradiction::Encoding(CharEncoding::new(index_to_char(index), other_char_encoding))
}

/// The alphabet index of a lowercase letter: 0 for `a`, 25 for `z`.
pub fn char_to_index(ch: char) -> (r: usize)
    requires
        is_lower(ch),
    ensures
        r == ch as int - 97,
        r < 26,
{
    (ch as u8 - 97) as usize
}

/// The lowercase letter at an alphabet index.
pub fn index_to_char(index: usize) -> (r: char)
    requires
        index < 26,
    ensures
        r == ((index + 97) as u8) as char,
        is_lower(r),
{
    let r = ((index as u8) + 97) as char;
    proof {
        assert(r as u8 == index + 97);
    }
    r
}

/// Accepts a phrase of lowercase words; rejects the first other character.
pub fn validate_phrase(phrase: &[String]) -> (r: Result<(), Contradiction>)
    ensures
        r is Ok <==> (forall|i: int|
            0 <= i < phrase@.len() ==> lower_word(#[trigger] phrase@[i]@)),
        r matches Err(e) ==> e matches Contradiction::InvalidChar(c) && !is_lower(c) && exists|
            i: int,
            j: int,
        |
            0 <= i < phrase@.len() && 0 <= j < phrase@[i]@.len() && (#[trigger] phrase@[i]@[j])
                == c,
{
    let mut i: usize = 0;
    while i < phrase.len()
        invariant
            i <= phrase@.len(),
            forall|m: int| 0 <= m < i ==> lower_word(#[trigger] phrase@[m]@),
        decreases phrase@.len() - i,
    {
        let word = &phrase[i];
        let n = word.as_str().unicode_len();
        let mut j: usize = 0;
        while j < n
            invariant
                i < phrase@.len(),
                n == phrase@[i as int]@.len(),
                word@ == phrase@[i as int]@,
                j <= n,
                forall|m: int| 0 <= m < j ==> is_lower(#[trigger] word@[m]),
            decreases n - j,
        {
            let c = word.as_str().get_char(j);
            let u = c as u32;
            if !(97 <= u && u <= 122) {
                proof {
                    assert(phrase@[i as int]@[j as int] == c && !is_lower(c));
                }
                return Err(Contradiction::InvalidChar(c));
            }
            j = j + 1;
        }
        i = i + 1;
    }
    Ok(())
}

/// A complete substitution mapping under construction or already built: one
/// entry per cipher letter, `-` while undecided.
#[derive(Debug)]
struct Solution {
    encoding: Vec<char>,
}

impl Solution {
    /// The 26 entries, one per cipher letter.
    spec fn enc(&self) -> Seq<char> {
        self.encoding@
    }

    /// An exact copy.
    fn duplicate(&self) -> (r: Solution)
        ensures
            r.enc() == self.enc(),
    {
        let mut copy: Vec<char> = Vec::new();
        let mut k: usize = 0;
        while k < self.encoding.len()
            invariant
                k <= self.encoding@.len(),
                copy@ == self.encoding@.take(k as int),
            decreases self.encoding@.len() - k,
        {
            copy.push(self.encoding[k]);
            k = k + 1;
        }
        proof {
            assert(copy@ =~= self.encoding@);
        }
        Solution { encoding: copy }
    }
}

/// Builds a substitution mapping entry by entry, rejecting conflicts.
#[derive(Debug)]
struct SolutionBuilder {
    encoding: Vec<char>,
}

impl SolutionBuilder {
    /// The entries fixed so far.
    spec fn enc(&self) -> Seq<char> {
        self.encoding@
    }

    /// A mapping with nothing fixed.
    fn new() -> (r: SolutionBuilder)
        ensures
            r.enc() =~= Seq::new(26, |i: int| '-'),
            enc_wf(r.enc()),
    {
        let mut encoding: Vec<char> = Vec::new();
        let mut k: usize = 0;
        while k < 26
            invariant
                k <= 26,
                encoding@.len() == k,
                forall|m: int| 0 <= m < k ==> #[trigger] encoding@[m] == '-',
            decreases 26 - k,
        {
            encoding.push('-');
            k = k + 1;
        }
        SolutionBuilder { encoding }
    }

    /// Continues from an already built mapping.
    fn based_on(base_solution: &Solution) -> (r: SolutionBuilder)
        ensures
            r.enc() == base_solution.enc(),
    {
        SolutionBuilder { encoding: base_solution.duplicate().encoding }
    }

    /// Freezes the mapping.
    fn build(self) -> (r: Solution)
        ensures
            r.enc() == self.enc(),
    {
        Solution { encoding: self.encoding }
    }

    /// Fixes one decoding, unless the cipher letter is already fixed to a
    /// different plaintext letter; the error names what it is fixed to.
    fn insert(&mut self, encoding: CharEncoding) -> (r: Result<(), Contradiction>)
        requires
            is_lower(encoding.from),
            is_lower(encoding.to),
            enc_wf(old(self).enc()),
        ensures
            enc_wf(final(self).enc()),
            ({
                let i = encoding.from as int - 97;
                let existing = old(self).enc()[i];
                if existing != '-' && existing != encoding.to {
                    r == Err::<(), Contradiction>(
                        Contradiction::Encoding(
                            CharEncoding { from: encoding.from, to: existing },
                        ),
                    ) && final(self).enc() == old(self).enc()
                } else {
                    r is Ok && final(self).enc() == old(self).enc().update(i, encoding.to)
                }
            }),
    {
        let i = char_to_index(encoding.from);
        let existing = self.encoding[i];
        if existing != '-' && existing != encoding.to {
            return Err(Contradiction::encoding(encoding.from, existing));
        }
        self.encoding.set(i, encoding.to);
        Ok(())
    }

    /// Merges another mapping in: its fixed entries win over unknowns, and a
    /// disagreement on a fixed entry is the error, naming the cipher letter
    /// and the other mapping's decoding.
    fn add(self, other: &Solution) -> (r: Result<SolutionBuilder, Contradiction>)
        requires
            self.enc().len() == 26,
            other.enc().len() == 26,
        ensures
            match r {
                Ok(b) => (forall|i: int| 0 <= i < 26 ==> !enc_conflict(self.enc(), other.enc(), i))
                    && b.enc() =~= merge_enc(self.enc(), other.enc()),
                Err(e) => exists|i: int|
                    0 <= i < 26 && #[trigger] enc_conflict(self.enc(), other.enc(), i) && e
                        == Contradiction::Encoding(
                        CharEncoding { from: ((i + 97) as u8) as char, to: other.enc()[i] },
                    ),
            },
    {
        let mut merged = self;
        let mut i: usize = 0;
        while i < 26
            invariant
                merged.enc().len() == 26,
                other.enc().len() == 26,
                forall|m: int| 0 <= m < i ==> !enc_conflict(self.enc(), other.enc(), m),
                forall|m: int|
                    0 <= m < i ==> #[trigger] merged.enc()[m] == merge_enc(
                        self.enc(),
                        other.enc(),
                    )[m],
                forall|m: int| i <= m < 26 ==> #[trigger] merged.enc()[m] == self.enc()[m],
            decreases 26 - i,
        {
            let other_c = other.encoding[i];
            let self_c = merged.encoding[i];
            if other_c == '-' {
            } else if self_c == '-' {
                merged.encoding.set(i, other_c);
            } else if self_c != other_c {
                proof {
                    assert(enc_conflict(self.enc(), other.enc(), i as int));
                }
                return Err(contradiction(i, other_c));
            }
            i = i + 1;
        }
        Ok(merged)
    }
}

/// A phrase to decode, with any decodings fixed in advance.
#[derive(Debug)]
pub struct Cypher {
    phrase: Vec<String>,
    known_solution: Option<Solution>,
}

impl Cypher {
    /// The cipher words, as character sequences.
    pub closed spec fn phrase_model(&self) -> Seq<Seq<char>> {
        self.phrase@.map_values(|s: String| s@)
    }

    /// The phrase is lowercase and any fixed mapping is well formed.
    pub closed spec fn wf(&self) -> bool {
        &&& forall|i: int|
            0 <= i < self.phrase_model().len() ==> lower_word(#[trigger] self.phrase_model()[i])
        &&& match self.known_solution {
            Some(s) => enc_wf(s.enc()),
            None => true,
        }
    }

    /// Accepts a lowercase phrase and folds the fixed decodings into one
    /// mapping, rejecting a phrase with other characters or decodings that
    /// conflict with each other.
    pub fn new(phrase: Vec<String>, known_char_encodings: Vec<CharEncoding>) -> (r: Result<
        Cypher,
        Contradiction,
    >)
        requires
            forall|k: int|
                0 <= k < known_char_encodings@.len() ==> is_lower(
                    (#[trigger] known_char_encodings@[k]).from,
                ) && is_lower(known_char_encodings@[k].to),
        ensures
            match r {
                Ok(c) => {
                    &&& c.wf()
                    &&& c.phrase_model() == phrase@.map_values(|s: String| s@)
                    &&& forall|i: int|
                        0 <= i < phrase@.len() ==> lower_word(#[trigger] phrase@[i]@)
                },
                Err(_) => true,
            },
    {
        match validate_phrase(phrase.as_slice()) {
            Err(e) => {
                return Err(e);
            },
            Ok(()) => {},
        }
        if known_char_encodings.len() == 0 {
            let c = Cypher { phrase, known_solution: None };
            proof {
                assert(c.phrase_model() =~= c.phrase@.map_values(|s: String| s@));
            }
            return Ok(c);
        }
        let mut known_solution = SolutionBuilder::new();
        let mut k: usize = 0;
        while k < known_char_encodings.len()
            invariant
                k <= known_char_encodings@.len(),
                enc_wf(known_solution.enc()),
                forall|m: int|
                    0 <= m < known_char_encodings@.len() ==> is_lower(
                        (#[trigger] known_char_encodings@[m]).from,
                    ) && is_lower(known_char_encodings@[m].to),
            decreases known_char_encodings@.len() - k,
        {
            match known_solution.insert(known_char_encodings[k]) {
                Err(e) => {
                    return Err(e);
                },
                Ok(()) => {},
            }
            k = k + 1;
        }
        Ok(Cypher { phrase, known_solution: Some(known_solution.build()) })
    }

    /// Decodes every phrase word under one mapping.
    fn decode_with(&self, solution: &Solution) -> (r: Vec<String>)
        requires
            self.wf(),
            enc_wf(solution.enc()),
        ensures
            r@.len() == self.phrase_model().len(),
            forall|i: int|
                0 <= i < r@.len() ==> (#[trigger] r@[i])@ == decode_word(
                    solution.enc(),
                    self.phrase_model()[i],
                ),
    {
        let mut result: Vec<String> = Vec::new();
        let mut i: usize = 0;
        while i < self.phrase.len()
            invariant
                self.wf(),
                enc_wf(solution.enc()),
                i <= self.phrase@.len(),
                result@.len() == i,
                forall|m: int|
                    0 <= m < i ==> (#[trigger] result@[m])@ == decode_word(
                        solution.enc(),
                        self.phrase_model()[m],
                    ),
            decreases self.phrase@.len() - i,
        {
            proof {
                assert(lower_word(self.phrase_model()[i as int]));
            }
            let decoded = decode_word_exec(&self.phrase[i], solution);
            result.push(decoded);
            i = i + 1;
        }
        result
    }

    /// Tries every vocabulary word against every cipher word, growing the
    /// collection of mappings; mappings that satisfy the whole phrase are
    /// collected as full solutions.
    pub fn solve_for(self, vocabulary: &Vocabulary) -> (r: SolutionAggregator)
        requires
            self.wf(),
        ensures
            r.wf(),
            r.phrase_model() == self.phrase_model(),
    {
        let word_count = vocabulary.len();
        let mut aggregator = SolutionAggregator::new(self);
        let ghost ph = aggregator.phrase_model();
        let mut w: usize = 0;
        while w < word_count
            invariant
                aggregator.wf(),
                aggregator.phrase_model() == ph,
                word_count == vocabulary.words().len(),
            decreases word_count - w,
        {
            let word = match vocabulary.get(crate::vocabulary::WordId(w)) {
                Some(t) => t,
                None => {
                    // w counts up to the vocabulary's length, so the lookup
                    // cannot miss
                    proof {
                        assert(false);
                    }
                    return aggregator;
                },
            };
            let _ = aggregator.visit(word);
            w = w + 1;
        }
        aggregator
    }
}

/// Decodes one word under a mapping, building the plaintext string.
fn decode_word_exec(word: &String, solution: &Solution) -> (r: String)
    requires
        lower_word(word@),
        enc_wf(solution.enc()),
    ensures
        r@ == decode_word(solution.enc(), word@),
{
    let alphabet = "abcdefghijklmnopqrstuvwxyz-";
    proof {
        reveal_strlit("abcdefghijklmnopqrstuvwxyz-");
        assert(alphabet@.len() == 27);
        assert(alphabet.is_ascii());
    }
    let n = word.as_str().unicode_len();
    let mut out = String::new();
    let mut j: usize = 0;
    while j < n
        invariant
            n == word@.len(),
            lower_word(word@),
            enc_wf(solution.enc()),
            alphabet@ =~= "abcdefghijklmnopqrstuvwxyz-"@,
            alphabet.is_ascii(),
            alphabet@.len() == 27,
            j <= n,
            out@ == decode_word(solution.enc(), word@).take(j as int),
        decreases n - j,
    {
        proof {
            reveal_strlit("abcdefghijklmnopqrstuvwxyz-");
        }
        let c = word.as_str().get_char(j);
        let idx = char_to_index(c);
        let decoded = solution.encoding[idx];
        let slot = if decoded == '-' {
            26
        } else {
            proof {
                assert(is_lower(decoded));
            }
            char_to_index(decoded)
        };
        let piece = alphabet.substring_ascii(slot, slot + 1);
        out.append(piece);
        proof {
            assert(piece@ =~= seq![decoded]) by {
                assert(piece@.len() == 1);
                assert(piece@[0] == alphabet@[slot as int]);
                assert(alphabet@[slot as int] == decoded);
            }
            assert(decode_word(solution.enc(), word@)[j as int] == decoded);
            assert(out@ =~= decode_word(solution.enc(), word@).take(j + 1));
        }
        j = j + 1;
    }
    proof {
        assert(decode_word(solution.enc(), word@).take(n as int) =~= decode_word(
            solution.enc(),
            word@,
        ));
    }
    out
}

/// One partially satisfying mapping: which phrase words it already decodes
/// into vocabulary words.
#[derive(Debug)]
struct PartialSolution {
    solution: Solution,
    satisfied_phrase_parts: Vec<bool>,
    satisfied_count: usize,
}

impl PartialSolution {
    /// The mapping is well formed, the marks cover the phrase, and the count
    /// tallies the marks.
    spec fn wf(&self, phrase_len: int) -> bool {
        &&& enc_wf(self.solution.enc())
        &&& self.satisfied_phrase_parts@.len() == phrase_len
        &&& self.satisfied_count == count_true(self.satisfied_phrase_parts@)
    }

    /// A mapping that satisfies exactly the phrase word `cypher_word_index`.
    fn new(solution: Solution, cypher_word_index: usize, phrase_len: usize) -> (r: PartialSolution)
        requires
            enc_wf(solution.enc()),
            cypher_word_index < phrase_len,
        ensures
            r.wf(phrase_len as int),
            r.satisfied_count == 1,
    {
        let mut satisfied_phrase_parts: Vec<bool> = Vec::new();
        let mut k: usize = 0;
        while k < phrase_len
            invariant
                k <= phrase_len,
                satisfied_phrase_parts@.len() == k,
                forall|m: int| 0 <= m < k ==> !(#[trigger] satisfied_phrase_parts@[m]),
            decreases phrase_len - k,
        {
            satisfied_phrase_parts.push(false);
            k = k + 1;
        }
        proof {
            lemma_count_all_false(satisfied_phrase_parts@);
            lemma_count_true_update(satisfied_phrase_parts@, cypher_word_index as int);
        }
        satisfied_phrase_parts.set(cypher_word_index, true);
        PartialSolution { solution, satisfied_phrase_parts, satisfied_count: 1 }
    }

    /// Extends the mapping with another word's mapping at another phrase
    /// word; rejects reusing a phrase word or a conflicting mapping.
    fn add(&self, new_solution: &Solution, cypher_word_index: usize, Ghost(phrase_len): Ghost<int>)
        -> (r: Result<PartialSolution, Contradiction>)
        requires
            self.wf(phrase_len),
            enc_wf(new_solution.enc()),
            cypher_word_index < phrase_len,
        ensures
            r matches Ok(p) ==> p.wf(phrase_len) && p.satisfied_count == self.satisfied_count + 1
                && p.satisfied_count <= phrase_len,
    {
        if self.satisfied_phrase_parts[cypher_word_index] {
            return Err(Contradiction::same_cypher_word_already_applied(cypher_word_index));
        }
        let merged = match SolutionBuilder::based_on(&self.solution).add(new_solution) {
            Ok(b) => b.build(),
            Err(e) => {
                return Err(e);
            },
        };
        proof {
            assert(enc_wf(merged.enc())) by {
                assert(forall|i: int|
                    0 <= i < 26 ==> #[trigger] merge_enc(self.solution.enc(), new_solution.enc())[i]
                        == (if new_solution.enc()[i] == '-' {
                        self.solution.enc()[i]
                    } else {
                        new_solution.enc()[i]
                    }));
            }
            lemma_count_true_update(self.satisfied_phrase_parts@, cypher_word_index as int);
            lemma_count_true_le(self.satisfied_phrase_parts@.update(cypher_word_index as int, true));
        }
        let marks_total = self.satisfied_phrase_parts.len();
        proof {
            lemma_count_true_le(self.satisfied_phrase_parts@);
            assert(self.satisfied_count <= marks_total);
        }
        let mut satisfied_phrase_parts = copy_bools(&self.satisfied_phrase_parts);
        satisfied_phrase_parts.set(cypher_word_index, true);
        Ok(
            PartialSolution {
                solution: merged,
                satisfied_phrase_parts,
                satisfied_count: self.satisfied_count + 1,
            },
        )
    }
}

/// An exact copy of a list of marks.
fn copy_bools(v: &Vec<bool>) -> (r: Vec<bool>)
    ensures
        r@ == v@,
{
    let mut copy: Vec<bool> = Vec::new();
    let mut k: usize = 0;
    while k < v.len()
        invariant
            k <= v@.len(),
            copy@ == v@.take(k as int),
        decreases v@.len() - k,
    {
        copy.push(v[k]);
        k = k + 1;
    }
    proof {
        assert(copy@ =~= v@);
    }
    copy
}

/// Some well-formed mapping decodes the phrase, joined by spaces, to `s`.
pub open spec fn decoded_by_some(s: Seq<char>, phrase: Seq<Seq<char>>) -> bool {
    exists|e: Seq<char>| enc_wf(e) && s == decode_join(e, phrase)
}

/// Collects, over all vocabulary words, the partially and fully satisfying
/// substitution mappings of one phrase.
#[derive(Debug)]
pub struct SolutionAggregator {
    cypher: Cypher,
    partial_solutions: Vec<PartialSolution>,
    full_solutions: Vec<Solution>,
}

impl SolutionAggregator {
    /// The phrase being decoded.
    pub closed spec fn phrase_model(&self) -> Seq<Seq<char>> {
        self.cypher.phrase_model()
    }

    /// How many full solutions were found.
    pub closed spec fn full_count(&self) -> int {
        self.full_solutions@.len() as int
    }

    /// The phrase is lowercase and every held mapping is well formed.
    pub closed spec fn wf(&self) -> bool {
        &&& self.cypher.wf()
        &&& forall|k: int|
            0 <= k < self.partial_solutions@.len() ==> (#[trigger] self.partial_solutions@[k]).wf(
                self.phrase_model().len() as int,
            )
        &&& forall|k: int|
            0 <= k < self.full_solutions@.len() ==> enc_wf(
                (#[trigger] self.full_solutions@[k]).enc(),
            )
    }

    /// Starts with no mappings found.
    fn new(cypher: Cypher) -> (r: SolutionAggregator)
        requires
            cypher.wf(),
        ensures
            r.wf(),
            r.phrase_model() == cypher.phrase_model(),
            r.full_count() == 0,
    {
        SolutionAggregator { cypher, partial_solutions: Vec::new(), full_solutions: Vec::new() }
    }

    /// Decodes the phrase under every full solution found, words joined by
    /// single spaces, one decoded phrase per solution, in discovery order.
    pub fn decode(&self) -> (r: Vec<String>)
        requires
            self.wf(),
        ensures
            r@.len() == self.full_count(),
            forall|k: int|
                0 <= k < r@.len() ==> decoded_by_some((#[trigger] r@[k])@, self.phrase_model()),
    {
        let mut variants: Vec<String> = Vec::new();
        let mut k: usize = 0;
        while k < self.full_solutions.len()
            invariant
                self.wf(),
                k <= self.full_solutions@.len(),
                variants@.len() == k,
                forall|m: int|
                    0 <= m < k ==> decoded_by_some((#[trigger] variants@[m])@, self.phrase_model()),
            decreases self.full_solutions@.len() - k,
        {
            let solution = &self.full_solutions[k];
            let words = self.cypher.decode_with(solution);
            let joined = join_spaced(&words);
            proof {
                assert(joined@ =~= decode_join(solution.enc(), self.phrase_model())) by {
                    lemma_decode_join(solution.enc(), self.phrase_model(), words@.map_values(
                        |s: String| s@,
                    ));
                }
                assert(enc_wf(solution.enc()) && joined@ == decode_join(
                    solution.enc(),
                    self.phrase_model(),
                ));
                assert(decoded_by_some(joined@, self.phrase_model()));
            }
            variants.push(joined);
            k = k + 1;
        }
        variants
    }

    /// Tries `word` against every cipher word of the phrase: each fit grows
    /// a new mapping, which is combined with every mapping found so far;
    /// mappings that satisfy the whole phrase become full solutions. An
    /// error reports a conflict while mapping `word` onto a cipher word of
    /// its length; the mappings gathered before the conflict are kept.
    pub fn visit(&mut self, word: &str) -> (r: Result<(), Contradiction>)
        requires
            old(self).wf(),
            lower_word(word@),
        ensures
            final(self).wf(),
            final(self).phrase_model() == old(self).phrase_model(),
            final(self).full_count() >= old(self).full_count(),
    {
        let ghost ph = self.phrase_model();
        let phrase_len = self.cypher.phrase.len();
        let word_len = word.unicode_len();
        let mut cypher_word_index: usize = 0;
        while cypher_word_index < phrase_len
            invariant
                self.wf(),
                self.phrase_model() == ph,
                ph == old(self).phrase_model(),
                lower_word(word@),
                word_len == word@.len(),
                phrase_len == self.cypher.phrase@.len(),
                cypher_word_index <= phrase_len,
                self.full_count() >= old(self).full_count(),
            decreases phrase_len - cypher_word_index,
        {
            let cypher_word_len = self.cypher.phrase[cypher_word_index].as_str().unicode_len();
            if word_len != cypher_word_len {
                cypher_word_index = cypher_word_index + 1;
                continue ;
            }
            let mut solution_builder = match &self.cypher.known_solution {
                Some(solution) => SolutionBuilder::based_on(solution),
                None => SolutionBuilder::new(),
            };
            let mut p: usize = 0;
            while p < word_len
                invariant
                    self.wf(),
                    self.phrase_model() == ph,
                    ph == old(self).phrase_model(),
                    lower_word(word@),
                    word_len == word@.len(),
                    phrase_len == self.cypher.phrase@.len(),
                    cypher_word_index < phrase_len,
                    word_len == self.phrase_model()[cypher_word_index as int].len(),
                    p <= word_len,
                    enc_wf(solution_builder.enc()),
                    self.full_count() >= old(self).full_count(),
                decreases word_len - p,
            {
                proof {
                    assert(lower_word(ph[cypher_word_index as int]));
                }
                let cypher_char = self.cypher.phrase[cypher_word_index].as_str().get_char(p);
                let word_char = word.get_char(p);
                match solution_builder.insert(CharEncoding::new(cypher_char, word_char)) {
                    Ok(()) => {},
                    Err(e) => {
                        return Err(e);
                    },
                }
                p = p + 1;
            }
            let solution = solution_builder.build();
            if phrase_len == 1 {
                self.full_solutions.push(solution);
            } else {
                let duplicate = solution.duplicate();
                self.partial_solutions.push(
                    PartialSolution::new(duplicate, cypher_word_index, phrase_len),
                );
                let mut new_partial_solutions: Vec<PartialSolution> = Vec::new();
                let mut k: usize = 0;
                while k < self.partial_solutions.len()
                    invariant
                        self.wf(),
                        self.phrase_model() == ph,
                        ph == old(self).phrase_model(),
                        phrase_len == self.cypher.phrase@.len(),
                        cypher_word_index < phrase_len,
                        enc_wf(solution.enc()),
                        k <= self.partial_solutions@.len(),
                        forall|m: int|
                            0 <= m < new_partial_solutions@.len() ==> (
                            #[trigger] new_partial_solutions@[m]).wf(ph.len() as int),
                        self.full_count() >= old(self).full_count(),
                    decreases self.partial_solutions@.len() - k,
                {
                    let partial = &self.partial_solutions[k];
                    match partial.add(&solution, cypher_word_index, Ghost(ph.len() as int)) {
                        Ok(new_partial) => {
                            if new_partial.satisfied_count == phrase_len {
                                self.full_solutions.push(new_partial.solution);
                            } else {
                                new_partial_solutions.push(new_partial);
                            }
                        },
                        Err(_) => {},
                    }
                    k = k + 1;
                }
                let mut m: usize = 0;
                let total = new_partial_solutions.len();
                while m < total
                    invariant
                        self.wf(),
                        self.phrase_model() == ph,
                        ph == old(self).phrase_model(),
                        phrase_len == self.cypher.phrase@.len(),
                        cypher_word_index < phrase_len,
                        m <= total,
                        total == new_partial_solutions@.len(),
                        forall|j: int|
                            0 <= j < new_partial_solutions@.len() ==> (
                            #[trigger] new_partial_solutions@[j]).wf(ph.len() as int),
                        self.full_count() >= old(self).full_count(),
                    decreases total - m,
                {
                    let moved = new_partial_solutions[m].duplicate_partial();
                    self.partial_solutions.push(moved);
                    m = m + 1;
                }
            }
            cypher_word_index = cypher_word_index + 1;
        }
        Ok(())
    }
}

impl PartialSolution {
    /// An exact copy of the mapping and its marks.
    fn duplicate_partial(&self) -> (r: PartialSolution)
        ensures
            r.solution.enc() == self.solution.enc(),
            r.satisfied_phrase_parts@ == self.satisfied_phrase_parts@,
            r.satisfied_count == self.satisfied_count,
    {
        PartialSolution {
            solution: self.solution.duplicate(),
            satisfied_phrase_parts: copy_bools(&self.satisfied_phrase_parts),
            satisfied_count: self.satisfied_count,
        }
    }
}

/// Joins words with single spaces, in order.
fn join_spaced(words: &Vec<String>) -> (r: String)
    ensures
        r@ == join_spec(words@.map_values(|s: String| s@)),
{
    let mut out = String::new();
    let mut k: usize = 0;
    proof {
        assert(out@ =~= join_spec(words@.map_values(|s: String| s@).take(0)));
    }
    while k < words.len()
        invariant
            k <= words@.len(),
            out@ == join_spec(words@.map_values(|s: String| s@).take(k as int)),
        decreases words@.len() - k,
    {
        if k > 0 {
            out.append(" ");
        }
        out.append(words[k].as_str());
        proof {
            reveal_strlit(" ");
            let all = words@.map_values(|s: String| s@);
            assert(all.take(k + 1).drop_last() =~= all.take(k as int));
            assert(all.take(k + 1).last() == all[k as int]);
            assert(out@ =~= join_spec(all.take(k + 1)));
        }
        k = k + 1;
    }
    proof {
        assert(words@.map_values(|s: String| s@).take(words@.len() as int) =~= words@.map_values(
            |s: String| s@,
        ));
    }
    out
}

/// Words joined with single spaces.
pub open spec fn join_spec(words: Seq<Seq<char>>) -> Seq<char>
    decreases words.len(),
{
    if words.len() == 0 {
        Seq::empty()
    } else if words.len() == 1 {
        words[0]
    } else {
        join_spec(words.drop_last()) + seq![' '] + words.last()
    }
}

/// Joining decoded words is decoding the joined phrase.
proof fn lemma_decode_join(e: Seq<char>, phrase: Seq<Seq<char>>, decoded: Seq<Seq<char>>)
    requires
        decoded.len() == phrase.len(),
        forall|i: int| 0 <= i < phrase.len() ==> #[trigger] decoded[i] == decode_word(e, phrase[i]),
    ensures
        join_spec(decoded) == decode_join(e, phrase),
    decreases phrase.len(),
{
    if phrase.len() > 1 {
        lemma_decode_join(e, phrase.drop_last(), decoded.drop_last());
        assert(forall|i: int|
            0 <= i < phrase.len() - 1 ==> #[trigger] decoded.drop_last()[i] == decoded[i]);
    }
}

} // verus!
