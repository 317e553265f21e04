//! The cipher phrase: its words, their lengths, and the equality conditions
//! that repeated cipher letters impose, sorted by informativeness.

use vstd::prelude::*;
use crate::vocabulary::{Position, is_lower, lower_word};
use crate::vocabulary_index::{lemma_push_contains, lemma_take_contains};

verus! {

/// Why a cipher phrase or a reorder request was rejected.
#[derive(Clone, Copy, Debug, PartialEq, Eq, Structural)]
pub enum CipherError {
    /// The phrase holds a character outside `a`..=`z` and whitespace, or too
    /// many words, or a word that is too long.
    InvalidCipher,
    /// The reorder permutation has the wrong length or an index out of range.
    InvalidReorder,
}

/// The identity of a cipher word: its position in the phrase.
#[derive(Clone, Copy, PartialEq, Eq, Structural, Hash, Debug, PartialOrd, Ord)]
pub struct CipherWordId(pub u8);

/// One occurrence of one cipher letter: in which word, at which position,
/// and how long that word is.
#[derive(Clone, Copy, PartialEq, Eq, Structural, Hash, Debug)]
pub struct CipherChar {
    pub position: Position,
    pub cipher_word_id: CipherWordId,
    pub length: u8,
}

/// Whitespace for the purpose of splitting the phrase into words.
pub open spec fn is_space(c: char) -> bool {
    c == ' ' || c == '\t' || c == '\n' || c == '\r'
}

/// The longest prefix of `s` without whitespace.
pub open spec fn leading_word(s: Seq<char>) -> Seq<char>
    decreases s.len(),
{
    if s.len() == 0 || is_space(s[0]) {
        Seq::empty()
    } else {
        seq![s[0]] + leading_word(s.drop_first())
    }
}

/// The leading word is never longer than the text it starts.
proof fn lemma_leading_len(s: Seq<char>)
    ensures
        leading_word(s).len() <= s.len(),
    decreases s.len(),
{
    if s.len() > 0 && !is_space(s[0]) {
        lemma_leading_len(s.drop_first());
    }
}

/// The whitespace-separated words of `s`, in order.
pub open spec fn split_words(s: Seq<char>) -> Seq<Seq<char>>
    decreases s.len(),
    via split_words_decreases
{
    if s.len() == 0 {
        Seq::empty()
    } else if is_space(s[0]) {
        split_words(s.drop_first())
    } else {
        let w = seq![s[0]] + leading_word(s.drop_first());
        seq![w] + split_words(s.skip(w.len() as int))
    }
}

#[via_fn]
proof fn split_words_decreases(s: Seq<char>) {
    if s.len() > 0 && !is_space(s[0]) {
        lemma_leading_len(s.drop_first());
    }
}

/// A phrase the cipher text accepts: only lowercase letters and whitespace,
/// fewer than 256 words, every word shorter than 256 characters.
pub open spec fn cipher_ok(s: Seq<char>) -> bool {
    &&& forall|k: int| 0 <= k < s.len() ==> is_lower(#[trigger] s[k]) || is_space(s[k])
    &&& split_words(s).len() < 256
    &&& forall|w: int|
        0 <= w < split_words(s).len() ==> (#[trigger] split_words(s)[w]).len() < 256
}

/// The occurrence record for position `p` of cipher word `wi`, whose word
/// has length `wl`.
pub open spec fn occurrence(p: int, wi: int, wl: int) -> CipherChar {
    CipherChar {
        position: Position(p as u8),
        cipher_word_id: CipherWordId(wi as u8),
        length: wl as u8,
    }
}

/// The occurrences of `letter` within word `w` (which is word number `wi`
/// of length `wl`), in position order.
pub open spec fn occ_in_word(w: Seq<char>, wi: int, wl: int, letter: char) -> Seq<CipherChar>
    decreases w.len(),
{
    if w.len() == 0 {
        Seq::empty()
    } else {
        occ_in_word(w.drop_last(), wi, wl, letter) + if w.last() == letter {
            seq![occurrence(w.len() - 1, wi, wl)]
        } else {
            Seq::empty()
        }
    }
}

/// All occurrences of `letter` in the phrase `words`, in scan order.
pub open spec fn occurrences(words: Seq<Seq<char>>, letter: char) -> Seq<CipherChar>
    decreases words.len(),
{
    if words.len() == 0 {
        Seq::empty()
    } else {
        occurrences(words.drop_last(), letter) + occ_in_word(
            words.last(),
            words.len() - 1,
            words.last().len() as int,
            letter,
        )
    }
}

/// The cipher word identities mentioned by a list of occurrences.
pub open spec fn cwis(chars: Seq<CipherChar>) -> Seq<int> {
    chars.map_values(|c: CipherChar| c.cipher_word_id.0 as int)
}

/// How many distinct values a sequence holds.
pub open spec fn distinct_count(s: Seq<int>) -> int
    decreases s.len(),
{
    if s.len() == 0 {
        0
    } else {
        distinct_count(s.drop_last()) + if s.drop_last().contains(s.last()) {
            0int
        } else {
            1int
        }
    }
}

/// The informativeness score of a condition: ten points for each distinct
/// cipher word it couples, one for each occurrence.
pub open spec fn condition_score(chars: Seq<CipherChar>) -> int {
    10 * distinct_count(cwis(chars)) + chars.len()
}

/// The strict order in which conditions are emitted: higher score first,
/// ties broken by the alphabetical order of the cipher letter.
pub open spec fn cond_lt(s1: int, c1: char, s2: int, c2: char) -> bool {
    s1 > s2 || (s1 == s2 && c1 < c2)
}

/// There are never more distinct values than values.
proof fn lemma_distinct_le(s: Seq<int>)
    ensures
        0 <= distinct_count(s) <= s.len(),
    decreases s.len(),
{
    if s.len() > 0 {
        lemma_distinct_le(s.drop_last());
    }
}

/// A word contributes at most one occurrence per position.
proof fn lemma_occ_in_word_len(w: Seq<char>, wi: int, wl: int, letter: char)
    ensures
        occ_in_word(w, wi, wl, letter).len() <= w.len(),
    decreases w.len(),
{
    if w.len() > 0 {
        lemma_occ_in_word_len(w.drop_last(), wi, wl, letter);
    }
}

/// A phrase of short words contributes few occurrences in total.
proof fn lemma_occurrences_len(words: Seq<Seq<char>>, letter: char)
    requires
        forall|k: int| 0 <= k < words.len() ==> (#[trigger] words[k]).len() <= 255,
    ensures
        occurrences(words, letter).len() <= words.len() * 255,
    decreases words.len(),
{
    if words.len() > 0 {
        lemma_occurrences_len(words.drop_last(), letter);
        lemma_occ_in_word_len(words.last(), words.len() - 1, words.last().len() as int, letter);
        assert((words.len() - 1) * 255 + 255 == words.len() * 255) by (nonlinear_arith);
    }
}

/// Every occurrence record lists real coordinates: a word of the phrase, a
/// position within it, that word's length, and the letter at that spot.
proof fn lemma_occ_in_word_wf(w: Seq<char>, wi: int, wl: int, letter: char)
    requires
        0 <= wi < 256,
        w.len() <= wl <= 255,
    ensures
        forall|k: int|
            0 <= k < occ_in_word(w, wi, wl, letter).len() ==> {
                let c = #[trigger] occ_in_word(w, wi, wl, letter)[k];
                &&& c.cipher_word_id.0 == wi
                &&& c.length == wl
                &&& c.position.0 < w.len()
                &&& w[c.position.0 as int] == letter
            },
    decreases w.len(),
{
    if w.len() > 0 {
        lemma_occ_in_word_wf(w.drop_last(), wi, wl, letter);
        let pre = occ_in_word(w.drop_last(), wi, wl, letter);
        let whole = occ_in_word(w, wi, wl, letter);
        assert forall|k: int| 0 <= k < whole.len() implies {
            let c = #[trigger] whole[k];
            &&& c.cipher_word_id.0 == wi
            &&& c.length == wl
            &&& c.position.0 < w.len()
            &&& w[c.position.0 as int] == letter
        } by {
            if k < pre.len() {
                assert(whole[k] == pre[k]);
                assert(w.drop_last()[pre[k].position.0 as int] == w[pre[k].position.0 as int]);
            } else {
                assert(whole[k] == occurrence(w.len() - 1, wi, wl));
            }
        }
    }
}

/// Every occurrence of `letter` in the phrase points into the phrase: a real
/// word, a position inside it, that word's true length, and `letter` there.
pub proof fn lemma_occurrences_wf(words: Seq<Seq<char>>, letter: char)
    requires
        words.len() <= 256,
        forall|k: int| 0 <= k < words.len() ==> 0 < (#[trigger] words[k]).len() <= 255,
    ensures
        forall|k: int|
            0 <= k < occurrences(words, letter).len() ==> {
                let c = #[trigger] occurrences(words, letter)[k];
                &&& c.cipher_word_id.0 < words.len()
                &&& c.length == words[c.cipher_word_id.0 as int].len()
                &&& c.position.0 < c.length
                &&& words[c.cipher_word_id.0 as int][c.position.0 as int] == letter
            },
    decreases words.len(),
{
    if words.len() > 0 {
        lemma_occurrences_wf(words.drop_last(), letter);
        lemma_occ_in_word_wf(words.last(), words.len() - 1, words.last().len() as int, letter);
        let pre = occurrences(words.drop_last(), letter);
        let ww = occ_in_word(words.last(), words.len() - 1, words.last().len() as int, letter);
        let whole = occurrences(words, letter);
        assert forall|k: int| 0 <= k < whole.len() implies {
            let c = #[trigger] whole[k];
            &&& c.cipher_word_id.0 < words.len()
            &&& c.length == words[c.cipher_word_id.0 as int].len()
            &&& c.position.0 < c.length
            &&& words[c.cipher_word_id.0 as int][c.position.0 as int] == letter
        } by {
            if k < pre.len() {
                assert(whole[k] == pre[k]);
                assert(words.drop_last()[pre[k].cipher_word_id.0 as int] == words[pre[
                    k
                ].cipher_word_id.0 as int]);
            } else {
                assert(whole[k] == ww[k - pre.len()]);
                assert(ww[k - pre.len()].cipher_word_id.0 == words.len() - 1);
            }
        }
    }
}

/// Skipping a leading space does not change the words.
proof fn lemma_split_space(s: Seq<char>, i: int)
    requires
        0 <= i < s.len(),
        is_space(s[i]),
    ensures
        split_words(s.skip(i)) == split_words(s.skip(i + 1)),
{
    assert(s.skip(i).drop_first() =~= s.skip(i + 1));
}

/// A run of letters up to the next space (or the end) is the leading word.
proof fn lemma_leading(s: Seq<char>, start: int, j: int)
    requires
        0 <= start <= j <= s.len(),
        forall|k: int| start <= k < j ==> !is_space(#[trigger] s[k]),
        j == s.len() || is_space(s[j]),
    ensures
        leading_word(s.skip(start)) =~= s.subrange(start, j),
    decreases j - start,
{
    if start == j {
        if start < s.len() {
            assert(s.skip(start)[0] == s[start]);
        }
    } else {
        assert(s.skip(start)[0] == s[start]);
        assert(!is_space(s[start]));
        lemma_leading(s, start + 1, j);
        assert(s.skip(start).drop_first() =~= s.skip(start + 1));
        assert(leading_word(s.skip(start)) == seq![s[start]] + leading_word(s.skip(start + 1)));
        assert(seq![s[start]] + s.subrange(start + 1, j) =~= s.subrange(start, j));
    }
}

/// At the start of a word, the remaining words are that word and then the
/// words of the rest of the phrase.
proof fn lemma_split_word(s: Seq<char>, start: int, j: int)
    requires
        0 <= start < j <= s.len(),
        forall|k: int| start <= k < j ==> !is_space(#[trigger] s[k]),
        j == s.len() || is_space(s[j]),
    ensures
        split_words(s.skip(start)) == seq![s.subrange(start, j)] + split_words(s.skip(j)),
{
    lemma_leading(s, start, j);
    let t = s.skip(start);
    assert(t[0] == s[start]);
    assert(!is_space(t[0]));
    assert(t.drop_first() =~= s.skip(start + 1));
    let w = seq![t[0]] + leading_word(t.drop_first());
    assert(leading_word(s.skip(start + 1)) =~= s.subrange(start + 1, j)) by {
        lemma_leading(s, start + 1, j);
    }
    assert(w =~= s.subrange(start, j));
    assert(w.len() == j - start);
    assert(t.skip(w.len() as int) =~= s.skip(j));
    assert(split_words(t) == seq![w] + split_words(t.skip(w.len() as int)));
}

/// A condition: all the occurrences of one repeated cipher letter, which
/// must all decode to the same plaintext letter.
pub struct Condition {
    equal_chars: Vec<CipherChar>,
}

impl View for Condition {
    type V = Seq<CipherChar>;

    closed spec fn view(&self) -> Seq<CipherChar> {
        self.equal_chars@
    }
}

impl Clone for Condition {
    /// Cloning keeps the occurrences.
    fn clone(&self) -> (r: Condition)
        ensures
            r@ == self@,
    {
        Condition { equal_chars: copy_chars(&self.equal_chars) }
    }
}

impl Condition {
    /// The occurrences of the repeated cipher letter, in scan order.
    pub fn equal_chars(&self) -> (r: &[CipherChar])
        ensures
            r@ == self@,
    {
        self.equal_chars.as_slice()
    }

    /// The informativeness score used only to order conditions.
    fn score(&self) -> (r: usize)
        requires
            self@.len() <= 65025,
        ensures
            r as int == condition_score(self@),
    {
        score_of(&self.equal_chars)
    }
}

/// An exact copy of a list of occurrence records.
fn copy_chars(v: &Vec<CipherChar>) -> (r: Vec<CipherChar>)
    ensures
        r@ == v@,
{
    let mut copy: Vec<CipherChar> = Vec::new();
    let mut i: usize = 0;
    while i < v.len()
        invariant
            i <= v@.len(),
            copy@ == v@.take(i as int),
        decreases v@.len() - i,
    {
        copy.push(v[i]);
        i = i + 1;
    }
    proof {
        assert(copy@ =~= v@);
    }
    copy
}

/// The informativeness score of a list of occurrences.
fn score_of(chars: &Vec<CipherChar>) -> (r: usize)
    requires
        chars@.len() <= 65025,
    ensures
        r as int == condition_score(chars@),
{
    let ghost u = cwis(chars@);
    let mut seen: Vec<bool> = Vec::new();
    let mut id: usize = 0;
    while id < 256
        invariant
            seen@.len() == id <= 256,
            forall|k: int| 0 <= k < id ==> !(#[trigger] seen@[k]),
        decreases 256 - id,
    {
        seen.push(false);
        id = id + 1;
    }
    let mut distinct: usize = 0;
    let mut k: usize = 0;
    while k < chars.len()
        invariant
            k <= chars@.len() <= 65025,
            u == cwis(chars@),
            u.len() == chars@.len(),
            seen@.len() == 256,
            forall|c: int| 0 <= c < u.len() ==> 0 <= #[trigger] u[c] < 256,
            distinct == distinct_count(u.take(k as int)),
            distinct <= k,
            forall|idv: int| 0 <= idv < 256 ==> (#[trigger] seen@[idv] <==> u.take(k as int).contains(idv)),
        decreases chars@.len() - k,
    {
        let id = chars[k].cipher_word_id.0 as usize;
        proof {
            assert(u[k as int] == chars@[k as int].cipher_word_id.0 as int);
            assert(u.take(k + 1).drop_last() =~= u.take(k as int));
            assert(u.take(k + 1).last() == u[k as int]);
        }
        if !seen[id] {
            seen.set(id, true);
            distinct = distinct + 1;
        }
        proof {
            assert forall|idv: int| 0 <= idv < 256 implies (#[trigger] seen@[idv] <==> u.take(
                k + 1,
            ).contains(idv)) by {
                lemma_take_contains(u, k as int, idv);
            }
        }
        k = k + 1;
    }
    proof {
        assert(u.take(chars@.len() as int) =~= u);
        lemma_distinct_le(u);
    }
    10 * distinct + chars.len()
}

} // verus!

verus! {

/// The lowercase letter with alphabet index `l` (0 for `a`).
pub open spec fn char_of(l: int) -> char {
    ((l + 97) as u8) as char
}

/// How many entries of a boolean sequence are set.
pub open spec fn count_true(s: Seq<bool>) -> int
    decreases s.len(),
{
    if s.len() == 0 {
        0
    } else {
        count_true(s.drop_last()) + if s.last() {
            1int
        } else {
            0int
        }
    }
}

pub proof fn lemma_count_true_le(s: Seq<bool>)
    ensures
        0 <= count_true(s) <= s.len(),
    decreases s.len(),
{
    if s.len() > 0 {
        lemma_count_true_le(s.drop_last());
    }
}

pub proof fn lemma_count_true_lt(s: Seq<bool>, i: int)
    requires
        0 <= i < s.len(),
        !s[i],
    ensures
        count_true(s) < s.len(),
    decreases s.len(),
{
    lemma_count_true_le(s.drop_last());
    if i < s.len() - 1 {
        lemma_count_true_lt(s.drop_last(), i);
    }
}

pub proof fn lemma_count_true_update(s: Seq<bool>, i: int)
    requires
        0 <= i < s.len(),
        !s[i],
    ensures
        count_true(s.update(i, true)) == count_true(s) + 1,
    decreases s.len(),
{
    let u = s.update(i, true);
    if i == s.len() - 1 {
        assert(u.drop_last() =~= s.drop_last());
    } else {
        assert(u.drop_last() =~= s.drop_last().update(i, true));
        lemma_count_true_update(s.drop_last(), i);
        assert(u.last() == s.last());
    }
}

/// Whether `c` separates cipher words.
fn is_space_char(c: char) -> (r: bool)
    ensures
        r == is_space(c),
{
    c == ' ' || c == '\t' || c == '\n' || c == '\r'
}

/// Whether `c` is a lowercase letter.
fn is_lower_char(c: char) -> (r: bool)
    ensures
        r == is_lower(c),
{
    let u = c as u32;
    97 <= u && u <= 122
}

/// The cipher phrase, parsed: its words' lengths, and one condition for
/// every cipher letter that occurs at least twice, sorted by descending
/// informativeness (ties broken by the alphabetical order of the letter).
pub struct CipherText {
    text: String,
    word_count: usize,
    conditions: Vec<Condition>,
    lengths: Vec<usize>,
    words: Ghost<Seq<Seq<char>>>,
    cond_letters: Ghost<Seq<char>>,
}

impl CipherText {
    /// The words of the phrase, as character sequences, in phrase order.
    pub closed spec fn words_model(&self) -> Seq<Seq<char>> {
        self.words@
    }

    /// The occurrence lists of the conditions, in their current order.
    pub closed spec fn conditions_model(&self) -> Seq<Seq<CipherChar>> {
        self.conditions@.map_values(|c: Condition| c@)
    }

    /// The cipher letter each condition stands for, in the same order.
    pub closed spec fn letters_model(&self) -> Seq<char> {
        self.cond_letters@
    }

    /// Validity: the stored lengths and conditions describe the stored words,
    /// which are the whitespace-separated words of the stored phrase.
    pub closed spec fn wf(&self) -> bool {
        &&& self.words@ == split_words(self.text@)
        &&& self.word_count == self.words@.len()
        &&& self.lengths@.len() == self.words@.len()
        &&& forall|k: int|
            0 <= k < self.words@.len() ==> self.lengths@[k] == (#[trigger] self.words@[k]).len()
        &&& self.words@.len() <= 255
        &&& forall|k: int|
            0 <= k < self.words@.len() ==> 0 < (#[trigger] self.words@[k]).len() <= 255
        &&& forall|k: int| 0 <= k < self.words@.len() ==> lower_word(#[trigger] self.words@[k])
        &&& self.cond_letters@.len() == self.conditions@.len()
        &&& forall|j: int| 0 <= j < self.conditions@.len() ==> #[trigger] self.cond_entry_ok(j)
    }

    /// Condition `j` records the occurrences of its (repeated, lowercase)
    /// cipher letter.
    spec fn cond_entry_ok(&self, j: int) -> bool {
        &&& is_lower(self.cond_letters@[j])
        &&& self.conditions@[j]@ == occurrences(self.words@, self.cond_letters@[j])
        &&& self.conditions@[j]@.len() >= 2
    }

    /// What the constructor promises about the condition order: sorted by
    /// the strict score-then-letter order, one condition per repeated
    /// letter, and one for every repeated letter.
    pub open spec fn canonical_order(&self) -> bool {
        &&& forall|j1: int, j2: int|
            0 <= j1 < j2 < self.conditions_model().len() ==> cond_lt(
                condition_score(self.conditions_model()[j1]),
                self.letters_model()[j1],
                condition_score(self.conditions_model()[j2]),
                self.letters_model()[j2],
            )
        &&& forall|j1: int, j2: int|
            0 <= j1 < j2 < self.letters_model().len() ==> self.letters_model()[j1]
                != self.letters_model()[j2]
        &&& forall|c: char|
            is_lower(c) && occurrences(self.words_model(), c).len() >= 2
                ==> self.letters_model().contains(c)
    }

    /// The supporting facts `wf` carries, spelled out for callers.
    pub proof fn lemma_wf(&self)
        requires
            self.wf(),
        ensures
            self.words_model().len() <= 255,
            self.letters_model().len() == self.conditions_model().len(),
            forall|k: int|
                0 <= k < self.words_model().len() ==> 0 < (#[trigger] self.words_model()[k]).len()
                    <= 255,
            forall|k: int|
                0 <= k < self.words_model().len() ==> lower_word(#[trigger] self.words_model()[k]),
            forall|j: int|
                0 <= j < self.conditions_model().len() ==> is_lower(
                    #[trigger] self.letters_model()[j],
                ),
            forall|j: int|
                0 <= j < self.conditions_model().len() ==> #[trigger] self.conditions_model()[j]
                    == occurrences(self.words_model(), self.letters_model()[j]),
            forall|j: int|
                0 <= j < self.conditions_model().len() ==> (
                #[trigger] self.conditions_model()[j]).len() >= 2,
            forall|j: int, k: int|
                0 <= j < self.conditions_model().len() && 0 <= k
                    < self.conditions_model()[j].len() ==> {
                    let c = #[trigger] self.conditions_model()[j][k];
                    &&& c.cipher_word_id.0 < self.words_model().len()
                    &&& c.length == self.words_model()[c.cipher_word_id.0 as int].len()
                    &&& 0 < c.length <= 255
                    &&& c.position.0 < c.length
                    &&& self.words_model()[c.cipher_word_id.0 as int][c.position.0 as int]
                        == self.letters_model()[j]
                },
    {
        assert forall|j: int| 0 <= j < self.conditions_model().len() implies is_lower(
            #[trigger] self.letters_model()[j],
        ) by {
            assert(self.cond_entry_ok(j));
            assert(self.conditions_model()[j] == self.conditions@[j]@);
        }
        assert forall|j: int|
            0 <= j < self.conditions_model().len() implies #[trigger] self.conditions_model()[j]
            == occurrences(self.words_model(), self.letters_model()[j]) by {
            assert(self.cond_entry_ok(j));
            assert(self.conditions_model()[j] == self.conditions@[j]@);
        }
        assert forall|j: int|
            0 <= j < self.conditions_model().len() implies (
        #[trigger] self.conditions_model()[j]).len() >= 2 by {
            assert(self.cond_entry_ok(j));
            assert(self.conditions_model()[j] == self.conditions@[j]@);
        }
        assert forall|j: int, k: int|
            0 <= j < self.conditions_model().len() && 0 <= k
                < self.conditions_model()[j].len() implies {
            let c = #[trigger] self.conditions_model()[j][k];
            &&& c.cipher_word_id.0 < self.words_model().len()
            &&& c.length == self.words_model()[c.cipher_word_id.0 as int].len()
            &&& 0 < c.length <= 255
            &&& c.position.0 < c.length
            &&& self.words_model()[c.cipher_word_id.0 as int][c.position.0 as int]
                == self.letters_model()[j]
        } by {
            assert(self.cond_entry_ok(j));
            assert(self.conditions_model()[j] == self.conditions@[j]@);
            lemma_occurrences_wf(self.words@, self.cond_letters@[j]);
        }
    }

    /// Parses a cipher phrase: splits it on whitespace, records every word's
    /// length, groups the occurrences of each repeated letter into a
    /// condition, and sorts the conditions by descending score. Rejects a
    /// phrase with characters outside `a`..=`z` and whitespace, 256 or more
    /// words, or a word of 256 or more characters.
    pub fn new(text: String) -> (r: Result<CipherText, CipherError>)
        ensures
            r is Ok <==> cipher_ok(text@),
            match r {
                Ok(ct) => {
                    &&& ct.wf()
                    &&& ct.words_model() == split_words(text@)
                    &&& ct.canonical_order()
                },
                Err(e) => e == CipherError::InvalidCipher,
            },
    {
        let ghost s = text@;
        let n = text.as_str().unicode_len();
        let mut lengths: Vec<usize> = Vec::new();
        let mut occ: Vec<Vec<CipherChar>> = Vec::new();
        let mut l0: usize = 0;
        while l0 < 26
            invariant
                occ@.len() == l0 <= 26,
                forall|l: int| 0 <= l < l0 ==> (#[trigger] occ@[l])@.len() == 0,
            decreases 26 - l0,
        {
            let fresh: Vec<CipherChar> = Vec::new();
            occ.push(fresh);
            l0 = l0 + 1;
        }
        let ghost mut done: Seq<Seq<char>> = Seq::empty();
        proof {
            assert(s.skip(0) =~= s);
            assert(split_words(s) =~= done + split_words(s.skip(0)));
            assert forall|l: int| 0 <= l < 26 implies (#[trigger] occ@[l])@
                =~= occurrences(done, char_of(l)) by {}
        }
        let mut i: usize = 0;
        while i < n
            invariant
                s == text@,
                n == s.len(),
                i <= n,
                lengths@.len() == done.len() <= 255,
                forall|k: int| 0 <= k < done.len() ==> lengths@[k] == (#[trigger] done[k]).len(),
                forall|k: int| 0 <= k < done.len() ==> 0 < (#[trigger] done[k]).len() <= 255,
                forall|k: int| 0 <= k < done.len() ==> lower_word(#[trigger] done[k]),
                occ@.len() == 26,
                forall|l: int|
                    0 <= l < 26 ==> (#[trigger] occ@[l])@ == occurrences(done, char_of(l)),
                split_words(s) == done + split_words(s.skip(i as int)),
                forall|k: int| 0 <= k < i ==> is_lower(#[trigger] s[k]) || is_space(s[k]),
            decreases n - i,
        {
            let c = text.as_str().get_char(i);
            if is_space_char(c) {
                proof {
                    lemma_split_space(s, i as int);
                }
                i = i + 1;
            } else if is_lower_char(c) {
                if lengths.len() >= 255 {
                    proof {
                        assert(split_words(s.skip(i as int)).len() >= 1);
                        assert(split_words(s).len() >= 256);
                    }
                    return Err(CipherError::InvalidCipher);
                }
                let start = i;
                let mut j = i;
                while j < n
                    invariant_except_break
                        s == text@,
                        n == s.len(),
                        start <= j <= n,
                        forall|k: int| start <= k < j ==> is_lower(#[trigger] s[k]),
                        cipher_ok(s) ==> (forall|k: int|
                            0 <= k < s.len() ==> is_lower(#[trigger] s[k]) || is_space(s[k])),
                    ensures
                        s == text@,
                        n == s.len(),
                        start <= j <= n,
                        forall|k: int| start <= k < j ==> is_lower(#[trigger] s[k]),
                        j == n || is_space(s[j as int]),
                    decreases n - j,
                {
                    let c2 = text.as_str().get_char(j);
                    if is_space_char(c2) {
                        break ;
                    }
                    if !is_lower_char(c2) {
                        proof {
                            assert(!is_lower(s[j as int]) && !is_space(s[j as int]));
                        }
                        return Err(CipherError::InvalidCipher);
                    }
                    j = j + 1;
                }
                let ghost w = s.subrange(start as int, j as int);
                proof {
                    assert(!is_space(s[start as int]));
                    lemma_split_word(s, start as int, j as int);
                }
                let wlen = j - start;
                if wlen > 255 {
                    proof {
                        assert(split_words(s)[done.len() as int] == w);
                        assert(w.len() >= 256);
                    }
                    return Err(CipherError::InvalidCipher);
                }
                let ghost wi = done.len() as int;
                let mut p: usize = 0;
                while p < wlen
                    invariant
                        s == text@,
                        n == s.len(),
                        start <= j <= n,
                        p <= wlen,
                        wlen == j - start,
                        1 <= wlen <= 255,
                        w == s.subrange(start as int, j as int),
                        forall|k: int| start <= k < j ==> is_lower(#[trigger] s[k]),
                        wi == done.len(),
                        lengths@.len() == done.len() <= 254,
                        occ@.len() == 26,
                        forall|l: int|
                            0 <= l < 26 ==> (#[trigger] occ@[l])@ == occurrences(done, char_of(l))
                                + occ_in_word(w.take(p as int), wi, wlen as int, char_of(l)),
                    decreases wlen - p,
                {
                    let c2 = text.as_str().get_char(start + p);
                    proof {
                        assert(w[p as int] == s[start + p]);
                        assert(is_lower(c2));
                    }
                    let ci = (c2 as u8 - 97) as usize;
                    let ghost old_occ = occ@;
                    let next_char = CipherChar {
                        position: Position(p as u8),
                        cipher_word_id: CipherWordId(lengths.len() as u8),
                        length: wlen as u8,
                    };
                    occ[ci].push(next_char);
                    proof {
                        assert(next_char == occurrence(p as int, wi, wlen as int));
                        assert(w.take(p + 1).drop_last() =~= w.take(p as int));
                        assert(w.take(p + 1).last() == w[p as int]);
                        assert(w.take(p + 1).len() - 1 == p);
                        assert forall|l: int| 0 <= l < 26 implies (#[trigger] occ@[l])@
                            == occurrences(done, char_of(l)) + occ_in_word(
                            w.take(p + 1),
                            wi,
                            wlen as int,
                            char_of(l),
                        ) by {
                            if l == ci as int {
                                assert(char_of(l) == c2);
                                assert(occ@[l]@ =~= old_occ[l]@.push(next_char));
                                assert(occ_in_word(w.take(p + 1), wi, wlen as int, char_of(l))
                                    =~= occ_in_word(w.take(p as int), wi, wlen as int, char_of(l))
                                    + seq![occurrence(p as int, wi, wlen as int)]);
                                assert(occ@[l]@ =~= occurrences(done, char_of(l)) + occ_in_word(
                                    w.take(p + 1),
                                    wi,
                                    wlen as int,
                                    char_of(l),
                                ));
                            } else {
                                assert(occ@[l] == old_occ[l]);
                                assert(char_of(l) != c2) by {
                                    assert(char_of(l) as u8 == l + 97);
                                    assert(c2 as u8 == ci + 97);
                                }
                                assert(occ_in_word(w.take(p + 1), wi, wlen as int, char_of(l))
                                    =~= occ_in_word(w.take(p as int), wi, wlen as int, char_of(l)));
                            }
                        }
                    }
                    p = p + 1;
                }
                lengths.push(wlen);
                proof {
                    assert(w.take(wlen as int) =~= w);
                    let done2 = done.push(w);
                    assert(done2.drop_last() =~= done);
                    assert(done2.last() == w);
                    assert forall|l: int| 0 <= l < 26 implies (#[trigger] occ@[l])@ == occurrences(
                        done2,
                        char_of(l),
                    ) by {
                        assert(occurrences(done2, char_of(l)) == occurrences(done, char_of(l))
                            + occ_in_word(w, wi, w.len() as int, char_of(l)));
                    }
                    done = done2;
                    assert(lower_word(w));
                    assert(split_words(s) == done + split_words(s.skip(j as int))) by {
                        assert(done + split_words(s.skip(j as int)) =~= (done.drop_last() + (seq![w]
                            + split_words(s.skip(j as int)))));
                    }
                }
                i = j;
            } else {
                proof {
                    assert(!is_lower(s[i as int]) && !is_space(s[i as int]));
                }
                return Err(CipherError::InvalidCipher);
            }
        }
        proof {
            assert(split_words(s.skip(n as int)).len() == 0);
            assert(split_words(s) =~= done);
            assert(s.take(n as int) =~= s);
            assert(cipher_ok(s));
        }
        // order the repeated letters' occurrence lists by descending score
        let mut conditions: Vec<Condition> = Vec::new();
        let ghost mut letters: Seq<char> = Seq::empty();
        let ghost mut lidx: Seq<int> = Seq::empty();
        let mut used: Vec<bool> = Vec::new();
        let mut l1: usize = 0;
        while l1 < 26
            invariant
                used@.len() == l1 <= 26,
                forall|k: int| 0 <= k < l1 ==> !(#[trigger] used@[k]),
            decreases 26 - l1,
        {
            used.push(false);
            l1 = l1 + 1;
        }
        proof {
            assert(count_true(used@) == 0) by {
                lemma_count_true_le(used@);
                if count_true(used@) > 0 {
                    lemma_count_all_false(used@);
                }
            }
        }
        loop
            invariant_except_break
                occ@.len() == 26,
                used@.len() == 26,
                forall|l: int|
                    0 <= l < 26 ==> (#[trigger] occ@[l])@ == occurrences(done, char_of(l)),
                done.len() <= 255,
                forall|k: int| 0 <= k < done.len() ==> (#[trigger] done[k]).len() <= 255,
                conditions@.len() == letters.len(),
                lidx.len() == letters.len(),
                letters.len() == count_true(used@),
                forall|j: int|
                    0 <= j < letters.len() ==> 0 <= #[trigger] lidx[j] < 26 && letters[j] == char_of(
                        lidx[j],
                    ),
                forall|j: int|
                    0 <= j < letters.len() ==> (#[trigger] conditions@[j])@ == occurrences(
                        done,
                        letters[j],
                    ) && conditions@[j]@.len() >= 2,
                forall|l: int| 0 <= l < 26 ==> (#[trigger] used@[l] <==> lidx.contains(l)),
                forall|j1: int, j2: int|
                    0 <= j1 < j2 < letters.len() ==> lidx[j1] != lidx[j2],
                forall|j1: int, j2: int|
                    0 <= j1 < j2 < letters.len() ==> cond_lt(
                        condition_score(conditions@[j1]@),
                        letters[j1],
                        condition_score(conditions@[j2]@),
                        letters[j2],
                    ),
                forall|j: int, l: int|
                    0 <= j < letters.len() && 0 <= l < 26 && !used@[l] && (#[trigger] occ@[l])@.len()
                        >= 2 ==> cond_lt(
                        condition_score(#[trigger] conditions@[j]@),
                        letters[j],
                        condition_score(occ@[l]@),
                        char_of(l),
                    ),
            ensures
                occ@.len() == 26,
                used@.len() == 26,
                forall|l: int|
                    0 <= l < 26 ==> (#[trigger] occ@[l])@ == occurrences(done, char_of(l)),
                conditions@.len() == letters.len(),
                lidx.len() == letters.len(),
                forall|j: int|
                    0 <= j < letters.len() ==> 0 <= #[trigger] lidx[j] < 26 && letters[j] == char_of(
                        lidx[j],
                    ),
                forall|j: int|
                    0 <= j < letters.len() ==> (#[trigger] conditions@[j])@ == occurrences(
                        done,
                        letters[j],
                    ) && conditions@[j]@.len() >= 2,
                forall|j1: int, j2: int|
                    0 <= j1 < j2 < letters.len() ==> lidx[j1] != lidx[j2],
                forall|j1: int, j2: int|
                    0 <= j1 < j2 < letters.len() ==> cond_lt(
                        condition_score(conditions@[j1]@),
                        letters[j1],
                        condition_score(conditions@[j2]@),
                        letters[j2],
                    ),
                forall|l: int|
                    0 <= l < 26 && (#[trigger] occ@[l])@.len() >= 2 ==> lidx.contains(l),
            decreases 26 - letters.len(),
        {
            let mut best: usize = 26;
            let mut best_score: usize = 0;
            let mut l: usize = 0;
            while l < 26
                invariant
                    occ@.len() == 26,
                    used@.len() == 26,
                    done.len() <= 255,
                    forall|k: int| 0 <= k < done.len() ==> (#[trigger] done[k]).len() <= 255,
                    forall|lv: int|
                        0 <= lv < 26 ==> (#[trigger] occ@[lv])@ == occurrences(done, char_of(lv)),
                    l <= 26,
                    best == 26 || (best < l && !used@[best as int] && occ@[best as int]@.len() >= 2
                        && best_score as int == condition_score(occ@[best as int]@)),
                    best == 26 ==> forall|lv: int|
                        0 <= lv < l ==> !(!(#[trigger] used@[lv]) && occ@[lv]@.len() >= 2),
                    best < 26 ==> forall|lv: int|
                        0 <= lv < l && !(#[trigger] used@[lv]) && occ@[lv]@.len() >= 2 ==> (lv
                            == best as int || cond_lt(
                            best_score as int,
                            char_of(best as int),
                            condition_score(occ@[lv]@),
                            char_of(lv),
                        )),
                decreases 26 - l,
            {
                if !used[l] && occ[l].len() >= 2 {
                    proof {
                        lemma_occurrences_len(done, char_of(l as int));
                    }
                    let sc = score_of(&occ[l]);
                    if best == 26 || sc > best_score {
                        best = l;
                        best_score = sc;
                    } else {
                        proof {
                            assert(char_of(best as int) as u8 == best + 97);
                            assert(char_of(l as int) as u8 == l + 97);
                            assert(char_of(best as int) != char_of(l as int));
                            assert(char_of(best as int) < char_of(l as int));
                        }
                    }
                }
                l = l + 1;
            }
            if best == 26 {
                proof {
                    assert forall|lv: int| 0 <= lv < 26 && (#[trigger] occ@[lv])@.len() >= 2
                        implies lidx.contains(lv) by {
                        assert(used@[lv]);
                    }
                }
                break ;
            }
            proof {
                lemma_count_true_lt(used@, best as int);
            }
            let cond = Condition { equal_chars: copy_chars(&occ[best]) };
            proof {
                lemma_count_true_update(used@, best as int);
            }
            used.set(best, true);
            conditions.push(cond);
            proof {
                let bi = best as int;
                let old_lidx = lidx;
                letters = letters.push(char_of(bi));
                lidx = lidx.push(bi);
                assert forall|lv: int| 0 <= lv < 26 implies (#[trigger] used@[lv] <==> lidx.contains(
                    lv,
                )) by {
                    lemma_push_contains(old_lidx, bi, lv);
                }
                assert forall|j1: int, j2: int| 0 <= j1 < j2 < letters.len() implies lidx[j1]
                    != lidx[j2] by {
                    if j2 == letters.len() - 1 {
                        assert(old_lidx.contains(old_lidx[j1]));
                    }
                }
            }
        }
        proof {
            assert forall|c: char|
                is_lower(c) && occurrences(done, c).len() >= 2 implies letters.contains(c) by {
                let lv = c as u32 - 97;
                assert(char_of(lv as int) as u8 as char == c) by {
                    assert(c as u32 <= 122);
                };
                assert(char_of(lv as int) == c);
                assert(occ@[lv as int]@.len() >= 2);
                assert(lidx.contains(lv as int));
                let j = choose|j: int| 0 <= j < lidx.len() && lidx[j] == lv as int;
                assert(letters[j] == c);
            }
            assert forall|j: int| 0 <= j < letters.len() implies is_lower(#[trigger] letters[j]) by {
                assert(letters[j] == char_of(lidx[j]));
                assert(char_of(lidx[j]) as u8 == lidx[j] + 97);
            }
        }
        let word_count = lengths.len();
        let ct = CipherText {
            text,
            word_count,
            conditions,
            lengths,
            words: Ghost(done),
            cond_letters: Ghost(letters),
        };
        proof {
            assert forall|j: int| 0 <= j < ct.conditions_model().len() implies #[trigger] ct
                .conditions_model()[j] == ct.conditions@[j]@ by {}
            assert forall|j1: int, j2: int| 0 <= j1 < j2 < letters.len() implies letters[j1]
                != letters[j2] by {
                assert(char_of(lidx[j1]) as u8 == lidx[j1] + 97);
                assert(char_of(lidx[j2]) as u8 == lidx[j2] + 97);
            }
            assert(ct.canonical_order());
        }
        Ok(ct)
    }
}

impl CipherText {
    /// The conditions, in their current order: the most informative first
    /// unless the caller has reordered them.
    pub fn conditions(&self) -> (r: &[Condition])
        ensures
            r@.len() == self.conditions_model().len(),
            forall|j: int| 0 <= j < r@.len() ==> (#[trigger] r@[j])@ == self.conditions_model()[j],
    {
        self.conditions.as_slice()
    }

    /// The length of cipher word `id`, or nothing when `id` is out of range.
    pub fn length_of(&self, id: CipherWordId) -> (r: Option<usize>)
        requires
            self.wf(),
        ensures
            match r {
                Some(l) => id.0 < self.words_model().len() && l == self.words_model()[
                    id.0 as int
                ].len(),
                None => id.0 >= self.words_model().len(),
            },
    {
        if (id.0 as usize) < self.lengths.len() {
            Some(self.lengths[id.0 as usize])
        } else {
            None
        }
    }

    /// The phrase as given.
    pub fn text(&self) -> (r: &str)
        requires
            self.wf(),
        ensures
            split_words(r@) == self.words_model(),
    {
        self.text.as_str()
    }

    /// How many words the phrase has.
    pub fn word_count(&self) -> (r: usize)
        requires
            self.wf(),
        ensures
            r == self.words_model().len(),
    {
        self.word_count
    }

    /// Replaces the condition list with the one the 1-based indices of
    /// `reorder` pick, so `reorder[k]` names the condition that moves to
    /// position `k`. Rejects a list whose length differs from the number of
    /// conditions or that holds an index out of range, leaving the
    /// conditions unchanged.
    pub fn reorder_conditions(&mut self, reorder: &[usize]) -> (r: Result<(), CipherError>)
        requires
            old(self).wf(),
        ensures
            final(self).wf(),
            final(self).words_model() == old(self).words_model(),
            r is Ok <==> (reorder@.len() == old(self).conditions_model().len() && forall|k: int|
                0 <= k < reorder@.len() ==> 1 <= #[trigger] reorder@[k]
                    <= old(self).conditions_model().len()),
            match r {
                Ok(()) => {
                    &&& final(self).conditions_model().len() == reorder@.len()
                    &&& forall|k: int|
                        0 <= k < reorder@.len() ==> #[trigger] final(self).conditions_model()[k]
                            == old(self).conditions_model()[reorder@[k] - 1]
                    &&& forall|k: int|
                        0 <= k < reorder@.len() ==> #[trigger] final(self).letters_model()[k]
                            == old(self).letters_model()[reorder@[k] - 1]
                },
                Err(e) => e == CipherError::InvalidReorder && *final(self) == *old(self),
            },
    {
        if reorder.len() != self.conditions.len() {
            return Err(CipherError::InvalidReorder);
        }
        let mut k: usize = 0;
        while k < reorder.len()
            invariant
                *self == *old(self),
                self.wf(),
                k <= reorder@.len(),
                reorder@.len() == self.conditions@.len(),
                forall|m: int| 0 <= m < k ==> 1 <= #[trigger] reorder@[m] <= reorder@.len(),
            decreases reorder@.len() - k,
        {
            let idx = reorder[k];
            if idx < 1 || idx > self.conditions.len() {
                return Err(CipherError::InvalidReorder);
            }
            k = k + 1;
        }
        let ghost old_self = *self;
        let mut permuted: Vec<Condition> = Vec::new();
        let ghost mut permuted_letters: Seq<char> = Seq::empty();
        let mut m: usize = 0;
        while m < reorder.len()
            invariant
                m <= reorder@.len(),
                *self == old_self,
                self.wf(),
                reorder@.len() == self.conditions@.len(),
                forall|j: int| 0 <= j < reorder@.len() ==> 1 <= #[trigger] reorder@[j] <= reorder@.len(),
                permuted@.len() == m,
                permuted_letters.len() == m,
                forall|j: int|
                    0 <= j < m ==> (#[trigger] permuted@[j])@ == self.conditions@[reorder@[j] - 1]@,
                forall|j: int|
                    0 <= j < m ==> #[trigger] permuted_letters[j] == self.cond_letters@[reorder@[j]
                        - 1],
            decreases reorder@.len() - m,
        {
            let idx = reorder[m];
            permuted.push(self.conditions[idx - 1].clone());
            proof {
                permuted_letters = permuted_letters.push(self.cond_letters@[reorder@[m as int] - 1]);
            }
            m = m + 1;
        }
        self.conditions = permuted;
        proof {
            self.cond_letters@ = permuted_letters;
        }
        proof {
            assert forall|j: int| 0 <= j < self.conditions@.len() implies #[trigger] self
                .cond_entry_ok(j) by {
                assert(self.conditions@[j]@ == old_self.conditions@[reorder@[j] - 1]@);
                assert(self.cond_letters@[j] == old_self.cond_letters@[reorder@[j] - 1]);
                assert(old_self.cond_entry_ok(reorder@[j] - 1));
            }
            assert forall|k2: int| 0 <= k2 < reorder@.len() implies #[trigger] self
                .conditions_model()[k2] == old_self.conditions_model()[reorder@[k2] - 1] by {
                assert(self.conditions_model()[k2] == self.conditions@[k2]@);
                assert(old_self.conditions_model()[reorder@[k2] - 1] == old_self.conditions@[
                    reorder@[k2] - 1
                ]@);
            }
            assert(self.wf());
        }
        Ok(())
    }
}

/// A sequence with a set entry has a positive count; stated contrapositively
/// for the all-false case.
pub proof fn lemma_count_all_false(s: Seq<bool>)
    requires
        forall|k: int| 0 <= k < s.len() ==> !(#[trigger] s[k]),
    ensures
        count_true(s) == 0,
    decreases s.len(),
{
    if s.len() > 0 {
        lemma_count_all_false(s.drop_last());
    }
}

} // verus!
