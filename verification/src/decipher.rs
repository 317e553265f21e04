//! The backtracking solver: it assigns a plaintext letter to each condition
//! in turn, intersecting per-cipher-word candidate sets, and collects every
//! assignment under which all sets stay non-empty.

use vstd::prelude::*;
use crate::cipher_text::{CipherChar, CipherText, Condition};
use crate::vocabulary::{Char, WordId};
use crate::vocabulary_index::{VocabularyIndex, Words, lemma_sorted_unique, strictly_sorted,
    word_has};

verus! {

/// The identifiers of the words of `voc` of length `len` with `letter` at
/// `pos`, in ascending order: the mathematical value of an index bucket.
pub open spec fn bucket_seq(voc: Seq<Seq<char>>, len: int, letter: u8, pos: int) -> Seq<int>
    decreases voc.len(),
{
    if voc.len() == 0 {
        Seq::empty()
    } else {
        bucket_seq(voc.drop_last(), len, letter, pos) + if word_has(
            voc,
            voc.len() - 1,
            len,
            letter,
            pos,
        ) {
            seq![voc.len() - 1]
        } else {
            Seq::empty()
        }
    }
}

/// `bucket_seq` lists, in strictly ascending order, exactly the words
/// `word_has` describes.
pub proof fn lemma_bucket_seq(voc: Seq<Seq<char>>, len: int, letter: u8, pos: int)
    ensures
        strictly_sorted(bucket_seq(voc, len, letter, pos)),
        forall|x: int|
            #[trigger] bucket_seq(voc, len, letter, pos).contains(x) <==> word_has(
                voc,
                x,
                len,
                letter,
                pos,
            ),
    decreases voc.len(),
{
    let whole = bucket_seq(voc, len, letter, pos);
    if voc.len() > 0 {
        let pre = bucket_seq(voc.drop_last(), len, letter, pos);
        lemma_bucket_seq(voc.drop_last(), len, letter, pos);
        assert(forall|x: int|
            0 <= x < voc.len() - 1 ==> voc.drop_last()[x] == #[trigger] voc[x]);
        assert forall|k1: int, k2: int| 0 <= k1 < k2 < whole.len() implies whole[k1]
            < whole[k2] by {
            if k2 < pre.len() {
            } else {
                assert(whole[k2] == voc.len() - 1);
                if k1 < pre.len() {
                    assert(pre.contains(pre[k1]));
                }
            }
        }
        assert forall|x: int| #[trigger] whole.contains(x) implies word_has(
            voc,
            x,
            len,
            letter,
            pos,
        ) by {
            let k = choose|k: int| 0 <= k < whole.len() && whole[k] == x;
            if k < pre.len() {
                assert(pre.contains(x));
            }
        }
        assert forall|x: int| word_has(voc, x, len, letter, pos) implies #[trigger] whole.contains(
            x,
        ) by {
            if x < voc.len() - 1 {
                assert(word_has(voc.drop_last(), x, len, letter, pos));
                assert(pre.contains(x));
                let k = choose|k: int| 0 <= k < pre.len() && pre[k] == x;
                assert(whole[k] == x);
            } else {
                assert(whole[whole.len() - 1] == x);
            }
        }
    }
}

/// A sequence whose membership predicate never holds is empty.
pub proof fn lemma_empty_by_members(s: Seq<int>)
    requires
        forall|x: int| !(#[trigger] s.contains(x)),
    ensures
        s =~= Seq::<int>::empty(),
{
    if s.len() > 0 {
        assert(s.contains(s[0]));
    }
}

/// The ordered intersection of two sets of identifiers: the members of `a`
/// that `b` also holds, in `a`'s order.
pub open spec fn intersect_seq(a: Seq<int>, b: Seq<int>) -> Seq<int>
    decreases a.len(),
{
    if a.len() == 0 {
        Seq::empty()
    } else {
        intersect_seq(a.drop_last(), b) + if b.contains(a.last()) {
            seq![a.last()]
        } else {
            Seq::empty()
        }
    }
}

/// For a sorted `a`, `intersect_seq` is the sorted set of the common
/// members of `a` and `b`.
pub proof fn lemma_intersect_seq(a: Seq<int>, b: Seq<int>)
    requires
        strictly_sorted(a),
    ensures
        strictly_sorted(intersect_seq(a, b)),
        forall|x: int|
            #[trigger] intersect_seq(a, b).contains(x) <==> a.contains(x) && b.contains(x),
    decreases a.len(),
{
    let whole = intersect_seq(a, b);
    if a.len() > 0 {
        let pre = intersect_seq(a.drop_last(), b);
        lemma_intersect_seq(a.drop_last(), b);
        assert(forall|x: int| 0 <= x < a.len() - 1 ==> a.drop_last()[x] == #[trigger] a[x]);
        assert forall|x: int| #[trigger] pre.contains(x) implies x < a.last() by {
            assert(a.drop_last().contains(x));
            let k = choose|k: int| 0 <= k < a.len() - 1 && a.drop_last()[k] == x;
            assert(a[k] == x);
        }
        assert forall|k1: int, k2: int| 0 <= k1 < k2 < whole.len() implies whole[k1]
            < whole[k2] by {
            if k2 >= pre.len() {
                assert(whole[k2] == a.last());
                assert(pre.contains(pre[k1]));
            }
        }
        assert forall|x: int| #[trigger] whole.contains(x) implies a.contains(x) && b.contains(
            x,
        ) by {
            let k = choose|k: int| 0 <= k < whole.len() && whole[k] == x;
            if k < pre.len() {
                assert(pre.contains(x));
                assert(a.drop_last().contains(x));
                let m = choose|m: int| 0 <= m < a.len() - 1 && a.drop_last()[m] == x;
                assert(a[m] == x);
            } else {
                assert(x == a.last());
                assert(a.contains(a[a.len() - 1]));
            }
        }
        assert forall|x: int| a.contains(x) && b.contains(x) implies #[trigger] whole.contains(
            x,
        ) by {
            let m = choose|m: int| 0 <= m < a.len() && a[m] == x;
            if m < a.len() - 1 {
                assert(a.drop_last()[m] == x);
                assert(a.drop_last().contains(x));
                assert(pre.contains(x));
                let k = choose|k: int| 0 <= k < pre.len() && pre[k] == x;
                assert(whole[k] == x);
            } else {
                assert(whole[whole.len() - 1] == x);
            }
        }
    }
}

/// The per-cipher-word candidate sets accumulated so far: one optional
/// sorted identifier set per cipher word, `None` meaning unconstrained.
pub open spec fn empty_ps(n: int) -> Seq<Option<Seq<int>>> {
    Seq::new(n as nat, |k: int| None::<Seq<int>>)
}

/// Every constrained entry is sorted and non-empty.
pub open spec fn ps_wf(p: Seq<Option<Seq<int>>>) -> bool {
    forall|k: int|
        0 <= k < p.len() ==> match #[trigger] p[k] {
            Some(s) => strictly_sorted(s) && s.len() > 0,
            None => true,
        }
}

/// One entry of the intersection of two partial solutions: entries present
/// on one side only are copied through; entries on both sides intersect.
pub open spec fn merge_entry(x: Option<Seq<int>>, y: Option<Seq<int>>) -> Option<Seq<int>> {
    match (x, y) {
        (Some(s), Some(t)) => Some(intersect_seq(s, t)),
        (Some(s), None) => Some(s),
        (None, Some(t)) => Some(t),
        (None, None) => None,
    }
}

/// The intersection of two partial solutions over the same cipher words,
/// cipher word by cipher word; nothing when some common entry becomes empty
/// or when no cipher word is constrained at all.
pub open spec fn ps_intersect(a: Seq<Option<Seq<int>>>, b: Seq<Option<Seq<int>>>) -> Option<
    Seq<Option<Seq<int>>>,
>
    recommends
        a.len() == b.len(),
{
    if exists|k: int|
        0 <= k < a.len() && ((#[trigger] merge_entry(a[k], b[k])) matches Some(s) && s.len()
            == 0) {
        None
    } else if forall|k: int| 0 <= k < a.len() ==> #[trigger] merge_entry(a[k], b[k]) is None {
        None
    } else {
        Some(Seq::new(a.len(), |k: int| merge_entry(a[k], b[k])))
    }
}

/// The candidate partial solution for one condition and one trial letter:
/// for each occurrence, the index bucket for (word length, letter,
/// position), intersected per cipher word; nothing as soon as a bucket is
/// missing or an intersection empties.
pub open spec fn condition_candidate(
    voc: Seq<Seq<char>>,
    cond: Seq<CipherChar>,
    letter: u8,
    n: int,
) -> Option<Seq<Option<Seq<int>>>>
    decreases cond.len(),
{
    if cond.len() == 0 {
        Some(empty_ps(n))
    } else {
        match condition_candidate(voc, cond.drop_last(), letter, n) {
            None => None,
            Some(prior) => {
                let ch = cond.last();
                let b = bucket_seq(voc, ch.length as int, letter, ch.position.0 as int);
                let w = ch.cipher_word_id.0 as int;
                if b.len() == 0 || !(0 <= w < n) {
                    None
                } else {
                    let newset = match prior[w] {
                        None => b,
                        Some(s) => intersect_seq(s, b),
                    };
                    if newset.len() == 0 {
                        None
                    } else {
                        Some(prior.update(w, Some(newset)))
                    }
                }
            },
        }
    }
}

/// Once a prefix of a condition has failed, the whole condition fails.
pub proof fn lemma_candidate_none(voc: Seq<Seq<char>>, cond: Seq<CipherChar>, letter: u8, n: int, k: int)
    requires
        0 <= k <= cond.len(),
        condition_candidate(voc, cond.take(k), letter, n) is None,
    ensures
        condition_candidate(voc, cond, letter, n) is None,
    decreases cond.len() - k,
{
    if k == cond.len() {
        assert(cond.take(k) =~= cond);
    } else {
        assert(cond.take(k + 1).drop_last() =~= cond.take(k));
        lemma_candidate_none(voc, cond, letter, n, k + 1);
    }
}

} // verus!

verus! {

/// The optional identifier sets held by a list of entries, as mathematics.
pub open spec fn entries_view(v: Seq<Option<Words>>) -> Seq<Option<Seq<int>>> {
    v.map_values(
        |o: Option<Words>|
            match o {
                Some(w) => Some(w@),
                None => None,
            },
    )
}

/// A mapping from cipher words to their surviving candidate sets, stored
/// densely: entry `k` belongs to cipher word `k`, `None` meaning
/// unconstrained so far.
pub struct PartialSolution {
    words: Vec<Option<Words>>,
}

impl View for PartialSolution {
    type V = Seq<Option<Seq<int>>>;

    closed spec fn view(&self) -> Seq<Option<Seq<int>>> {
        entries_view(self.words@)
    }
}

impl PartialSolution {
    /// A solution that constrains none of the `n` cipher words.
    pub fn unconstrained(n: usize) -> (r: PartialSolution)
        ensures
            r@ == empty_ps(n as int),
    {
        let mut words: Vec<Option<Words>> = Vec::new();
        let mut k: usize = 0;
        while k < n
            invariant
                k <= n,
                words@.len() == k,
                forall|m: int| 0 <= m < k ==> (#[trigger] words@[m]) is None,
            decreases n - k,
        {
            words.push(None);
            k = k + 1;
        }
        let r = PartialSolution { words };
        proof {
            assert(r@ =~= empty_ps(n as int));
        }
        r
    }

    /// The surviving candidate sets, one optional entry per cipher word.
    pub fn satisfactory_words(&self) -> (r: &[Option<Words>])
        ensures
            entries_view(r@) == self@,
    {
        self.words.as_slice()
    }

    /// The candidate set of cipher word `k`, when it is constrained.
    pub fn candidates_of(&self, k: usize) -> (r: &Option<Words>)
        requires
            k < self@.len(),
        ensures
            match r {
                Some(w) => self@[k as int] == Some(w@),
                None => self@[k as int] is None,
            },
    {
        proof {
            assert(self@[k as int] == match self.words@[k as int] {
                Some(w) => Some(w@),
                None => None::<Seq<int>>,
            });
        }
        &self.words[k]
    }

    /// Narrows the entry of cipher word `wid` to its intersection with `w`
    /// (or to `w` itself when the word was unconstrained), and reports
    /// whether the narrowed set is still inhabited.
    fn constrain(&mut self, wid: usize, w: Words) -> (ok: bool)
        requires
            wid < old(self)@.len(),
            strictly_sorted(w@),
            ps_wf(old(self)@),
        ensures
            ({
                let newset = match old(self)@[wid as int] {
                    None => w@,
                    Some(s) => intersect_seq(s, w@),
                };
                &&& final(self)@ == old(self)@.update(wid as int, Some(newset))
                &&& ok == (newset.len() > 0)
                &&& strictly_sorted(newset)
            }),
    {
        let ghost oldv = self@;
        let neww: Words = match &self.words[wid] {
            None => w,
            Some(cur) => {
                proof {
                    assert(oldv[wid as int] == Some(cur@));
                    lemma_intersect_seq(cur@, w@);
                }
                match cur.intersection(&w) {
                    Some(x) => {
                        proof {
                            lemma_sorted_unique(x@, intersect_seq(cur@, w@));
                        }
                        x
                    },
                    None => {
                        let empty: Vec<WordId> = Vec::new();
                        proof {
                            assert forall|x: int| !(#[trigger] intersect_seq(
                                cur@,
                                w@,
                            ).contains(x)) by {}
                            lemma_empty_by_members(intersect_seq(cur@, w@));
                        }
                        Words::from_sorted(empty)
                    },
                }
            },
        };
        let ok = !neww.is_empty();
        proof {
            let newset = match oldv[wid as int] {
                None => w@,
                Some(s) => intersect_seq(s, w@),
            };
            assert(neww@ == newset);
        }
        self.words.set(wid, Some(neww));
        proof {
            assert(self@ =~= oldv.update(
                wid as int,
                Some(
                    match oldv[wid as int] {
                        None => w@,
                        Some(s) => intersect_seq(s, w@),
                    },
                ),
            ));
        }
        ok
    }

    /// Intersects two partial solutions over the same cipher words, cipher
    /// word by cipher word: entries on one side only are copied through;
    /// entries on both sides intersect. Returns nothing as soon as a common
    /// entry empties, or when no cipher word is constrained at all.
    pub fn intersect(&self, other: &PartialSolution) -> (r: Option<PartialSolution>)
        requires
            self@.len() == other@.len(),
            ps_wf(self@),
            ps_wf(other@),
        ensures
            (match r {
                Some(q) => Some(q@),
                None => None,
            }) == ps_intersect(self@, other@),
            r matches Some(q) ==> ps_wf(q@),
    {
        let ghost a = self@;
        let ghost b = other@;
        let n = self.words.len();
        let mut merged: Vec<Option<Words>> = Vec::new();
        let mut found_any = false;
        let mut k: usize = 0;
        while k < n
            invariant
                n == self.words@.len(),
                a == self@,
                b == other@,
                a.len() == n,
                b.len() == n,
                ps_wf(a),
                ps_wf(b),
                k <= n,
                merged@.len() == k,
                forall|m: int|
                    0 <= m < k ==> entries_view(merged@)[m] == merge_entry(a[m], b[m]),
                forall|m: int|
                    0 <= m < k ==> !((#[trigger] merge_entry(a[m], b[m])) matches Some(s) && s.len()
                        == 0),
                found_any == exists|m: int| 0 <= m < k && #[trigger] merge_entry(a[m], b[m]) is Some,
                ps_wf(entries_view(merged@)),
            decreases n - k,
        {
            let ghost me = merge_entry(a[k as int], b[k as int]);
            let ghost old_merged = merged@;
            let left = &self.words[k];
            let right = &other.words[k];
            proof {
                assert(a[k as int] == match self.words@[k as int] {
                    Some(w) => Some(w@),
                    None => None::<Seq<int>>,
                });
                assert(b[k as int] == match other.words@[k as int] {
                    Some(w) => Some(w@),
                    None => None::<Seq<int>>,
                });
            }
            match (left, right) {
                (None, None) => {
                    merged.push(None);
                },
                (Some(l), None) => {
                    merged.push(Some(l.clone()));
                    found_any = true;
                },
                (None, Some(rw)) => {
                    merged.push(Some(rw.clone()));
                    found_any = true;
                },
                (Some(l), Some(rw)) => {
                    proof {
                        lemma_intersect_seq(l@, rw@);
                    }
                    match l.intersection(rw) {
                        Some(x) => {
                            proof {
                                lemma_sorted_unique(x@, intersect_seq(l@, rw@));
                            }
                            merged.push(Some(x));
                            found_any = true;
                        },
                        None => {
                            proof {
                                assert forall|x: int| !(#[trigger] intersect_seq(
                                    l@,
                                    rw@,
                                ).contains(x)) by {}
                                lemma_empty_by_members(intersect_seq(l@, rw@));
                                assert(me matches Some(s) && s.len() == 0);
                            }
                            return None;
                        },
                    }
                },
            }
            proof {
                assert(entries_view(merged@) =~= entries_view(old_merged).push(me));
                assert forall|m: int| 0 <= m < k + 1 implies entries_view(merged@)[m]
                    == merge_entry(a[m], b[m]) by {
                    if m < k {
                        assert(entries_view(merged@)[m] == entries_view(old_merged)[m]);
                    }
                }
            }
            k = k + 1;
        }
        if !found_any {
            proof {
                assert forall|m: int| 0 <= m < a.len() implies #[trigger] merge_entry(
                    a[m],
                    b[m],
                ) is None by {}
            }
            return None;
        }
        let q = PartialSolution { words: merged };
        proof {
            assert(q@ =~= Seq::new(a.len(), |m: int| merge_entry(a[m], b[m])));
            assert(ps_intersect(a, b) == Some(q@));
        }
        Some(q)
    }
}

} // verus!

verus! {

/// The models of a list of partial solutions.
pub open spec fn svw(v: Seq<PartialSolution>) -> Seq<Seq<Option<Seq<int>>>> {
    v.map_values(|p: PartialSolution| p@)
}

/// A list of solutions cut to at most `limit` entries.
pub open spec fn capped(s: Seq<Seq<Option<Seq<int>>>>, limit: int) -> Seq<Seq<Option<Seq<int>>>> {
    if s.len() <= limit {
        s
    } else {
        s.take(limit)
    }
}

/// Appending behind a list already cut at `limit` changes nothing.
proof fn lemma_capped_stable(x: Seq<Seq<Option<Seq<int>>>>, y: Seq<Seq<Option<Seq<int>>>>, limit: int)
    requires
        0 <= limit <= x.len(),
    ensures
        capped(x + y, limit) == capped(x, limit),
{
    assert((x + y).take(limit) =~= x.take(limit));
    if x.len() == limit && (x + y).len() <= limit {
        assert(x + y =~= x);
    }
}

/// Every full solution the conditions from `i` on admit, given the
/// candidate sets `acc` accumulated so far: the solver tries the plaintext
/// letters `a`..`z` in order for condition `i`, keeps the assignments whose
/// intersections stay inhabited, and recurses into the next condition.
pub open spec fn solve_from(
    voc: Seq<Seq<char>>,
    conds: Seq<Seq<CipherChar>>,
    i: int,
    acc: Seq<Option<Seq<int>>>,
    n: int,
) -> Seq<Seq<Option<Seq<int>>>>
    decreases conds.len() - i, 27int,
{
    if 0 <= i < conds.len() {
        solve_letters(voc, conds, i, 0, acc, n)
    } else {
        Seq::empty()
    }
}

/// The part of `solve_from` contributed by the trial letters from `letter`
/// (an alphabet index, 0 for `a`) upward.
pub open spec fn solve_letters(
    voc: Seq<Seq<char>>,
    conds: Seq<Seq<CipherChar>>,
    i: int,
    letter: int,
    acc: Seq<Option<Seq<int>>>,
    n: int,
) -> Seq<Seq<Option<Seq<int>>>>
    decreases conds.len() - i, 26 - letter,
{
    if !(0 <= i < conds.len()) || !(0 <= letter < 26) {
        Seq::empty()
    } else {
        let here = match condition_candidate(voc, conds[i], (letter + 97) as u8, n) {
            None => Seq::empty(),
            Some(p) => match ps_intersect(acc, p) {
                None => Seq::empty(),
                Some(q) => if i == conds.len() - 1 {
                    seq![q]
                } else {
                    solve_from(voc, conds, i + 1, q, n)
                },
            },
        };
        here + solve_letters(voc, conds, i, letter + 1, acc, n)
    }
}

/// Every full solution of the whole condition list: what the solver's
/// result is cut from. An empty condition list admits no full solution.
pub open spec fn all_solutions(voc: Seq<Seq<char>>, conds: Seq<Seq<CipherChar>>, n: int) -> Seq<
    Seq<Option<Seq<int>>>,
> {
    if conds.len() == 0 {
        Seq::empty()
    } else {
        solve_from(voc, conds, 0, empty_ps(n), n)
    }
}

/// The solver's result: the full partial solutions found, in search order,
/// and whether the caller's cap cut the enumeration short.
pub struct Solution {
    solution: Vec<PartialSolution>,
    overflowed: bool,
}

impl Solution {
    /// The models of the solutions held, in order.
    pub closed spec fn solutions(&self) -> Seq<Seq<Option<Seq<int>>>> {
        svw(self.solution@)
    }

    /// Whether the enumeration was cut at the cap.
    pub closed spec fn did_overflow(&self) -> bool {
        self.overflowed
    }

    /// The full partial solutions found, in search order.
    pub fn partial_solutions(&self) -> (r: &[PartialSolution])
        ensures
            svw(r@) == self.solutions(),
    {
        self.solution.as_slice()
    }

    /// True when more solutions existed than the cap allowed to return.
    pub fn overflowed(&self) -> (r: bool)
        ensures
            r == self.did_overflow(),
    {
        self.overflowed
    }
}

/// Ties a vocabulary index to a parsed cipher phrase and runs the
/// backtracking search over its conditions.
pub struct Decipher {
    index: VocabularyIndex,
    cipher_text: CipherText,
}

impl Decipher {
    /// The cipher phrase being solved.
    pub closed spec fn ct(&self) -> CipherText {
        self.cipher_text
    }

    /// The vocabulary the index was built from.
    pub closed spec fn vocab(&self) -> Seq<Seq<char>> {
        self.index.vocab()
    }

    /// The solver is usable when its cipher text is.
    pub open spec fn wf(&self) -> bool {
        self.ct().wf()
    }

    /// Pairs an index with a cipher phrase.
    pub fn new(index: VocabularyIndex, cipher_text: CipherText) -> (r: Decipher)
        ensures
            r.ct() == cipher_text,
            r.vocab() == index.vocab(),
    {
        Decipher { index, cipher_text }
    }

    /// The freshly satisfying partial solution for one condition and one
    /// trial letter: per occurrence, the index bucket for (word length,
    /// letter, position), intersected into the occurrence's cipher word;
    /// nothing as soon as a bucket is missing or an entry empties.
    fn partial_solution(&self, condition: &Condition, ch: Char) -> (r: Option<PartialSolution>)
        requires
            self.wf(),
            forall|k: int|
                0 <= k < condition@.len() ==> (#[trigger] condition@[k]).position.0 < condition@[
                    k
                ].length && condition@[k].cipher_word_id.0 < self.ct().words_model().len(),
        ensures
            (match r {
                Some(p) => Some(p@),
                None => None,
            }) == condition_candidate(
                self.vocab(),
                condition@,
                ch.0,
                self.ct().words_model().len() as int,
            ),
            r matches Some(p) ==> ps_wf(p@) && p@.len() == self.ct().words_model().len(),
    {
        let ghost voc = self.vocab();
        let ghost nn = self.ct().words_model().len() as int;
        let n = self.cipher_text.word_count();
        let mut ps = PartialSolution::unconstrained(n);
        proof {
            assert(condition@.take(0) =~= Seq::<CipherChar>::empty());
        }
        let chars = condition.equal_chars();
        let mut k: usize = 0;
        while k < chars.len()
            invariant
                self.wf(),
                voc == self.vocab(),
                nn == self.ct().words_model().len() as int,
                n as int == nn,
                chars@ == condition@,
                forall|m: int|
                    0 <= m < condition@.len() ==> (#[trigger] condition@[m]).position.0
                        < condition@[m].length && condition@[m].cipher_word_id.0 < nn,
                k <= chars@.len(),
                condition_candidate(voc, condition@.take(k as int), ch.0, nn) == Some(ps@),
                ps@.len() == nn,
                ps_wf(ps@),
            decreases chars@.len() - k,
        {
            let c = chars[k];
            let ghost prior = ps@;
            let ghost bs = bucket_seq(voc, c.length as int, ch.0, c.position.0 as int);
            proof {
                lemma_bucket_seq(voc, c.length as int, ch.0, c.position.0 as int);
                assert(condition@.take(k + 1).drop_last() =~= condition@.take(k as int));
                assert(condition@.take(k + 1).last() == condition@[k as int]);
            }
            match self.index.get(c.length, ch, c.position) {
                None => {
                    proof {
                        assert forall|x: int| !(#[trigger] bs.contains(x)) by {}
                        lemma_empty_by_members(bs);
                        assert(condition_candidate(voc, condition@.take(k + 1), ch.0, nn) is None);
                        lemma_candidate_none(voc, condition@, ch.0, nn, k + 1);
                    }
                    return None;
                },
                Some(w) => {
                    proof {
                        assert forall|x: int| #[trigger] w@.contains(x) <==> bs.contains(x) by {}
                        lemma_sorted_unique(w@, bs);
                    }
                    let wid = c.cipher_word_id.0 as usize;
                    let ok = ps.constrain(wid, w);
                    proof {
                        let newset = match prior[wid as int] {
                            None => bs,
                            Some(s) => intersect_seq(s, bs),
                        };
                        assert(ps@ == prior.update(wid as int, Some(newset)));
                        if ok {
                            assert(condition_candidate(voc, condition@.take(k + 1), ch.0, nn)
                                == Some(ps@));
                            assert forall|m: int| 0 <= m < ps@.len() implies match #[trigger] ps@[m] {
                                Some(s) => strictly_sorted(s) && s.len() > 0,
                                None => true,
                            } by {
                                if m != wid as int {
                                    assert(ps@[m] == prior[m]);
                                }
                            }
                        } else {
                            assert(condition_candidate(voc, condition@.take(k + 1), ch.0, nn)
                                is None);
                        }
                    }
                    if !ok {
                        proof {
                            lemma_candidate_none(voc, condition@, ch.0, nn, k + 1);
                        }
                        return None;
                    }
                },
            }
            k = k + 1;
        }
        proof {
            assert(condition@.take(chars@.len() as int) =~= condition@);
        }
        Some(ps)
    }

    /// Explores condition `i` and deeper with the accumulated sets `acc`,
    /// appending every full solution found to `out` in search order, until
    /// `limit` solutions are held; a solution beyond the cap sets the
    /// overflow flag instead and ends the search.
    fn solve_rec(
        &self,
        i: usize,
        acc: &PartialSolution,
        limit: usize,
        out: &mut Vec<PartialSolution>,
        overflowed: &mut bool,
    )
        requires
            self.wf(),
            i < self.ct().conditions_model().len(),
            acc@.len() == self.ct().words_model().len(),
            ps_wf(acc@),
            !*old(overflowed),
            svw(old(out)@).len() <= limit,
        ensures
            ({
                let produced = solve_from(
                    self.vocab(),
                    self.ct().conditions_model(),
                    i as int,
                    acc@,
                    self.ct().words_model().len() as int,
                );
                &&& svw(final(out)@) == capped(svw(old(out)@) + produced, limit as int)
                &&& *final(overflowed) == (svw(old(out)@).len() + produced.len() > limit)
            }),
            svw(final(out)@).len() <= limit,
        decreases self.ct().conditions_model().len() - i,
    {
        let ghost voc = self.vocab();
        let ghost cm = self.ct().conditions_model();
        let ghost nn = self.ct().words_model().len() as int;
        let ghost base = svw(out@);
        let ghost accm = acc@;
        proof {
            self.cipher_text.lemma_wf();
        }
        let conditions = self.cipher_text.conditions();
        let cond_count = conditions.len();
        let cond: &Condition = &conditions[i];
        proof {
            assert(cond@ == cm[i as int]);
        }
        let last = i + 1 == conditions.len();
        let mut letter: u8 = 0;
        let ghost mut prefix: Seq<Seq<Option<Seq<int>>>> = Seq::empty();
        proof {
            assert(base + prefix =~= base);
            assert(solve_letters(voc, cm, i as int, 0, accm, nn) =~= prefix + solve_letters(
                voc,
                cm,
                i as int,
                0,
                accm,
                nn,
            ));
        }
        while letter < 26
            invariant_except_break
                self.wf(),
                voc == self.vocab(),
                cm == self.ct().conditions_model(),
                nn == self.ct().words_model().len() as int,
                i < cm.len(),
                cond@ == cm[i as int],
                last == (i + 1 == cm.len()),
                cond_count as int == cm.len(),
                accm == acc@,
                accm.len() == nn,
                ps_wf(accm),
                letter <= 26,
                svw(out@) == capped(base + prefix, limit as int),
                svw(out@).len() <= limit,
                *overflowed == (base.len() + prefix.len() > limit),
                solve_letters(voc, cm, i as int, 0, accm, nn) == prefix + solve_letters(
                    voc,
                    cm,
                    i as int,
                    letter as int,
                    accm,
                    nn,
                ),
            ensures
                svw(out@) == capped(
                    base + solve_letters(voc, cm, i as int, 0, accm, nn),
                    limit as int,
                ),
                *overflowed == (base.len() + solve_letters(voc, cm, i as int, 0, accm, nn).len()
                    > limit),
                svw(out@).len() <= limit,
            decreases 26 - letter,
        {
            let ghost rest = solve_letters(voc, cm, i as int, letter as int, accm, nn);
            if *overflowed {
                proof {
                    lemma_capped_stable(base + prefix, rest, limit as int);
                    assert((base + prefix) + rest =~= base + (prefix + rest));
                    assert(svw(out@) == capped(base + (prefix + rest), limit as int));
                }
                break ;
            }
            let trial = Char(97 + letter);
            let ghost here_letter = letter as int;
            proof {
                assert(trial.0 == (here_letter + 97) as u8);
                self.cipher_text.lemma_wf();
                assert forall|k: int| 0 <= k < cond@.len() implies (
                #[trigger] cond@[k]).position.0 < cond@[k].length && cond@[k].cipher_word_id.0
                    < self.ct().words_model().len() by {
                    assert(cond@[k] == self.ct().conditions_model()[i as int][k]);
                }
            }
            match self.partial_solution(cond, trial) {
                None => {
                    proof {
                        assert(rest =~= Seq::<Seq<Option<Seq<int>>>>::empty() + solve_letters(
                            voc,
                            cm,
                            i as int,
                            here_letter + 1,
                            accm,
                            nn,
                        ));
                    }
                },
                Some(p) => {
                    match acc.intersect(&p) {
                        None => {
                            proof {
                                assert(rest =~= Seq::<Seq<Option<Seq<int>>>>::empty()
                                    + solve_letters(voc, cm, i as int, here_letter + 1, accm, nn));
                            }
                        },
                        Some(q) => {
                            let ghost here = if i as int == cm.len() - 1 {
                                seq![q@]
                            } else {
                                solve_from(voc, cm, i as int + 1, q@, nn)
                            };
                            proof {
                                assert(rest == here + solve_letters(
                                    voc,
                                    cm,
                                    i as int,
                                    here_letter + 1,
                                    accm,
                                    nn,
                                ));
                                assert(svw(out@) == base + prefix);
                            }
                            if last {
                                if out.len() < limit {
                                    let ghost old_out = out@;
                                    out.push(q);
                                    proof {
                                        assert(svw(out@) =~= svw(old_out).push(q@));
                                        assert(svw(out@) =~= (base + prefix) + here);
                                        assert((base + prefix) + here =~= base + (prefix + here));
                                    }
                                } else {
                                    *overflowed = true;
                                    proof {
                                        assert((base + prefix).len() == limit);
                                        assert(capped(
                                            base + (prefix + here),
                                            limit as int,
                                        ) =~= base + prefix) by {
                                            assert((base + (prefix + here)).take(limit as int)
                                                =~= base + prefix);
                                        }
                                    }
                                }
                            } else {
                                proof {
                                    assert(q@.len() == accm.len());
                                }
                                self.solve_rec(i + 1, &q, limit, out, overflowed);
                                proof {
                                    assert((base + prefix) + here =~= base + (prefix + here));
                                }
                            }
                            proof {
                                prefix = prefix + here;
                            }
                        },
                    }
                },
            }
            proof {
                // one unfolding of the suffix: what this letter contributed
                // plus the suffix from the next letter
                assert(rest == solve_letters(voc, cm, i as int, here_letter, accm, nn));
            }
            letter = letter + 1;
        }
        proof {
            assert(solve_from(voc, cm, i as int, accm, nn) == solve_letters(
                voc,
                cm,
                i as int,
                0,
                accm,
                nn,
            ));
        }
    }

    /// Runs the backtracking search over all conditions: the result lists,
    /// in search order, every assignment-surviving partial solution, cut to
    /// at most `limit` entries; the overflow flag says whether the cut
    /// removed anything. A phrase with no repeated letters imposes no
    /// condition and yields no entry. Every entry returned is sound: it
    /// covers all cipher words with sorted, non-empty candidate sets, and
    /// for every condition some plaintext letter explains every surviving
    /// word.
    pub fn find_solution(&self, limit: usize) -> (r: Solution)
        requires
            self.wf(),
        ensures
            ({
                let all = all_solutions(
                    self.vocab(),
                    self.ct().conditions_model(),
                    self.ct().words_model().len() as int,
                );
                &&& r.solutions() == capped(all, limit as int)
                &&& r.did_overflow() == (all.len() > limit)
            }),
            forall|s: int|
                0 <= s < r.solutions().len() ==> solution_sound(
                    self.vocab(),
                    self.ct().conditions_model(),
                    self.ct().words_model().len() as int,
                    #[trigger] r.solutions()[s],
                ),
    {
        let ghost voc = self.vocab();
        let ghost cm = self.ct().conditions_model();
        let ghost nn = self.ct().words_model().len() as int;
        let mut out: Vec<PartialSolution> = Vec::new();
        let mut overflowed = false;
        let word_count = self.cipher_text.word_count();
        let condition_count = self.cipher_text.conditions().len();
        if condition_count > 0 {
            let acc = PartialSolution::unconstrained(word_count);
            proof {
                assert(ps_wf(acc@));
                assert(svw(out@) =~= Seq::<Seq<Option<Seq<int>>>>::empty());
            }
            self.solve_rec(0, &acc, limit, &mut out, &mut overflowed);
            proof {
                let all = all_solutions(voc, cm, nn);
                assert(Seq::<Seq<Option<Seq<int>>>>::empty() + all =~= all);
            }
        } else {
            proof {
                assert(svw(out@) =~= Seq::<Seq<Option<Seq<int>>>>::empty());
                assert(capped(all_solutions(voc, cm, nn), limit as int) =~= Seq::<
                    Seq<Option<Seq<int>>>,
                >::empty());
            }
        }
        let r = Solution { solution: out, overflowed };
        proof {
            let all = all_solutions(voc, cm, nn);
            lemma_solutions_sound(voc, cm, nn);
            assert forall|s: int| 0 <= s < r.solutions().len() implies solution_sound(
                voc,
                cm,
                nn,
                #[trigger] r.solutions()[s],
            ) by {
                if all.len() <= limit {
                    assert(r.solutions()[s] == all[s]);
                } else {
                    assert(r.solutions()[s] == all.take(limit as int)[s]);
                    assert(all.take(limit as int)[s] == all[s]);
                }
                assert(solution_sound(voc, cm, nn, all[s]));
            }
        }
        r
    }

    /// The determinism law of the solver: its exact contract pins the
    /// result, so any two solutions of the same vocabulary, conditions,
    /// phrase shape and cap are equal, entry for entry, overflow flag
    /// included.
    pub proof fn lemma_solver_deterministic(
        s1: Solution,
        s2: Solution,
        voc: Seq<Seq<char>>,
        conds: Seq<Seq<CipherChar>>,
        n: int,
        limit: int,
    )
        requires
            s1.solutions() == capped(all_solutions(voc, conds, n), limit),
            s1.did_overflow() == (all_solutions(voc, conds, n).len() > limit),
            s2.solutions() == capped(all_solutions(voc, conds, n), limit),
            s2.did_overflow() == (all_solutions(voc, conds, n).len() > limit),
        ensures
            s1.solutions() == s2.solutions(),
            s1.did_overflow() == s2.did_overflow(),
    {
    }
}

} // verus!

verus! {

/// Entry-wise refinement: wherever `b` constrains a cipher word, `a`
/// constrains it to a subset.
pub open spec fn entry_refines(x: Option<Seq<int>>, y: Option<Seq<int>>) -> bool {
    match y {
        None => true,
        Some(t) => match x {
            None => false,
            Some(s) => forall|v: int| #[trigger] s.contains(v) ==> t.contains(v),
        },
    }
}

/// `a` refines `b`: same cipher words, entry by entry narrower.
pub open spec fn ps_refines(a: Seq<Option<Seq<int>>>, b: Seq<Option<Seq<int>>>) -> bool {
    a.len() == b.len() && forall|k: int|
        0 <= k < a.len() ==> entry_refines(#[trigger] a[k], b[k])
}

/// `ps` is consistent with decoding the condition's cipher letter as
/// `letter`: every occurrence's cipher word is constrained, and each of its
/// surviving words has `letter` at the occurrence's position (and the
/// occurrence's length).
pub open spec fn consistent_with(
    voc: Seq<Seq<char>>,
    ps: Seq<Option<Seq<int>>>,
    cond: Seq<CipherChar>,
    letter: u8,
) -> bool {
    forall|k: int|
        0 <= k < cond.len() ==> {
            let c = #[trigger] cond[k];
            &&& 0 <= c.cipher_word_id.0 < ps.len()
            &&& ps[c.cipher_word_id.0 as int] matches Some(s) && (forall|x: int|
                #[trigger] s.contains(x) ==> word_has(
                    voc,
                    x,
                    c.length as int,
                    letter,
                    c.position.0 as int,
                ))
        }
}

/// What holds of every full solution the solver can emit: it covers all `n`
/// cipher words, every entry is sorted and non-empty, and for every
/// condition some plaintext letter explains all its surviving words.
pub open spec fn solution_sound(
    voc: Seq<Seq<char>>,
    conds: Seq<Seq<CipherChar>>,
    n: int,
    ps: Seq<Option<Seq<int>>>,
) -> bool {
    &&& ps.len() == n
    &&& ps_wf(ps)
    &&& consistent_all(voc, conds, 0, ps)
}

/// Consistency survives narrowing.
proof fn lemma_consistent_refines(
    voc: Seq<Seq<char>>,
    q: Seq<Option<Seq<int>>>,
    p: Seq<Option<Seq<int>>>,
    cond: Seq<CipherChar>,
    letter: u8,
)
    requires
        ps_refines(q, p),
        consistent_with(voc, p, cond, letter),
    ensures
        consistent_with(voc, q, cond, letter),
{
    assert forall|k: int| 0 <= k < cond.len() implies {
        let c = #[trigger] cond[k];
        &&& 0 <= c.cipher_word_id.0 < q.len()
        &&& q[c.cipher_word_id.0 as int] matches Some(s) && (forall|x: int|
            #[trigger] s.contains(x) ==> word_has(
                voc,
                x,
                c.length as int,
                letter,
                c.position.0 as int,
            ))
    } by {
        let c = cond[k];
        let w = c.cipher_word_id.0 as int;
        assert(entry_refines(q[w], p[w]));
    }
}

/// A freshly built candidate is sound for its own condition: every entry it
/// sets is a subset of the condition's buckets at every occurrence.
proof fn lemma_candidate_sound(voc: Seq<Seq<char>>, cond: Seq<CipherChar>, letter: u8, n: int)
    requires
        n >= 0,
        condition_candidate(voc, cond, letter, n) is Some,
    ensures
        ({
            let p = condition_candidate(voc, cond, letter, n)->Some_0;
            &&& p.len() == n
            &&& ps_wf(p)
            &&& consistent_with(voc, p, cond, letter)
        }),
    decreases cond.len(),
{
    let p = condition_candidate(voc, cond, letter, n)->Some_0;
    if cond.len() == 0 {
        assert(p =~= empty_ps(n));
        assert(p.len() == n);
        assert(ps_wf(p)) by {
            assert(forall|k: int| 0 <= k < p.len() ==> #[trigger] p[k] is None);
        }
    } else {
        lemma_candidate_sound(voc, cond.drop_last(), letter, n);
        let prior = condition_candidate(voc, cond.drop_last(), letter, n)->Some_0;
        let ch = cond.last();
        let b = bucket_seq(voc, ch.length as int, letter, ch.position.0 as int);
        let w = ch.cipher_word_id.0 as int;
        lemma_bucket_seq(voc, ch.length as int, letter, ch.position.0 as int);
        let newset = match prior[w] {
            None => b,
            Some(s) => intersect_seq(s, b),
        };
        assert(p == prior.update(w, Some(newset)));
        match prior[w] {
            Some(s0) => lemma_intersect_seq(s0, b),
            None => assert(strictly_sorted(b)),
        }
        assert(strictly_sorted(newset) && newset.len() > 0);
        assert(forall|x: int| #[trigger] newset.contains(x) ==> b.contains(x));
        assert forall|k: int| 0 <= k < p.len() implies match #[trigger] p[k] {
            Some(s) => strictly_sorted(s) && s.len() > 0,
            None => true,
        } by {
            if k != w {
                assert(p[k] == prior[k]);
            }
        }
        assert forall|k: int| 0 <= k < cond.len() implies {
            let c = #[trigger] cond[k];
            &&& 0 <= c.cipher_word_id.0 < p.len()
            &&& p[c.cipher_word_id.0 as int] matches Some(s) && (forall|x: int|
                #[trigger] s.contains(x) ==> word_has(
                    voc,
                    x,
                    c.length as int,
                    letter,
                    c.position.0 as int,
                ))
        } by {
            let c = cond[k];
            let cw = c.cipher_word_id.0 as int;
            if k < cond.len() - 1 {
                assert(cond.drop_last()[k] == c);
                assert(prior[cw] matches Some(_));
                if cw == w {
                    assert forall|x: int|
                        #[trigger] newset.contains(x) implies word_has(
                        voc,
                        x,
                        c.length as int,
                        letter,
                        c.position.0 as int,
                    ) by {
                        let s = prior[cw]->Some_0;
                        assert(s.contains(x));
                    }
                } else {
                    assert(p[cw] == prior[cw]);
                }
            } else {
                assert(c == ch);
                assert(p[cw] == Some(newset));
                assert forall|x: int| #[trigger] newset.contains(x) implies word_has(
                    voc,
                    x,
                    c.length as int,
                    letter,
                    c.position.0 as int,
                ) by {
                    assert(b.contains(x));
                }
            }
        }
    }
}

/// An intersection of two partial solutions refines both and keeps every
/// entry sorted and non-empty.
proof fn lemma_intersect_sound(a: Seq<Option<Seq<int>>>, b: Seq<Option<Seq<int>>>)
    requires
        a.len() == b.len(),
        ps_wf(a),
        ps_wf(b),
        ps_intersect(a, b) is Some,
    ensures
        ({
            let q = ps_intersect(a, b)->Some_0;
            &&& q.len() == a.len()
            &&& ps_wf(q)
            &&& ps_refines(q, a)
            &&& ps_refines(q, b)
        }),
{
    let q = ps_intersect(a, b)->Some_0;
    assert forall|k: int| 0 <= k < q.len() implies match #[trigger] q[k] {
        Some(s) => strictly_sorted(s) && s.len() > 0,
        None => true,
    } by {
        assert(q[k] == merge_entry(a[k], b[k]));
        match (a[k], b[k]) {
            (Some(s0), Some(t0)) => {
                lemma_intersect_seq(s0, t0);
                assert(!(merge_entry(a[k], b[k]) matches Some(u) && u.len() == 0));
            },
            _ => {},
        }
    }
    assert forall|k: int| 0 <= k < q.len() implies entry_refines(#[trigger] q[k], a[k])
        && entry_refines(q[k], b[k]) by {
        assert(q[k] == merge_entry(a[k], b[k]));
        match (a[k], b[k]) {
            (Some(s0), Some(t0)) => {
                lemma_intersect_seq(s0, t0);
            },
            _ => {},
        }
    }
}

/// Some plaintext letter explains every surviving word of every cipher word
/// the condition touches.
pub open spec fn some_letter_fits(
    voc: Seq<Seq<char>>,
    ps: Seq<Option<Seq<int>>>,
    cond: Seq<CipherChar>,
) -> bool {
    exists|lt: u8| 97 <= lt <= 122 && #[trigger] consistent_with(voc, ps, cond, lt)
}

/// Every condition from `i` on is explained by some plaintext letter.
pub open spec fn consistent_all(
    voc: Seq<Seq<char>>,
    conds: Seq<Seq<CipherChar>>,
    i: int,
    ps: Seq<Option<Seq<int>>>,
) -> bool {
    forall|j: int| i <= j < conds.len() ==> #[trigger] some_letter_fits(voc, ps, conds[j])
}

/// A witness for condition `i` extends consistency from `i + 1` to `i`.
proof fn lemma_consistent_all_extend(
    voc: Seq<Seq<char>>,
    conds: Seq<Seq<CipherChar>>,
    i: int,
    ps: Seq<Option<Seq<int>>>,
    lt8: u8,
)
    requires
        0 <= i < conds.len(),
        consistent_all(voc, conds, i + 1, ps),
        97 <= lt8 <= 122,
        consistent_with(voc, ps, conds[i], lt8),
    ensures
        consistent_all(voc, conds, i, ps),
{
    assert forall|j: int| i <= j < conds.len() implies #[trigger] some_letter_fits(
        voc,
        ps,
        conds[j],
    ) by {
        if j == i {
            assert(consistent_with(voc, ps, conds[j], lt8));
        } else {
            assert(i + 1 <= j < conds.len());
        }
    }
}

/// What soundness means for one emitted solution, relative to the
/// accumulated sets `acc` and the conditions from `i` on.
pub open spec fn sound_for(
    voc: Seq<Seq<char>>,
    conds: Seq<Seq<CipherChar>>,
    i: int,
    acc: Seq<Option<Seq<int>>>,
    n: int,
    ps: Seq<Option<Seq<int>>>,
) -> bool {
    &&& ps.len() == n
    &&& ps_wf(ps)
    &&& ps_refines(ps, acc)
    &&& consistent_all(voc, conds, i, ps)
}

/// Refinement is transitive.
proof fn lemma_refines_trans(
    a: Seq<Option<Seq<int>>>,
    b: Seq<Option<Seq<int>>>,
    c: Seq<Option<Seq<int>>>,
)
    requires
        ps_refines(a, b),
        ps_refines(b, c),
    ensures
        ps_refines(a, c),
{
    assert forall|k: int| 0 <= k < a.len() implies entry_refines(#[trigger] a[k], c[k]) by {
        assert(entry_refines(a[k], b[k]));
        assert(entry_refines(b[k], c[k]));
        if c[k] is Some {
            let t = c[k]->Some_0;
            let s1 = a[k]->Some_0;
            let s2 = b[k]->Some_0;
            assert forall|v: int| #[trigger] s1.contains(v) implies t.contains(v) by {
                assert(s2.contains(v));
            }
        }
    }
}

/// Soundness of the whole enumeration from condition `i` on: every emitted
/// solution refines the accumulated sets and is consistent, under some
/// letter, with every condition from `i` on.
proof fn lemma_solve_sound(
    voc: Seq<Seq<char>>,
    conds: Seq<Seq<CipherChar>>,
    i: int,
    acc: Seq<Option<Seq<int>>>,
    n: int,
)
    requires
        n >= 0,
        acc.len() == n,
        ps_wf(acc),
    ensures
        forall|s: int|
            0 <= s < solve_from(voc, conds, i, acc, n).len() ==> sound_for(
                voc,
                conds,
                i,
                acc,
                n,
                #[trigger] solve_from(voc, conds, i, acc, n)[s],
            ),
    decreases conds.len() - i, 27int,
{
    if 0 <= i < conds.len() {
        lemma_solve_letters_sound(voc, conds, i, 0, acc, n);
        assert(solve_from(voc, conds, i, acc, n) == solve_letters(voc, conds, i, 0, acc, n));
        assert forall|s: int| 0 <= s < solve_from(voc, conds, i, acc, n).len() implies sound_for(
            voc,
            conds,
            i,
            acc,
            n,
            #[trigger] solve_from(voc, conds, i, acc, n)[s],
        ) by {
            assert(sound_for(voc, conds, i, acc, n, solve_letters(voc, conds, i, 0, acc, n)[s]));
        }
    }
}

/// The per-letter half of the soundness induction.
proof fn lemma_solve_letters_sound(
    voc: Seq<Seq<char>>,
    conds: Seq<Seq<CipherChar>>,
    i: int,
    letter: int,
    acc: Seq<Option<Seq<int>>>,
    n: int,
)
    requires
        n >= 0,
        acc.len() == n,
        ps_wf(acc),
        0 <= i < conds.len(),
    ensures
        forall|s: int|
            0 <= s < solve_letters(voc, conds, i, letter, acc, n).len() ==> sound_for(
                voc,
                conds,
                i,
                acc,
                n,
                #[trigger] solve_letters(voc, conds, i, letter, acc, n)[s],
            ),
    decreases conds.len() - i, 26 - letter,
{
    if !(0 <= letter < 26) {
        return ;
    }
    lemma_solve_letters_sound(voc, conds, i, letter + 1, acc, n);
    let whole = solve_letters(voc, conds, i, letter, acc, n);
    let rest = solve_letters(voc, conds, i, letter + 1, acc, n);
    let lt8 = (letter + 97) as u8;
    let here = match condition_candidate(voc, conds[i], lt8, n) {
        None => Seq::<Seq<Option<Seq<int>>>>::empty(),
        Some(p) => match ps_intersect(acc, p) {
            None => Seq::<Seq<Option<Seq<int>>>>::empty(),
            Some(q) => if i == conds.len() - 1 {
                seq![q]
            } else {
                solve_from(voc, conds, i + 1, q, n)
            },
        },
    };
    assert(whole == here + rest);
    if condition_candidate(voc, conds[i], lt8, n) is Some && ps_intersect(
        acc,
        condition_candidate(voc, conds[i], lt8, n)->Some_0,
    ) is Some {
        let p = condition_candidate(voc, conds[i], lt8, n)->Some_0;
        let q = ps_intersect(acc, p)->Some_0;
        lemma_candidate_sound(voc, conds[i], lt8, n);
        lemma_intersect_sound(acc, p);
        lemma_consistent_refines(voc, q, p, conds[i], lt8);
        if i == conds.len() - 1 {
            assert forall|s: int| 0 <= s < here.len() implies sound_for(
                voc,
                conds,
                i,
                acc,
                n,
                #[trigger] here[s],
            ) by {
                assert(here[s] == q);
                assert(consistent_all(voc, conds, i + 1, q)) by {
                    assert(forall|j: int| #![trigger conds[j]] !(i + 1 <= j < conds.len()));
                }
                lemma_consistent_all_extend(voc, conds, i, q, lt8);
                assert(sound_for(voc, conds, i, acc, n, q));
            }
        } else {
            lemma_solve_sound(voc, conds, i + 1, q, n);
            assert forall|s: int| 0 <= s < here.len() implies sound_for(
                voc,
                conds,
                i,
                acc,
                n,
                #[trigger] here[s],
            ) by {
                let ps = here[s];
                assert(ps == solve_from(voc, conds, i + 1, q, n)[s]);
                assert(sound_for(voc, conds, i + 1, q, n, ps));
                lemma_refines_trans(ps, q, acc);
                lemma_consistent_refines(voc, ps, q, conds[i], lt8);
                lemma_consistent_all_extend(voc, conds, i, ps, lt8);
                assert(sound_for(voc, conds, i, acc, n, ps));
            }
        }
    }
    assert forall|s: int| 0 <= s < whole.len() implies sound_for(
        voc,
        conds,
        i,
        acc,
        n,
        #[trigger] whole[s],
    ) by {
        if s < here.len() {
            assert(whole[s] == here[s]);
            assert(sound_for(voc, conds, i, acc, n, here[s]));
        } else {
            assert(whole[s] == rest[s - here.len()]);
            assert(sound_for(voc, conds, i, acc, n, rest[s - here.len()]));
        }
    }
}

/// The soundness law of the solver. Every partial solution in the full
/// enumeration covers all cipher words with sorted, non-empty candidate
/// sets, and for every condition there is a plaintext letter such that each
/// surviving word of each occurrence's cipher word has that letter at the
/// occurrence's position, in a vocabulary word of the cipher word's length.
pub proof fn lemma_solutions_sound(voc: Seq<Seq<char>>, conds: Seq<Seq<CipherChar>>, n: int)
    requires
        n >= 0,
    ensures
        forall|s: int|
            0 <= s < all_solutions(voc, conds, n).len() ==> solution_sound(
                voc,
                conds,
                n,
                #[trigger] all_solutions(voc, conds, n)[s],
            ),
{
    if conds.len() > 0 {
        assert(ps_wf(empty_ps(n))) by {
            assert(forall|k: int| 0 <= k < empty_ps(n).len() ==> #[trigger] empty_ps(n)[k] is None);
        }
        lemma_solve_sound(voc, conds, 0, empty_ps(n), n);
        assert forall|s: int| 0 <= s < all_solutions(voc, conds, n).len() implies solution_sound(
            voc,
            conds,
            n,
            #[trigger] all_solutions(voc, conds, n)[s],
        ) by {
            assert(all_solutions(voc, conds, n)[s] == solve_from(voc, conds, 0, empty_ps(n), n)[s]);
            assert(sound_for(voc, conds, 0, empty_ps(n), n, all_solutions(voc, conds, n)[s]));
        }
    }
}

} // verus!

verus! {

/// Intersecting sorted sets is symmetric: both orders give the same sorted
/// set of common members.
pub proof fn lemma_intersect_seq_comm(a: Seq<int>, b: Seq<int>)
    requires
        strictly_sorted(a),
        strictly_sorted(b),
    ensures
        intersect_seq(a, b) == intersect_seq(b, a),
{
    lemma_intersect_seq(a, b);
    lemma_intersect_seq(b, a);
    assert forall|x: int| intersect_seq(a, b).contains(x) <==> #[trigger] intersect_seq(
        b,
        a,
    ).contains(x) by {}
    lemma_sorted_unique(intersect_seq(a, b), intersect_seq(b, a));
}

/// Intersecting partial solutions is symmetric: the cipher words a condition
/// order feeds in first or second make no difference to the combined sets.
/// This is the heart of why reordering conditions cannot change any single
/// combined result.
pub proof fn lemma_ps_intersect_comm(a: Seq<Option<Seq<int>>>, b: Seq<Option<Seq<int>>>)
    requires
        a.len() == b.len(),
        ps_wf(a),
        ps_wf(b),
    ensures
        ps_intersect(a, b) == ps_intersect(b, a),
{
    assert forall|k: int| 0 <= k < a.len() implies #[trigger] merge_entry(a[k], b[k])
        == merge_entry(b[k], a[k]) by {
        match (a[k], b[k]) {
            (Some(s), Some(t)) => {
                lemma_intersect_seq_comm(s, t);
            },
            _ => {},
        }
    }
    if exists|k: int|
        0 <= k < a.len() && ((#[trigger] merge_entry(a[k], b[k])) matches Some(s) && s.len()
            == 0) {
        let k = choose|k: int|
            0 <= k < a.len() && ((#[trigger] merge_entry(a[k], b[k])) matches Some(s) && s.len()
                == 0);
        assert(merge_entry(b[k], a[k]) matches Some(s) && s.len() == 0);
    } else {
        assert forall|k: int|
            0 <= k < b.len() implies !((#[trigger] merge_entry(b[k], a[k])) matches Some(s)
            && s.len() == 0) by {
            assert(merge_entry(b[k], a[k]) == merge_entry(a[k], b[k]));
        }
        if forall|k: int| 0 <= k < a.len() ==> #[trigger] merge_entry(a[k], b[k]) is None {
            assert forall|k: int| 0 <= k < b.len() implies #[trigger] merge_entry(
                b[k],
                a[k],
            ) is None by {
                assert(merge_entry(a[k], b[k]) is None);
            }
        } else {
            let k = choose|k: int| 0 <= k < a.len() && !(#[trigger] merge_entry(a[k], b[k]) is None);
            assert(!(merge_entry(b[k], a[k]) is None));
            assert(!(forall|m: int| 0 <= m < b.len() ==> #[trigger] merge_entry(b[m], a[m]) is None));
            assert(Seq::new(a.len(), |m: int| merge_entry(a[m], b[m])) =~= Seq::new(
                b.len(),
                |m: int| merge_entry(b[m], a[m]),
            ));
        }
    }
}

} // verus!
