//! Sorted sets of word identifiers, and the index that answers "which words
//! have this letter at this position" for every word length.

use vstd::prelude::*;
use crate::vocabulary::{Char, Position, Vocabulary, WordId, group_matches, ids_of_len, is_lower,
    lemma_ids_of_len, lower_word};

verus! {

/// Holds when `s` is strictly ascending, so a set with no duplicates.
pub open spec fn strictly_sorted(s: Seq<int>) -> bool {
    forall|i: int, j: int| 0 <= i < j < s.len() ==> s[i] < s[j]
}

/// Two strictly ascending sequences with the same members are equal.
pub proof fn lemma_sorted_unique(a: Seq<int>, b: Seq<int>)
    requires
        strictly_sorted(a),
        strictly_sorted(b),
        forall|x: int| a.contains(x) <==> b.contains(x),
    ensures
        a =~= b,
    decreases a.len(),
{
    if a.len() == 0 {
        if b.len() > 0 {
            assert(b.contains(b[0]));
        }
    } else if b.len() == 0 {
        assert(a.contains(a[0]));
    } else {
        assert(a.contains(a[0]));
        assert(b.contains(b[0]));
        let ia = choose|i: int| 0 <= i < a.len() && a[i] == b[0];
        let ib = choose|i: int| 0 <= i < b.len() && b[i] == a[0];
        assert(a[0] <= a[ia]);
        assert(b[0] <= b[ib]);
        assert(a[0] == b[0]);
        let at = a.drop_first();
        let bt = b.drop_first();
        assert forall|x: int| at.contains(x) <==> bt.contains(x) by {
            lemma_tail_contains(a, x);
            lemma_tail_contains(b, x);
        }
        lemma_sorted_unique(at, bt);
        assert(a.len() == b.len());
        assert forall|i: int| 0 <= i < a.len() implies a[i] == b[i] by {
            if i > 0 {
                assert(at[i - 1] == bt[i - 1]);
            }
        }
    }
}

/// For a strictly ascending sequence, membership in the tail is membership
/// in the whole at a positive index, which excludes the head.
proof fn lemma_tail_contains(s: Seq<int>, x: int)
    requires
        strictly_sorted(s),
        s.len() > 0,
    ensures
        s.drop_first().contains(x) <==> s.contains(x) && x != s[0],
{
    let t = s.drop_first();
    if t.contains(x) {
        let i = choose|i: int| 0 <= i < t.len() && t[i] == x;
        assert(s[i + 1] == x);
        assert(s.contains(x));
        assert(s[0] < s[i + 1]);
    }
    if s.contains(x) && x != s[0] {
        let i = choose|i: int| 0 <= i < s.len() && s[i] == x;
        assert(t[i - 1] == x);
        assert(t.contains(x));
    }
}

/// Membership in a sequence extended by one element.
pub proof fn lemma_push_contains(s: Seq<int>, v: int, x: int)
    ensures
        s.push(v).contains(x) <==> s.contains(x) || x == v,
{
    if s.push(v).contains(x) {
        let i = choose|i: int| 0 <= i < s.push(v).len() && s.push(v)[i] == x;
        if i < s.len() {
            assert(s[i] == x);
        }
    }
    if s.contains(x) {
        let i = choose|i: int| 0 <= i < s.len() && s[i] == x;
        assert(s.push(v)[i] == x);
    }
    if x == v {
        assert(s.push(v)[s.len() as int] == x);
    }
}

/// Membership in a prefix lengthened by one element.
pub proof fn lemma_take_contains(s: Seq<int>, k: int, x: int)
    requires
        0 <= k < s.len(),
    ensures
        s.take(k + 1).contains(x) <==> s.take(k).contains(x) || x == s[k],
{
    assert(s.take(k + 1) =~= s.take(k).push(s[k]));
    lemma_push_contains(s.take(k), s[k], x);
}

/// In a strictly ascending sequence, every member of the prefix `take(k)`
/// lies strictly below `s[k]`.
pub proof fn lemma_take_bound(s: Seq<int>, k: int, x: int)
    requires
        strictly_sorted(s),
        0 <= k < s.len(),
        s.take(k).contains(x),
    ensures
        x < s[k],
{
    let i = choose|i: int| 0 <= i < s.take(k).len() && s.take(k)[i] == x;
    assert(s[i] == x);
}

/// The identifier values of a list of `WordId`s, as mathematical integers.
pub open spec fn ids_view(v: Seq<WordId>) -> Seq<int> {
    v.map_values(|w: WordId| w.0 as int)
}

/// A sorted set of word identifiers. Built once, then only read or
/// intersected; strictly ascending order is what makes the linear
/// intersection below correct.
pub struct Words {
    words: Vec<WordId>,
}

impl View for Words {
    type V = Seq<int>;

    closed spec fn view(&self) -> Seq<int> {
        ids_view(self.words@)
    }
}

impl Clone for Words {
    /// Cloning keeps the identifiers.
    fn clone(&self) -> (r: Words)
        ensures
            r@ == self@,
    {
        let mut copy: Vec<WordId> = Vec::new();
        let mut i: usize = 0;
        while i < self.words.len()
            invariant
                i <= self.words@.len(),
                copy@ == self.words@.take(i as int),
            decreases self.words@.len() - i,
        {
            copy.push(self.words[i]);
            i = i + 1;
        }
        proof {
            assert(copy@ =~= self.words@);
        }
        Words { words: copy }
    }
}

impl Words {
    /// The sortedness every `Words` value is built with.
    pub open spec fn wf(&self) -> bool {
        strictly_sorted(self@)
    }

    /// Wraps an already strictly ascending list of identifiers.
    pub fn from_sorted(ids: Vec<WordId>) -> (r: Words)
        requires
            strictly_sorted(ids_view(ids@)),
        ensures
            r@ == ids_view(ids@),
            r.wf(),
    {
        Words { words: ids }
    }

    /// True when no identifiers are held.
    pub fn is_empty(&self) -> (r: bool)
        ensures
            r == (self@.len() == 0),
    {
        self.words.len() == 0
    }

    /// The number of identifiers held.
    pub fn len(&self) -> (r: usize)
        ensures
            r == self@.len(),
    {
        self.words.len()
    }

    /// The identifiers, in ascending order.
    pub fn ids(&self) -> (r: &[WordId])
        ensures
            ids_view(r@) == self@,
    {
        self.words.as_slice()
    }

    /// Intersects two sorted sets by a linear two-pointer merge. Returns the
    /// sorted set holding exactly the identifiers common to both, or nothing
    /// when no identifier is common.
    pub fn intersection(&self, other: &Words) -> (r: Option<Words>)
        requires
            self.wf(),
            other.wf(),
        ensures
            match r {
                Some(w) => {
                    &&& w.wf()
                    &&& w@.len() > 0
                    &&& forall|x: int|
                        #[trigger] w@.contains(x) <==> self@.contains(x) && other@.contains(x)
                },
                None => forall|x: int| #[trigger] self@.contains(x) ==> !other@.contains(x),
            },
    {
        let ghost a = self@;
        let ghost b = other@;
        let mut result: Vec<WordId> = Vec::new();
        let ghost mut rv = ids_view(result@);
        let mut i: usize = 0;
        let mut j: usize = 0;
        while i < self.words.len() && j < other.words.len()
            invariant
                a == self@,
                b == other@,
                strictly_sorted(a),
                strictly_sorted(b),
                i <= a.len(),
                j <= b.len(),
                rv == ids_view(result@),
                strictly_sorted(rv),
                forall|x: int|
                    #[trigger] rv.contains(x) <==> a.take(i as int).contains(x) && b.contains(x),
                forall|x: int|
                    #[trigger] rv.contains(x) <==> a.contains(x) && b.take(j as int).contains(x),
            decreases a.len() - i + b.len() - j,
        {
            let x = self.words[i];
            let y = other.words[j];
            assert(x.0 as int == a[i as int] && y.0 as int == b[j as int]);
            if x.0 < y.0 {
                proof {
                    let xi = a[i as int];
                    assert forall|z: int| #[trigger] a.take(i + 1).contains(z) && b.contains(z)
                        implies rv.contains(z) by {
                        lemma_take_contains(a, i as int, z);
                        if z == xi {
                            let m = choose|m: int| 0 <= m < b.len() && b[m] == z;
                            if m < j {
                                assert(b.take(j as int)[m] == z);
                                assert(b.take(j as int).contains(z));
                                assert(rv.contains(z));
                                lemma_take_bound(a, i as int, z);
                            } else {
                                assert(b[j as int] <= b[m]);
                            }
                        }
                    }
                    assert forall|z: int| #[trigger] rv.contains(z) implies a.take(i + 1).contains(
                        z,
                    ) && b.contains(z) by {
                        lemma_take_contains(a, i as int, z);
                    }
                }
                i = i + 1;
            } else if y.0 < x.0 {
                proof {
                    let yj = b[j as int];
                    assert forall|z: int| a.contains(z) && #[trigger] b.take(j + 1).contains(z)
                        implies rv.contains(z) by {
                        lemma_take_contains(b, j as int, z);
                        if z == yj {
                            let m = choose|m: int| 0 <= m < a.len() && a[m] == z;
                            if m < i {
                                assert(a.take(i as int)[m] == z);
                                assert(a.take(i as int).contains(z));
                                assert(rv.contains(z));
                                lemma_take_bound(b, j as int, z);
                            } else {
                                assert(a[i as int] <= a[m]);
                            }
                        }
                    }
                    assert forall|z: int| #[trigger] rv.contains(z) implies a.contains(z) && b.take(
                        j + 1,
                    ).contains(z) by {
                        lemma_take_contains(b, j as int, z);
                    }
                }
                j = j + 1;
            } else {
                let ghost rv_old = rv;
                result.push(x);
                proof {
                    rv = ids_view(result@);
                    assert(rv =~= rv_old.push(x.0 as int));
                    let xi = a[i as int];
                    assert forall|z: int| #[trigger] rv_old.contains(z) implies z < xi by {
                        lemma_take_bound(a, i as int, z);
                    }
                    assert forall|k1: int, k2: int| 0 <= k1 < k2 < rv.len() implies rv[k1]
                        < rv[k2] by {
                        if k2 < rv_old.len() {
                        } else {
                            assert(rv[k2] == xi);
                            assert(rv_old.contains(rv_old[k1]));
                        }
                    }
                    assert forall|z: int| #[trigger] rv.contains(z) implies (a.take(
                        i + 1,
                    ).contains(z) && b.contains(z)) && (a.contains(z) && b.take(j + 1).contains(
                        z,
                    )) by {
                        lemma_push_contains(rv_old, xi, z);
                        lemma_take_contains(a, i as int, z);
                        lemma_take_contains(b, j as int, z);
                        if z == xi {
                            assert(a.take(i + 1)[i as int] == xi);
                            assert(a.take(i + 1).contains(xi));
                            assert(a[i as int] == xi);
                            assert(a.contains(xi));
                            assert(b.take(j + 1)[j as int] == xi);
                            assert(b.take(j + 1).contains(xi));
                            assert(b[j as int] == xi);
                            assert(b.contains(xi));
                        }
                    }
                    assert forall|z: int| a.take(i + 1).contains(z) && #[trigger] b.contains(z)
                        implies rv.contains(z) by {
                        lemma_push_contains(rv_old, xi, z);
                        lemma_take_contains(a, i as int, z);
                    }
                    assert forall|z: int| a.contains(z) && #[trigger] b.take(j + 1).contains(z)
                        implies rv.contains(z) by {
                        lemma_push_contains(rv_old, xi, z);
                        lemma_take_contains(b, j as int, z);
                    }
                }
                i = i + 1;
                j = j + 1;
            }
        }
        proof {
            if i == a.len() {
                assert(a.take(i as int) =~= a);
            } else {
                assert(b.take(j as int) =~= b);
            }
            assert(forall|x: int| #[trigger] rv.contains(x) <==> a.contains(x) && b.contains(x));
            assert(rv == ids_view(result@));
        }
        if result.len() == 0 {
            proof {
                assert forall|x: int| #[trigger] a.contains(x) implies !b.contains(x) by {
                    assert(!rv.contains(x));
                }
            }
            None
        } else {
            Some(Words { words: result })
        }
    }

    /// Replaces the held set with its intersection with `other`, leaving it
    /// empty when no identifier is common.
    pub fn intersect_with(&mut self, other: &Words)
        requires
            old(self).wf(),
            other.wf(),
        ensures
            final(self).wf(),
            forall|x: int|
                #[trigger] final(self)@.contains(x) <==> old(self)@.contains(x) && other@.contains(
                    x,
                ),
    {
        match self.intersection(other) {
            Some(w) => {
                *self = w;
            },
            None => {
                self.words = Vec::new();
                proof {
                    assert(self@ =~= Seq::<int>::empty());
                }
            },
        }
    }
}

} // verus!

verus! {

/// Word `x` of `voc` has length `len` and carries `letter` at position `pos`.
pub open spec fn word_has(voc: Seq<Seq<char>>, x: int, len: int, letter: u8, pos: int) -> bool {
    &&& 0 <= x < voc.len()
    &&& voc[x].len() == len
    &&& 0 <= pos < len
    &&& voc[x][pos] == letter as char
}

/// A bucket is correct for `(len, letter, pos)` when it is sorted and holds
/// exactly the identifiers of the words with `letter` at `pos` among the
/// words of length `len`.
pub open spec fn bucket_ok(voc: Seq<Seq<char>>, len: int, letter: u8, pos: int, b: Seq<int>) -> bool {
    &&& strictly_sorted(b)
    &&& forall|x: int| #[trigger] b.contains(x) <==> word_has(voc, x, len, letter, pos)
}

/// The bucket stored in `m` for relative letter `c` at position `p`, when
/// the buckets are laid out letter-major for words of length `wl`.
pub open spec fn bucket_in(m: Seq<Words>, wl: int, c: int, p: int) -> Seq<int> {
    (m[c * wl + p])@
}

/// A lookup key: which letter at which position within the word.
#[derive(Clone, Copy, PartialEq, Eq, Structural, Hash)]
pub struct Key {
    letter: Char,
    position: Position,
}

impl Key {
    /// Pairs a letter with a position.
    fn new(ch: Char, position: Position) -> (r: Key)
        ensures
            r.letter == ch,
            r.position == position,
    {
        Key { letter: ch, position }
    }
}

/// The per-length part of the index: one sorted bucket for every
/// (letter, position) pair, stored letter-major.
struct Index {
    word_length: u8,
    map: Vec<Words>,
}

impl Index {
    /// The word length this part answers for.
    spec fn wl(&self) -> int {
        self.word_length as int
    }

    /// The bucket for relative letter `c` (0 for `a`) at position `p`.
    spec fn bucket(&self, c: int, p: int) -> Seq<int> {
        bucket_in(self.map@, self.wl(), c, p)
    }

    /// All buckets are present and correct for the vocabulary `voc`.
    spec fn wf(&self, voc: Seq<Seq<char>>) -> bool {
        &&& self.map@.len() == 26 * self.wl()
        &&& forall|c: int, p: int|
            0 <= c < 26 && 0 <= p < self.wl() ==> bucket_ok(
                voc,
                self.wl(),
                (c + 97) as u8,
                p,
                #[trigger] self.bucket(c, p),
            )
    }

    /// An index for words of length `word_length`, with no buckets yet.
    fn new(word_length: u8) -> (r: Index)
        ensures
            r.word_length == word_length,
            r.map@.len() == 0,
    {
        Index { word_length, map: Vec::new() }
    }

    /// Appends the next bucket in letter-major order.
    fn push_bucket(&mut self, bucket: Words)
        ensures
            final(self).word_length == old(self).word_length,
            final(self).map@ == old(self).map@.push(bucket),
    {
        self.map.push(bucket);
    }

    /// Returns a copy of the non-empty bucket for `key`, or nothing when no
    /// word of this length has that letter at that position.
    fn get(&self, key: Key) -> (r: Option<Words>)
        requires
            self.map@.len() == 26 * self.wl(),
            key.position.0 < self.word_length,
        ensures
            match r {
                Some(w) => {
                    &&& 97 <= key.letter.0 <= 122
                    &&& w@ == self.bucket(key.letter.0 - 97, key.position.0 as int)
                    &&& w@.len() > 0
                },
                None => 97 <= key.letter.0 <= 122 ==> self.bucket(
                    key.letter.0 - 97,
                    key.position.0 as int,
                ).len() == 0,
            },
    {
        if key.letter.0 < 97 || key.letter.0 > 122 {
            return None;
        }
        let c = (key.letter.0 - 97) as usize;
        proof {
            assert(c * (self.word_length as int) + (key.position.0 as int) < 26 * (
            self.word_length as int)) by (nonlinear_arith)
                requires
                    c <= 25,
                    0 <= key.position.0 < self.word_length,
            ;
        }
        let flat = c * (self.word_length as usize) + (key.position.0 as usize);
        let bucket = &self.map[flat];
        if bucket.is_empty() {
            None
        } else {
            Some(bucket.clone())
        }
    }
}

} // verus!

verus! {

/// Flat slots are within bounds and name each (letter, position) pair once.
proof fn lemma_flat_slot(wl: int, c1: int, p1: int, c2: int, p2: int)
    requires
        0 <= c1 < 26,
        0 <= p1 < wl,
        0 <= c2 < 26,
        0 <= p2 < wl,
    ensures
        0 <= c1 * wl + p1 < 26 * wl,
        c1 * wl + p1 == c2 * wl + p2 ==> c1 == c2 && p1 == p2,
{
    assert(0 <= c1 * wl + p1 < 26 * wl && (c1 * wl + p1 == c2 * wl + p2 ==> c1 == c2 && p1 == p2))
        by (nonlinear_arith)
        requires
            0 <= c1 < 26,
            0 <= p1 < wl,
            0 <= c2 < 26,
            0 <= p2 < wl,
    ;
}

/// For every word length, the sorted set of word identifiers with a given
/// letter at a given position. The three-level (length, letter, position)
/// key is what the solver queries for each cipher character.
pub struct VocabularyIndex {
    indexes: Vec<Index>,
    vocab: Ghost<Seq<Seq<char>>>,
}

impl VocabularyIndex {
    /// The vocabulary this index was built from, as character sequences.
    pub closed spec fn vocab(&self) -> Seq<Seq<char>> {
        self.vocab@
    }

    #[verifier::type_invariant]
    spec fn inv(&self) -> bool {
        &&& self.indexes@.len() <= 256
        &&& forall|w: int|
            0 <= w < self.vocab@.len() ==> (#[trigger] self.vocab@[w]).len() < self.indexes@.len()
        &&& forall|w: int| 0 <= w < self.vocab@.len() ==> lower_word(#[trigger] self.vocab@[w])
        &&& forall|l: int|
            0 <= l < self.indexes@.len() ==> (#[trigger] self.indexes@[l]).wl() == l
                && self.indexes@[l].wf(self.vocab@)
    }

    /// Builds the index: for every word length up to the longest word, every
    /// (letter, position) bucket lists, in ascending order, the identifiers
    /// of the words with that letter at that position.
    pub fn new(vocabulary: &Vocabulary) -> (r: VocabularyIndex)
        requires
            forall|i: int|
                0 <= i < vocabulary.words().len() ==> (#[trigger] vocabulary.words()[i]).len()
                    < 256,
        ensures
            r.vocab() == vocabulary.words(),
    {
        let ghost voc = vocabulary.words();
        let by_length = vocabulary.by_length();
        proof {
            if by_length@.len() > 0 {
                let i = choose|i: int|
                    0 <= i < voc.len() && (#[trigger] voc[i]).len() + 1 == by_length@.len();
                assert(voc[i].len() < 256);
            }
        }
        let mut indexes: Vec<Index> = Vec::new();
        let mut words_len: usize = 0;
        while words_len < by_length.len()
            invariant
                words_len == indexes@.len(),
                words_len <= by_length@.len(),
                by_length@.len() <= 256,
                forall|l: int|
                    0 <= l < by_length@.len() ==> group_matches(voc, l, (#[trigger] by_length@[l])@),
                forall|i: int| 0 <= i < voc.len() ==> lower_word(#[trigger] voc[i]),
                forall|l: int|
                    0 <= l < words_len ==> (#[trigger] indexes@[l]).wl() == l && indexes@[l].wf(
                        voc,
                    ),
            decreases by_length@.len() - words_len,
        {
            let group = &by_length[words_len];
            let ghost gids = ids_of_len(voc, words_len as int);
            let ghost wl = words_len as int;
            proof {
                lemma_ids_of_len(voc, wl);
                assert(group@.map_values(|p: (WordId, String)| p.0.0 as int) == gids);
                assert(group@.len() == gids.len());
            }
            let mut idx = Index::new(words_len as u8);
            let mut ci: usize = 0;
            while ci < 26
                invariant
                    ci <= 26,
                    words_len < by_length@.len() <= 256,
                    wl == words_len as int,
                    gids == ids_of_len(voc, wl),
                    group@.map_values(|p: (WordId, String)| p.0.0 as int) == gids,
                    forall|k: int| 0 <= k < group@.len() ==> (#[trigger] group@[k]).1@ == voc[group@[k].0.0 as int],
                    forall|i: int| 0 <= i < voc.len() ==> lower_word(#[trigger] voc[i]),
                    idx.word_length == words_len as u8,
                    idx.map@.len() == ci * wl,
                    forall|c: int, p: int|
                        0 <= c < 26 && 0 <= p < wl && c * wl + p < idx.map@.len() ==> bucket_ok(
                            voc,
                            wl,
                            (c + 97) as u8,
                            p,
                            #[trigger] bucket_in(idx.map@, wl, c, p),
                        ),
                decreases 26 - ci,
            {
                let mut p: usize = 0;
                while p < words_len
                    invariant
                        ci < 26,
                        p <= words_len,
                        words_len < by_length@.len() <= 256,
                        wl == words_len as int,
                        gids == ids_of_len(voc, wl),
                        group@.map_values(|p: (WordId, String)| p.0.0 as int) == gids,
                        forall|k: int| 0 <= k < group@.len() ==> (#[trigger] group@[k]).1@ == voc[group@[k].0.0 as int],
                        forall|i: int| 0 <= i < voc.len() ==> lower_word(#[trigger] voc[i]),
                        idx.word_length == words_len as u8,
                        idx.map@.len() == ci * wl + p,
                        forall|c: int, q: int|
                            0 <= c < 26 && 0 <= q < wl && c * wl + q < idx.map@.len() ==> bucket_ok(
                                voc,
                                wl,
                                (c + 97) as u8,
                                q,
                                #[trigger] bucket_in(idx.map@, wl, c, q),
                            ),
                    decreases words_len - p,
                {
                    let letter: u8 = (ci as u8) + 97;
                    proof {
                        lemma_ids_of_len(voc, wl);
                    }
                    let mut bucket_ids: Vec<WordId> = Vec::new();
                    let mut k: usize = 0;
                    while k < group.len()
                        invariant
                            k <= group@.len(),
                            ci < 26,
                            p < words_len,
                            wl == words_len as int,
                            letter == ci + 97,
                            gids == ids_of_len(voc, wl),
                            group@.map_values(|p: (WordId, String)| p.0.0 as int) == gids,
                            forall|k: int| 0 <= k < group@.len() ==> (#[trigger] group@[k]).1@ == voc[group@[k].0.0 as int],
                            forall|i: int| 0 <= i < voc.len() ==> lower_word(#[trigger] voc[i]),
                            forall|j1: int, j2: int|
                                0 <= j1 < j2 < gids.len() ==> gids[j1] < gids[j2],
                            forall|j: int|
                                0 <= j < gids.len() ==> 0 <= #[trigger] gids[j] < voc.len()
                                    && voc[gids[j]].len() == wl,
                            strictly_sorted(ids_view(bucket_ids@)),
                            forall|x: int|
                                #[trigger] ids_view(bucket_ids@).contains(x) <==> gids.take(
                                    k as int,
                                ).contains(x) && voc[x][p as int] == letter as char,
                        decreases group@.len() - k,
                    {
                        let ghost bv = ids_view(bucket_ids@);
                        let pair = &group[k];
                        proof {
                            assert(group@.map_values(|p: (WordId, String)| p.0.0 as int)[k as int]
                                == gids[k as int]);
                            assert(pair.0.0 as int == gids[k as int]);
                            assert(pair.1@ == voc[gids[k as int]]);
                            assert(voc[gids[k as int]].len() == wl);
                            assert(lower_word(voc[gids[k as int]]));
                            assert(is_lower(voc[gids[k as int]][p as int]));
                        }
                        let c = pair.1.as_str().get_char(p);
                        if c as u8 == letter {
                            proof {
                                assert('a' <= c && c <= 'z');
                                assert(c as u8 as char == c);
                                assert(c == letter as char);
                                assert forall|x: int| #[trigger] bv.contains(x) implies x
                                    < gids[k as int] by {
                                    lemma_take_bound(gids, k as int, x);
                                }
                            }
                            bucket_ids.push(pair.0);
                            proof {
                                let bv2 = ids_view(bucket_ids@);
                                assert(bv2 =~= bv.push(gids[k as int]));
                                assert forall|i1: int, i2: int| 0 <= i1 < i2 < bv2.len() implies
                                    bv2[i1] < bv2[i2] by {
                                    if i2 == bv2.len() - 1 {
                                        assert(bv.contains(bv[i1]));
                                    }
                                }
                                assert forall|x: int| #[trigger] ids_view(
                                    bucket_ids@,
                                ).contains(x) <==> (gids.take(k + 1).contains(x) && voc[x][p as int]
                                    == letter as char) by {
                                    lemma_push_contains(bv, gids[k as int], x);
                                    lemma_take_contains(gids, k as int, x);
                                }
                            }
                        } else {
                            proof {
                                assert('a' <= c && c <= 'z');
                                assert(c as u8 as char == c);
                                assert(c != letter as char);
                                assert forall|x: int| #[trigger] ids_view(
                                    bucket_ids@,
                                ).contains(x) <==> (gids.take(k + 1).contains(x) && voc[x][p as int]
                                    == letter as char) by {
                                    lemma_take_contains(gids, k as int, x);
                                    if x == gids[k as int] {
                                        assert(voc[x][p as int] == c);
                                    }
                                }
                            }
                        }
                        k = k + 1;
                    }
                    let ghost old_map = idx.map@;
                    let ghost bv = ids_view(bucket_ids@);
                    idx.push_bucket(Words::from_sorted(bucket_ids));
                    proof {
                        assert(gids.take(gids.len() as int) =~= gids);
                        assert forall|x: int| #[trigger] bv.contains(x) <==> word_has(
                            voc,
                            x,
                            wl,
                            letter,
                            p as int,
                        ) by {
                            if 0 <= x < voc.len() && voc[x].len() == wl {
                                assert(gids.contains(x));
                            }
                            if gids.contains(x) {
                                let j = choose|j: int| 0 <= j < gids.len() && gids[j] == x;
                            }
                        }
                        assert(bucket_in(idx.map@, wl, ci as int, p as int) == bv);
                        assert forall|c: int, q: int|
                            0 <= c < 26 && 0 <= q < wl && c * wl + q < idx.map@.len()
                            implies bucket_ok(
                            voc,
                            wl,
                            (c + 97) as u8,
                            q,
                            #[trigger] bucket_in(idx.map@, wl, c, q),
                        ) by {
                            lemma_flat_slot(wl, c, q, ci as int, p as int);
                            if c * wl + q < old_map.len() {
                                assert(bucket_in(idx.map@, wl, c, q) == bucket_in(
                                    old_map,
                                    wl,
                                    c,
                                    q,
                                ));
                            } else {
                                assert(c == ci as int && q == p as int);
                                assert(bucket_in(idx.map@, wl, c, q) == bv);
                            }
                        }
                    }
                    p = p + 1;
                }
                proof {
                    assert(ci * wl + wl == (ci + 1) * wl) by (nonlinear_arith);
                }
                ci = ci + 1;
            }
            proof {
                assert(idx.map@.len() == 26 * wl);
                assert forall|c: int, q: int| 0 <= c < 26 && 0 <= q < wl implies bucket_ok(
                    voc,
                    wl,
                    (c + 97) as u8,
                    q,
                    #[trigger] idx.bucket(c, q),
                ) by {
                    lemma_flat_slot(wl, c, q, c, q);
                    assert(bucket_ok(voc, wl, (c + 97) as u8, q, bucket_in(idx.map@, wl, c, q)));
                }
                assert(idx.wf(voc));
            }
            indexes.push(idx);
            words_len = words_len + 1;
        }
        proof {
            assert forall|w: int| 0 <= w < voc.len() implies (#[trigger] voc[w]).len()
                < indexes@.len() by {}
        }
        VocabularyIndex { indexes, vocab: Ghost(voc) }
    }

    /// Looks up the sorted bucket for `(word_length, ch, position)`: a copy
    /// of the non-empty set of identifiers of the words of that length with
    /// that letter at that position, or nothing when there is no such word.
    pub fn get(&self, word_length: u8, ch: Char, position: Position) -> (r: Option<Words>)
        requires
            position.0 < word_length,
        ensures
            match r {
                Some(w) => {
                    &&& w.wf()
                    &&& w@.len() > 0
                    &&& forall|x: int|
                        #[trigger] w@.contains(x) <==> word_has(
                            self.vocab(),
                            x,
                            word_length as int,
                            ch.0,
                            position.0 as int,
                        )
                },
                None => forall|x: int|
                    !word_has(self.vocab(), x, word_length as int, ch.0, position.0 as int),
            },
    {
        proof {
            use_type_invariant(self);
        }
        let ghost voc = self.vocab@;
        if (word_length as usize) < self.indexes.len() {
            let idx = &self.indexes[word_length as usize];
            let r = idx.get(Key::new(ch, position));
            proof {
                match &r {
                    Some(w) => {
                        assert(idx.bucket(ch.0 - 97, position.0 as int) == w@);
                        assert(bucket_ok(voc, word_length as int, ch.0, position.0 as int, w@));
                    },
                    None => {
                        assert forall|x: int|
                            !word_has(voc, x, word_length as int, ch.0, position.0 as int) by {
                            if word_has(voc, x, word_length as int, ch.0, position.0 as int) {
                                let c = voc[x][position.0 as int];
                                assert(is_lower(c));
                                assert(c == ch.0 as char);
                                if 97 <= ch.0 <= 122 {
                                    let b = idx.bucket(ch.0 - 97, position.0 as int);
                                    assert(bucket_ok(
                                        voc,
                                        word_length as int,
                                        ch.0,
                                        position.0 as int,
                                        b,
                                    ));
                                    assert(b.contains(x));
                                } else {
                                    assert('a' as u8 == 97 && 'z' as u8 == 122);
                                    assert(97 <= c as u8 <= 122);
                                    assert(c as u8 == ch.0);
                                }
                            }
                        }
                    },
                }
            }
            r
        } else {
            proof {
                assert forall|x: int|
                    !word_has(voc, x, word_length as int, ch.0, position.0 as int) by {}
            }
            None
        }
    }
}

} // verus!

verus! {

/// Membership in a sequence extended by one element, for any element type.
pub proof fn lemma_contains_push_any<T>(s: Seq<T>, v: T)
    ensures
        forall|x: T| #[trigger] s.push(v).contains(x) <==> s.contains(x) || x == v,
{
    assert forall|x: T| #[trigger] s.push(v).contains(x) implies s.contains(x) || x == v by {
        let m = choose|m: int| 0 <= m < s.push(v).len() && s.push(v)[m] == x;
        if m < s.len() {
            assert(s[m] == x);
        }
    }
    assert forall|x: T| s.contains(x) implies #[trigger] s.push(v).contains(x) by {
        let m = choose|m: int| 0 <= m < s.len() && s[m] == x;
        assert(s.push(v)[m] == x);
    }
    assert(s.push(v)[s.len() as int] == v);
    assert(s.push(v).contains(v));
}

/// Membership in a prefix lengthened by one element, for any element type.
pub proof fn lemma_contains_take_any<T>(s: Seq<T>, k: int)
    requires
        0 <= k < s.len(),
    ensures
        forall|x: T| #[trigger] s.take(k + 1).contains(x) <==> s.take(k).contains(x) || x == s[k],
{
    assert(s.take(k + 1) =~= s.take(k).push(s[k]));
    lemma_contains_push_any(s.take(k), s[k]);
    assert forall|x: T| #[trigger] s.take(k + 1).contains(x) <==> s.take(k).contains(x) || x
        == s[k] by {
        assert(s.take(k + 1).contains(x) == s.take(k).push(s[k]).contains(x));
    }
}

} // verus!

