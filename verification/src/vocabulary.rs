//! The closed list of candidate plaintext words, grouped by word length.

use vstd::prelude::*;

verus! {

/// One lowercase letter, stored as its byte value (`b'a'..=b'z'`).
#[derive(Clone, Copy, PartialEq, Eq, Structural, Hash, Debug)]
pub struct Char(pub u8);

/// A zero-based letter index within a word.
#[derive(Clone, Copy, PartialEq, Eq, Structural, Hash, Debug)]
pub struct Position(pub u8);

/// The stable index of a word in the vocabulary it was loaded into.
#[derive(Clone, Copy, PartialEq, Eq, Structural, Hash, Debug, PartialOrd, Ord)]
pub struct WordId(pub usize);

/// Holds when `c` is one of the lowercase letters `a`..=`z`.
pub open spec fn is_lower(c: char) -> bool {
    'a' <= c && c <= 'z'
}

/// Holds when every character of `w` is a lowercase letter.
pub open spec fn lower_word(w: Seq<char>) -> bool {
    forall|i: int| 0 <= i < w.len() ==> is_lower(#[trigger] w[i])
}

/// The identifiers of the words of `voc` whose length is `len`,
/// in ascending order.
pub open spec fn ids_of_len(voc: Seq<Seq<char>>, len: int) -> Seq<int>
    decreases voc.len(),
{
    if voc.len() == 0 {
        Seq::empty()
    } else {
        ids_of_len(voc.drop_last(), len) + if voc.last().len() == len {
            seq![voc.len() - 1]
        } else {
            Seq::empty()
        }
    }
}

/// `ids_of_len` lists, in strictly ascending order, exactly the identifiers
/// of the words of length `len`.
pub proof fn lemma_ids_of_len(voc: Seq<Seq<char>>, len: int)
    ensures
        forall|k: int|
            0 <= k < ids_of_len(voc, len).len() ==> 0 <= #[trigger] ids_of_len(voc, len)[k]
                < voc.len() && voc[ids_of_len(voc, len)[k]].len() == len,
        forall|k1: int, k2: int|
            0 <= k1 < k2 < ids_of_len(voc, len).len() ==> ids_of_len(voc, len)[k1] < ids_of_len(
                voc,
                len,
            )[k2],
        forall|x: int|
            0 <= x < voc.len() && voc[x].len() == len ==> #[trigger] ids_of_len(voc, len).contains(
                x,
            ),
    decreases voc.len(),
{
    if voc.len() > 0 {
        let pre = ids_of_len(voc.drop_last(), len);
        let whole = ids_of_len(voc, len);
        lemma_ids_of_len(voc.drop_last(), len);
        assert(forall|x: int|
            0 <= x < voc.len() - 1 ==> voc.drop_last()[x] == #[trigger] voc[x]);
        assert forall|x: int| 0 <= x < voc.len() && voc[x].len() == len implies #[trigger] whole
            .contains(x) by {
            if x < voc.len() - 1 {
                assert(pre.contains(x));
                let i = choose|i: int| 0 <= i < pre.len() && pre[i] == x;
                assert(whole[i] == x);
            } else {
                assert(whole[whole.len() - 1] == x);
            }
        }
    }
}

/// A sequence with no members is empty.
pub proof fn lemma_no_ids(voc: Seq<Seq<char>>, len: int)
    requires
        forall|i: int| 0 <= i < voc.len() ==> (#[trigger] voc[i]).len() != len,
    ensures
        ids_of_len(voc, len) =~= Seq::<int>::empty(),
{
    lemma_ids_of_len(voc, len);
    if ids_of_len(voc, len).len() > 0 {
        assert(voc[ids_of_len(voc, len)[0]].len() == len);
    }
}

/// The grouping of `voc` by length lists, under index `len`, exactly the
/// identifiers of the words of that length, each beside its text.
pub open spec fn group_matches(voc: Seq<Seq<char>>, len: int, g: Seq<(WordId, String)>) -> bool {
    &&& g.map_values(|p: (WordId, String)| p.0.0 as int) == ids_of_len(voc, len)
    &&& forall|k: int| 0 <= k < g.len() ==> (#[trigger] g[k]).1@ == voc[g[k].0.0 as int]
}

/// The candidate plaintext words. Each word's position in the loaded list is
/// its `WordId`; a grouping by length keeps, for every length up to the
/// longest word, the `(WordId, text)` pairs of that length.
pub struct Vocabulary {
    all: Vec<String>,
    by_length: Vec<Vec<(WordId, String)>>,
}

impl Vocabulary {
    /// The words held, as character sequences, in loading order.
    pub closed spec fn words(&self) -> Seq<Seq<char>> {
        self.all@.map_values(|s: String| s@)
    }

    #[verifier::type_invariant]
    spec fn inv(&self) -> bool {
        &&& forall|i: int| 0 <= i < self.words().len() ==> lower_word(#[trigger] self.words()[i])
        &&& forall|i: int|
            0 <= i < self.words().len() ==> (#[trigger] self.words()[i]).len()
                < self.by_length@.len()
        &&& self.by_length@.len() > 0 ==> exists|i: int|
            0 <= i < self.words().len() && (#[trigger] self.words()[i]).len() + 1
                == self.by_length@.len()
        &&& forall|l: int|
            0 <= l < self.by_length@.len() ==> group_matches(
                self.words(),
                l,
                (#[trigger] self.by_length@[l])@,
            )
    }

    /// Builds a vocabulary from an ordered list of words; each word's index
    /// becomes its identifier. Words must already be lowercase `a`..=`z`.
    pub fn new(words: Vec<String>) -> (r: Vocabulary)
        requires
            forall|i: int| 0 <= i < words@.len() ==> lower_word(#[trigger] words@[i]@),
        ensures
            r.words() == words@.map_values(|s: String| s@),
    {
        let ghost all_words = words@.map_values(|s: String| s@);
        let mut by_length: Vec<Vec<(WordId, String)>> = Vec::new();
        let mut word_index: usize = 0;
        while word_index < words.len()
            invariant
                word_index <= words@.len(),
                forall|i: int| 0 <= i < words@.len() ==> lower_word(#[trigger] words@[i]@),
                all_words == words@.map_values(|s: String| s@),
                forall|i: int|
                    0 <= i < word_index ==> (#[trigger] all_words[i]).len() < by_length@.len(),
                by_length@.len() > 0 ==> exists|i: int|
                    0 <= i < word_index && (#[trigger] all_words[i]).len() + 1 == by_length@.len(),
                forall|l: int|
                    0 <= l < by_length@.len() ==> group_matches(
                        all_words.take(word_index as int),
                        l,
                        (#[trigger] by_length@[l])@,
                    ),
            decreases words@.len() - word_index,
        {
            let ghost prefix = all_words.take(word_index as int);
            let word = &words[word_index];
            let len = word.as_str().unicode_len();
            assert(all_words[word_index as int] == words@[word_index as int]@);
            proof {
                assert forall|i: int| 0 <= i < word_index implies (#[trigger] prefix[i]).len()
                    < by_length@.len() by {
                    assert(prefix[i] == all_words[i]);
                }
            }
            let ghost len0 = by_length@.len();
            while by_length.len() <= len
                invariant
                    word_index < words@.len(),
                    len == all_words[word_index as int].len(),
                    prefix == all_words.take(word_index as int),
                    prefix.len() == word_index,
                    by_length@.len() == len0 || by_length@.len() <= len + 1,
                    len0 > 0 ==> exists|i: int|
                        0 <= i < word_index && (#[trigger] all_words[i]).len() + 1 == len0,
                    forall|i: int|
                        0 <= i < word_index ==> (#[trigger] prefix[i]).len() < by_length@.len(),
                    forall|l: int|
                        0 <= l < by_length@.len() ==> group_matches(
                            prefix,
                            l,
                            (#[trigger] by_length@[l])@,
                        ),
                decreases len + 1 - by_length@.len(),
            {
                let empty_group: Vec<(WordId, String)> = Vec::new();
                proof {
                    lemma_no_ids(prefix, by_length@.len() as int);
                    assert(Seq::<(WordId, String)>::empty().map_values(
                        |p: (WordId, String)| p.0.0 as int,
                    ) =~= ids_of_len(prefix, by_length@.len() as int));
                }
                by_length.push(empty_group);
            }
            let ghost old_groups = by_length@;
            let cloned = word.clone();
            assert(cloned@ == all_words[word_index as int]);
            by_length[len].push((WordId(word_index), cloned));
            proof {
                let wi = word_index as int;
                let extended = all_words.take(wi + 1);
                assert(extended.drop_last() =~= prefix);
                assert(extended.last() == all_words[wi]);
                assert(by_length@[len as int]@ == old_groups[len as int]@.push(
                    (WordId(word_index), by_length@[len as int]@.last().1),
                ));
                assert(by_length@[len as int]@.last().1@ == all_words[wi]);
                assert forall|l: int| 0 <= l < by_length@.len() implies group_matches(
                    extended,
                    l,
                    (#[trigger] by_length@[l])@,
                ) by {
                    lemma_ids_of_len(prefix, l);
                    let g_old = old_groups[l]@;
                    let g_new = by_length@[l]@;
                    if l == len as int {
                        assert(ids_of_len(extended, l) == ids_of_len(prefix, l) + seq![wi]);
                        assert(g_new.map_values(|p: (WordId, String)| p.0.0 as int) =~= g_old
                            .map_values(|p: (WordId, String)| p.0.0 as int) + seq![wi]);
                        assert forall|k: int| 0 <= k < g_new.len() implies (#[trigger] g_new[k]).1@
                            == extended[g_new[k].0.0 as int] by {
                            if k < g_old.len() {
                                assert(g_new[k] == g_old[k]);
                                assert(g_old.map_values(|p: (WordId, String)| p.0.0 as int)[k]
                                    == g_old[k].0.0 as int);
                                assert(0 <= g_old[k].0.0 < prefix.len());
                                assert(extended[g_old[k].0.0 as int] == prefix[g_old[k].0.0 as int]);
                            } else {
                                assert(g_new[k] == g_new.last());
                            }
                        }
                    } else {
                        assert(g_new == g_old);
                        assert(ids_of_len(extended, l) == ids_of_len(prefix, l) + Seq::<
                            int,
                        >::empty());
                        assert(ids_of_len(extended, l) =~= ids_of_len(prefix, l));
                        assert forall|k: int| 0 <= k < g_new.len() implies (#[trigger] g_new[k]).1@
                            == extended[g_new[k].0.0 as int] by {
                            assert(g_old.map_values(|p: (WordId, String)| p.0.0 as int)[k]
                                == g_old[k].0.0 as int);
                            assert(0 <= g_old[k].0.0 < prefix.len());
                            assert(extended[g_old[k].0.0 as int] == prefix[g_old[k].0.0 as int]);
                        }
                    }
                }
                assert forall|i: int| 0 <= i < word_index + 1 implies (#[trigger] all_words[i]).len()
                    < by_length@.len() by {
                    if i < word_index {
                        assert(prefix[i] == all_words[i]);
                    }
                }
                if by_length@.len() == len0 {
                    let i = choose|i: int|
                        0 <= i < word_index && (#[trigger] all_words[i]).len() + 1 == len0;
                    assert(0 <= i < word_index + 1 && all_words[i].len() + 1 == by_length@.len());
                } else {
                    assert(by_length@.len() == len + 1);
                    assert(all_words[wi].len() + 1 == by_length@.len());
                }
            }
            word_index = word_index + 1;
        }
        proof {
            assert(all_words.take(words@.len() as int) =~= all_words);
        }
        Vocabulary { all: words, by_length }
    }

    /// Returns the text of the word with identifier `word_id`, or nothing
    /// when the identifier is out of range.
    pub fn get(&self, word_id: WordId) -> (r: Option<&str>)
        ensures
            match r {
                Some(s) => word_id.0 < self.words().len() && s@ == self.words()[word_id.0 as int]
                    && lower_word(s@),
                None => word_id.0 >= self.words().len(),
            },
    {
        proof {
            use_type_invariant(self);
        }
        if word_id.0 < self.all.len() {
            Some(self.all[word_id.0].as_str())
        } else {
            None
        }
    }

    /// The number of words held.
    pub fn len(&self) -> (r: usize)
        ensures
            r == self.words().len(),
    {
        self.all.len()
    }

    /// The grouping by length: for every length up to the longest word, the
    /// `(WordId, text)` pairs of the words of that length, in ascending
    /// identifier order.
    pub fn by_length(&self) -> (r: &Vec<Vec<(WordId, String)>>)
        ensures
            forall|i: int|
                0 <= i < self.words().len() ==> (#[trigger] self.words()[i]).len() < r@.len(),
            r@.len() > 0 ==> exists|i: int|
                0 <= i < self.words().len() && (#[trigger] self.words()[i]).len() + 1 == r@.len(),
            forall|l: int|
                0 <= l < r@.len() ==> group_matches(self.words(), l, (#[trigger] r@[l])@),
            forall|i: int| 0 <= i < self.words().len() ==> lower_word(#[trigger] self.words()[i]),
    {
        proof {
            use_type_invariant(self);
        }
        &self.by_length
    }
}

} // verus!
