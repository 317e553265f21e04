//! An odometer over word indices: enumerates every tuple of indices in
//! lexicographic order, with a way to skip the rest of a subtree.

use vstd::prelude::*;

verus! {

/// Every entry of `v` lies below the shared bound `len`.
pub open spec fn all_below(v: Seq<usize>, len: usize) -> bool {
    forall|k: int| 0 <= k < v.len() ==> #[trigger] v[k] < len
}

/// An iterator over all `Vec`s of a fixed length whose entries range over
/// `0..length`, in lexicographic order. `increment_at` skips the remaining
/// combinations below a position.
pub struct PatternWordIndex {
    current_indexes: Vec<usize>,
    lengths: Vec<usize>,
    first: bool,
    finished: bool,
}

impl PatternWordIndex {
    /// The tuple the iterator stands at.
    pub closed spec fn current(&self) -> Seq<usize> {
        self.current_indexes@
    }

    /// The shared bound every entry counts up to.
    pub closed spec fn bound(&self) -> usize {
        if self.lengths@.len() > 0 {
            self.lengths@[0]
        } else {
            0
        }
    }

    /// Whether the first tuple is still to be yielded.
    pub closed spec fn at_start(&self) -> bool {
        self.first
    }

    /// Whether the enumeration has ended.
    pub closed spec fn done(&self) -> bool {
        self.finished
    }

    /// The iterator's stored shape: as many entries as positions, all
    /// counting up to the same bound.
    pub closed spec fn wf(&self) -> bool {
        &&& self.current_indexes@.len() == self.lengths@.len()
        &&& forall|k: int| 0 <= k < self.lengths@.len() ==> #[trigger] self.lengths@[k] == self.bound()
    }

    /// An iterator over the tuples of `indexes_count` indices, each ranging
    /// over `0..max_index`, starting at the all-zero tuple.
    pub fn new(indexes_count: usize, max_index: usize) -> (r: PatternWordIndex)
        ensures
            r.wf(),
            r.current() =~= Seq::new(indexes_count as nat, |k: int| 0usize),
            indexes_count > 0 ==> r.bound() == max_index,
            r.at_start(),
            !r.done(),
    {
        let mut current_indexes: Vec<usize> = Vec::new();
        let mut lengths: Vec<usize> = Vec::new();
        let mut k: usize = 0;
        while k < indexes_count
            invariant
                k <= indexes_count,
                current_indexes@.len() == k,
                lengths@.len() == k,
                forall|m: int| 0 <= m < k ==> #[trigger] current_indexes@[m] == 0,
                forall|m: int| 0 <= m < k ==> #[trigger] lengths@[m] == max_index,
            decreases indexes_count - k,
        {
            current_indexes.push(0);
            lengths.push(max_index);
            k = k + 1;
        }
        PatternWordIndex { current_indexes, lengths, first: true, finished: false }
    }

    /// Yields the next tuple: the current one on the first call, then each
    /// successor in lexicographic order, then nothing once every tuple with
    /// all entries below the bound has been yielded.
    pub fn next(&mut self) -> (r: Option<Vec<usize>>)
        requires
            old(self).wf(),
            old(self).current().len() > 0,
            old(self).bound() > 0,
            all_below(old(self).current(), old(self).bound()),
        ensures
            final(self).wf(),
            final(self).bound() == old(self).bound(),
            final(self).current().len() == old(self).current().len(),
            match r {
                Some(v) => {
                    &&& !old(self).done()
                    &&& v@ == final(self).current()
                    &&& all_below(final(self).current(), final(self).bound())
                    &&& !final(self).done()
                    &&& !final(self).at_start()
                    &&& old(self).at_start() ==> v@ == old(self).current()
                },
                None => final(self).done(),
            },
    {
        if self.finished {
            return None;
        }
        if self.first {
            self.first = false;
            return Some(self.copy_current());
        }
        let last = self.current_indexes.len() - 1;
        let bumped = self.current_indexes[last] + 1;
        self.current_indexes.set(last, bumped);
        self.increment();
        if self.finished {
            return None;
        }
        Some(self.copy_current())
    }

    /// Sets every position after `index` to its final value, so that the
    /// following `next` carries into position `index` itself.
    pub fn increment_at(&mut self, index: usize)
        requires
            old(self).wf(),
            index < old(self).current().len(),
            old(self).bound() > 0,
        ensures
            final(self).wf(),
            final(self).bound() == old(self).bound(),
            final(self).done() == old(self).done(),
            final(self).at_start() == old(self).at_start(),
            final(self).current().len() == old(self).current().len(),
            forall|k: int|
                0 <= k <= index ==> #[trigger] final(self).current()[k] == old(self).current()[k],
            forall|k: int|
                index < k < final(self).current().len() ==> #[trigger] final(self).current()[k]
                    == old(self).bound() - 1,
    {
        let total = self.current_indexes.len();
        proof {
            assert(index < total);
        }
        let mut k = index + 1;
        while k < self.current_indexes.len()
            invariant
                self.wf(),
                self.bound() == old(self).bound(),
                self.done() == old(self).done(),
                self.at_start() == old(self).at_start(),
                self.current().len() == old(self).current().len(),
                self.bound() > 0,
                index < k <= self.current().len(),
                forall|m: int|
                    0 <= m <= index ==> #[trigger] self.current()[m] == old(self).current()[m],
                forall|m: int|
                    index < m < k ==> #[trigger] self.current()[m] == self.bound() - 1,
            decreases self.current_indexes@.len() - k,
        {
            let top = self.lengths[k] - 1;
            self.current_indexes.set(k, top);
            k = k + 1;
        }
    }

    /// Carries overflowing positions leftward: every position that reached
    /// the bound resets to zero and increments its left neighbour; running
    /// off the left end finishes the enumeration.
    fn increment(&mut self)
        requires
            old(self).wf(),
            old(self).current().len() > 0,
            old(self).bound() > 0,
            forall|k: int|
                0 <= k < old(self).current().len() - 1 ==> #[trigger] old(self).current()[k] < old(
                    self,
                ).bound(),
            old(self).current()[old(self).current().len() - 1] <= old(self).bound(),
        ensures
            final(self).wf(),
            final(self).bound() == old(self).bound(),
            final(self).current().len() == old(self).current().len(),
            final(self).at_start() == old(self).at_start(),
            old(self).done() ==> final(self).done(),
            !final(self).done() ==> all_below(final(self).current(), final(self).bound()),
    {
        let mut incremented_index = self.current_indexes.len() - 1;
        loop
            invariant_except_break
                self.wf(),
                self.bound() == old(self).bound(),
                self.current().len() == old(self).current().len(),
                self.at_start() == old(self).at_start(),
                self.done() == old(self).done(),
                self.bound() > 0,
                incremented_index < self.current().len(),
                forall|k: int|
                    0 <= k < incremented_index ==> #[trigger] self.current()[k] < self.bound(),
                self.current()[incremented_index as int] <= self.bound(),
                forall|k: int|
                    incremented_index < k < self.current().len() ==> #[trigger] self.current()[k]
                        < self.bound(),
            ensures
                self.wf(),
                self.bound() == old(self).bound(),
                self.current().len() == old(self).current().len(),
                self.at_start() == old(self).at_start(),
                old(self).done() ==> self.done(),
                !self.done() ==> all_below(self.current(), self.bound()),
            decreases incremented_index,
        {
            if self.current_indexes[incremented_index] != self.lengths[incremented_index] {
                break ;
            }
            self.current_indexes.set(incremented_index, 0);
            if incremented_index == 0 {
                self.finished = true;
                break ;
            }
            let bumped = self.current_indexes[incremented_index - 1] + 1;
            self.current_indexes.set(incremented_index - 1, bumped);
            incremented_index = incremented_index - 1;
        }
    }

    /// A copy of the current tuple.
    fn copy_current(&self) -> (r: Vec<usize>)
        ensures
            r@ == self.current(),
    {
        let mut copy: Vec<usize> = Vec::new();
        let mut k: usize = 0;
        while k < self.current_indexes.len()
            invariant
                k <= self.current_indexes@.len(),
                copy@ == self.current_indexes@.take(k as int),
            decreases self.current_indexes@.len() - k,
        {
            copy.push(self.current_indexes[k]);
            k = k + 1;
        }
        proof {
            assert(copy@ =~= self.current_indexes@);
        }
        copy
    }
}

} // verus!
