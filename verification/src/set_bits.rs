//! Iteration over the set bits of a sequence of words, lowest index first.
//! Zero words are passed over whole; inside a word the next set bit is found
//! with `trailing_zeros`.

use crate::bits::{bit, bit_of, lemma_bit_zero, lemma_clear_lowest, lemma_lowest_bit};
use vstd::prelude::*;

verus! {

/// A walk over the indices of the set bits of a slice of words.
pub struct SetBitsIter<'a> {
    data: &'a [u64],
    word_idx: usize,
    /// The bits of word `word_idx` that have not been yielded.
    current_word: u64,
}

impl<'a> SetBitsIter<'a> {
    /// The words that are walked.
    pub closed spec fn words(&self) -> Seq<u64> {
        self.data@
    }

    /// The indices still to be yielded.
    pub closed spec fn pending(&self) -> Set<int> {
        Set::new(
            |i: int|
                0 <= i && if i / 64 == self.word_idx {
                    bit(self.current_word, (i % 64) as u64)
                } else {
                    i / 64 > self.word_idx && bit_of(self.data@, i)
                },
        )
    }

    /// The walk stands inside its words, and every index that it will yield
    /// fits a `usize`.
    pub closed spec fn wf(&self) -> bool {
        &&& self.data@.len() <= usize::MAX / 64 + 1
        &&& self.word_idx <= self.data@.len()
        &&& self.word_idx >= self.data@.len() ==> self.current_word == 0
    }

    /// A walk over all set bits of `data`.
    pub fn new(data: &'a [u64]) -> (iter: SetBitsIter<'a>)
        requires
            data@.len() <= usize::MAX / 64 + 1,
        ensures
            iter.wf(),
            iter.words() == data@,
            iter.pending() == Set::new(|i: int| bit_of(data@, i)),
    {
        let first = if data.len() > 0 {
            data[0]
        } else {
            0
        };
        let iter = SetBitsIter { data, word_idx: 0, current_word: first };
        proof {
            assert forall|i: int| iter.pending().contains(i) == bit_of(data@, i) by {
                if 0 <= i {
                    lemma_bit_zero((i % 64) as u64);
                }
            }
            assert(iter.pending() =~= Set::new(|i: int| bit_of(data@, i)));
        }
        iter
    }

    /// Yields the lowest pending index, or `None` when none is pending. What
    /// stays pending lies above the index yielded, so the indices come in
    /// ascending order and none comes twice.
    pub fn next(&mut self) -> (index: Option<usize>)
        requires
            old(self).wf(),
        ensures
            final(self).wf(),
            final(self).words() == old(self).words(),
            match index {
                Some(i) => {
                    &&& old(self).pending().contains(i as int)
                    &&& forall|j: int| old(self).pending().contains(j) ==> i <= j
                    &&& final(self).pending() == old(self).pending().remove(i as int)
                    &&& forall|j: int| final(self).pending().contains(j) ==> i < j
                    &&& i < 64 * old(self).words().len()
                },
                None => {
                    &&& old(self).pending() == Set::<int>::empty()
                    &&& final(self).pending() == Set::<int>::empty()
                },
            },
    {
        while self.current_word == 0
            invariant
                self.wf(),
                self.data == old(self).data,
                self.pending() == old(self).pending(),
            decreases self.data@.len() - self.word_idx,
        {
            if self.word_idx + 1 >= self.data.len() {
                proof {
                    assert forall|i: int| !self.pending().contains(i) by {
                        if 0 <= i {
                            lemma_bit_zero((i % 64) as u64);
                        }
                    }
                    assert(self.pending() =~= Set::<int>::empty());
                }
                return None;
            }
            let ghost before = *self;
            self.word_idx += 1;
            self.current_word = self.data[self.word_idx];
            proof {
                assert forall|i: int| self.pending().contains(i)
                    == before.pending().contains(i) by {
                    if 0 <= i {
                        lemma_bit_zero((i % 64) as u64);
                    }
                }
                assert(self.pending() =~= before.pending());
            }
        }
        let ghost before = *self;
        let word = self.current_word;
        proof {
            lemma_lowest_bit(word);
        }
        let t = word.trailing_zeros() as usize;
        self.current_word = word & (word - 1);
        let index = self.word_idx * 64 + t;
        proof {
            assert(index as int / 64 == self.word_idx && index as int % 64 == t);
            let rest = before.pending().remove(index as int);
            assert forall|i: int| self.pending().contains(i) == rest.contains(i) by {
                if 0 <= i && i / 64 == self.word_idx {
                    lemma_clear_lowest(word, (i % 64) as u64);
                }
            }
            assert(self.pending() =~= rest);
            assert forall|j: int| before.pending().contains(j) implies index <= j by {
                if j / 64 == self.word_idx {
                    let k = (j % 64) as u64;
                    assert(bit(word, k));
                    assert(!(k < t));
                }
            }
        }
        Some(index)
    }

    /// Runs the walk to its end and returns what it yields: the pending
    /// indices, each once, in ascending order.
    pub fn collect(self) -> (indices: Vec<usize>)
        requires
            self.wf(),
        ensures
            forall|k: int| 0 <= k < indices@.len() ==> self.pending().contains(indices@[k] as int),
            forall|i: int|
                self.pending().contains(i) ==> exists|k: int|
                    0 <= k < indices@.len() && indices@[k] == i,
            forall|a: int, b: int| 0 <= a < b < indices@.len() ==> indices@[a] < indices@[b],
    {
        let mut iter = self;
        let mut indices: Vec<usize> = Vec::new();
        let ghost mut lo: int = 0;
        loop
            invariant
                iter.wf(),
                iter.words() == self.words(),
                0 <= lo <= 64 * self.words().len(),
                forall|j: int| iter.pending().contains(j) ==> lo <= j && self.pending().contains(j),
                forall|k: int|
                    0 <= k < indices@.len() ==> indices@[k] < lo && self.pending().contains(
                        indices@[k] as int,
                    ),
                forall|i: int|
                    self.pending().contains(i) ==> iter.pending().contains(i) || exists|k: int|
                        0 <= k < indices@.len() && indices@[k] == i,
                forall|a: int, b: int| 0 <= a < b < indices@.len() ==> indices@[a] < indices@[b],
            decreases 64 * self.words().len() - lo,
        {
            let ghost before = iter;
            let ghost seen = indices@;
            match iter.next() {
                Some(i) => {
                    indices.push(i);
                    proof {
                        lo = i + 1;
                        assert forall|j: int| self.pending().contains(j)
                            implies iter.pending().contains(
                            j,
                        ) || exists|k: int| 0 <= k < indices@.len() && indices@[k] == j by {
                            if j == i {
                                assert(indices@[seen.len() as int] == j);
                            } else if before.pending().contains(j) {
                            } else {
                                let k = choose|k: int| 0 <= k < seen.len() && seen[k] == j;
                                assert(indices@[k] == j);
                            }
                        }
                    }
                },
                None => {
                    return indices;
                },
            }
        }
    }
}

} // verus!
