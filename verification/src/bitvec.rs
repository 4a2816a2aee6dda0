//! A growable sequence of bits stored in words leased from a [`WordArena`].
//!
//! A vector holds a handle to its run of words and its length in bits. The
//! words themselves stay in the arena, so every operation that reads or
//! writes bits is handed the arena.

use crate::arena::{arena_alloc, arena_free, keeps, Run, WordArena};
use crate::bits::{
    bit, bit_of, clean, fresh_bits, lemma_below_clear, lemma_below_drop, lemma_below_set,
    lemma_bit_or, lemma_bit_test, lemma_bit_xor, lemma_bit_zero, lemma_bits_clean,
    lemma_below, lemma_bit_mask, lemma_clean_bits, lemma_fresh_bits, lemma_low_mask,
    lemma_lowest_bit, lemma_mask_keeps, lemma_or_zero,
    lemma_with_bit, lemma_with_bit_same, lemma_words_ext, with_bit, word_at, words_for,
};
use crate::model::{
    bit_at, bits_of_words, first_difference, gains, grown, lemma_resized_words,
    lemma_significant, lemma_trimmed_ext, lemma_union_changes, members, precedes, resized,
    resized_words, same_members, significant, trimmed, union_bits,
};
use crate::set_bits::SetBitsIter;
use std::cmp::Ordering;
use vstd::prelude::*;

verus! {

/// The number of words that hold `n_bits` bits.
pub fn words_needed(n_bits: usize) -> (n_words: usize)
    ensures
        n_words == words_for(n_bits as int),
        n_words <= usize::MAX / 64 + 1,
{
    if n_bits % 64 != 0 {
        n_bits / 64 + 1
    } else {
        n_bits / 64
    }
}

/// A bit vector. Its words are leased from an arena and go back to it with
/// [`BitVec::release`].
pub struct BitVec {
    /// The leased run; dangling when the capacity is zero.
    data: Run,
    num_bits: usize,
}

impl BitVec {
    /// The run that this vector leases.
    pub closed spec fn run(&self) -> Run {
        self.data
    }

    /// The number of bits of this vector.
    pub closed spec fn spec_len(&self) -> usize {
        self.num_bits
    }

    /// The number of words that this vector leases.
    pub open spec fn spec_capacity(&self) -> usize {
        self.run().len
    }

    /// The number of leased words that hold bits of this vector.
    pub open spec fn spec_words_in_use(&self) -> usize {
        words_for(self.spec_len() as int) as usize
    }

    /// All leased words, those past the length included.
    pub open spec fn raw(&self, arena: &WordArena) -> Seq<u64> {
        arena.region(self.run())
    }

    /// The words in use.
    pub open spec fn words(&self, arena: &WordArena) -> Seq<u64> {
        self.raw(arena).take(self.spec_words_in_use() as int)
    }

    /// The bits of this vector.
    pub open spec fn bits(&self, arena: &WordArena) -> Seq<bool> {
        bits_of_words(self.raw(arena), self.spec_len() as nat)
    }

    /// The vector holds a lease of `arena` that has room for its bits.
    pub open spec fn sound(&self, arena: &WordArena) -> bool {
        &&& arena.wf()
        &&& arena.leased(self.run())
        &&& self.run().len == 0 ==> self.run() == Run::dangling()
        &&& self.spec_len() <= 64 * self.run().len
    }

    /// The vector is sound, and no bit at or past its length is set in any of
    /// its words.
    pub open spec fn wf(&self, arena: &WordArena) -> bool {
        &&& self.sound(arena)
        &&& clean(self.raw(arena), self.spec_len() as int)
    }

    /// This vector and `other` share no word.
    pub open spec fn apart(&self, other: &BitVec) -> bool {
        self.run().disjoint(other.run())
    }

    /// What happens to the runs of other vectors does not reach this one:
    /// where the arena kept every run that shares no word with `gone`, a
    /// vector whose run shares none with it is as it was, and shares no word
    /// with `fresh`.
    pub proof fn lemma_undisturbed(
        &self,
        pre: &WordArena,
        post: &WordArena,
        gone: Run,
        fresh: Run,
    )
        requires
            self.sound(pre),
            post.wf(),
            keeps(pre, post, gone, fresh),
            self.run().disjoint(gone),
        ensures
            self.sound(post),
            self.raw(post) == self.raw(pre),
            self.bits(post) == self.bits(pre),
            self.wf(pre) ==> self.wf(post),
            self.run().disjoint(fresh),
    {
    }

    /// An empty vector without capacity. It asks nothing of any arena and is
    /// well-formed in every one.
    pub fn new() -> (v: BitVec)
        ensures
            v.spec_len() == 0,
            v.run() == Run::dangling(),
            forall|arena: WordArena| arena.wf() ==> #[trigger] v.wf(&arena),
    {
        BitVec { data: Run::dangling(), num_bits: 0 }
    }

    /// An empty vector with room for `n_bits` bits, leased from `arena`.
    pub fn with_capacity(arena: &mut WordArena, n_bits: usize) -> (v: BitVec)
        requires
            old(arena).wf(),
        ensures
            v.wf(final(arena)),
            v.spec_len() == 0,
            v.spec_capacity() == words_for(n_bits as int),
            v.run() == old(arena).layout().allocate(v.spec_capacity() as nat).1,
            final(arena).layout() == old(arena).layout().allocate(v.spec_capacity() as nat).0,
            keeps(old(arena), final(arena), Run::dangling(), v.run()),
    {
        let n_words = words_needed(n_bits);
        if n_words == 0 {
            return Self::new();
        }
        BitVec { data: arena_alloc(arena, n_words), num_bits: 0 }
    }

    /// The number of bits.
    #[verifier::when_used_as_spec(spec_len)]
    pub fn len(&self) -> (n: usize)
        ensures
            n == self.spec_len(),
    {
        self.num_bits
    }

    /// The number of leased words.
    #[verifier::when_used_as_spec(spec_capacity)]
    pub fn capacity(&self) -> (n: usize)
        ensures
            n == self.spec_capacity(),
    {
        self.data.len
    }

    /// The number of leased words that hold bits.
    #[verifier::when_used_as_spec(spec_words_in_use)]
    pub fn words_in_use(&self) -> (n: usize)
        ensures
            n == self.spec_words_in_use(),
    {
        words_needed(self.num_bits)
    }

    /// The words in use.
    pub fn as_slice<'a>(&self, arena: &'a WordArena) -> (words: &'a [u64])
        requires
            self.sound(arena),
        ensures
            words@ == self.words(arena),
    {
        arena.slice(self.data, self.words_in_use())
    }

    /// Bit `index`, or `None` where the vector has no such bit.
    pub fn get(&self, arena: &WordArena, index: usize) -> (value: Option<bool>)
        requires
            self.sound(arena),
        ensures
            value == if index < self.len() {
                Some(self.bits(arena)[index as int])
            } else {
                None
            },
    {
        if index >= self.num_bits {
            return None;
        }
        let word = self.as_slice(arena)[index / 64];
        let k: u64 = (index % 64) as u64;
        proof {
            lemma_bit_test(word, k);
        }
        Some((word >> k) & 1 != 0)
    }

    /// Bit `index` of a vector that has it.
    pub fn index(&self, arena: &WordArena, index: usize) -> (value: bool)
        requires
            self.sound(arena),
            index < self.len(),
        ensures
            value == self.bits(arena)[index as int],
    {
        let word = self.as_slice(arena)[index / 64];
        let k: u64 = (index % 64) as u64;
        proof {
            lemma_bit_test(word, k);
        }
        (word >> k) & 1 != 0
    }

    /// The last bit, or `None` where the vector is empty.
    pub fn last(&self, arena: &WordArena) -> (value: Option<bool>)
        requires
            self.sound(arena),
        ensures
            value == if self.len() == 0 {
                None
            } else {
                Some(self.bits(arena).last())
            },
    {
        if self.num_bits == 0 {
            return None;
        }
        self.get(arena, self.num_bits - 1)
    }

    /// Writes bit `index`, which must lie in the leased words. No word is
    /// leased or returned.
    ///
    /// The index may lie at or past the length. Setting such a bit leaves the
    /// vector with a bit past its length: it is then sound and not
    /// well-formed, until the bit is cleared again or the vector is scrubbed
    /// (see [`BitVec::scrub`]).
    pub fn set(&mut self, arena: &mut WordArena, index: usize, val: bool)
        requires
            old(self).sound(old(arena)),
            index < 64 * old(self).capacity(),
        ensures
            *final(self) == *old(self),
            final(self).sound(final(arena)),
            final(arena).layout() == old(arena).layout(),
            final(self).raw(final(arena)) == old(self).raw(old(arena)).update(
                index as int / 64,
                with_bit(old(self).raw(old(arena))[index as int / 64], (index % 64) as u64, val),
            ),
            final(self).bits(final(arena)) == if index < old(self).len() {
                old(self).bits(old(arena)).update(index as int, val)
            } else {
                old(self).bits(old(arena))
            },
            old(self).wf(old(arena)) ==> (final(self).wf(final(arena)) <==> index < old(self).len()
                || !val),
            keeps(old(arena), final(arena), old(self).run(), old(self).run()),
    {
        let word_idx = index / 64;
        let k: u64 = (index % 64) as u64;
        let word = arena.load(self.data, word_idx);
        if val {
            arena.store(self.data, word_idx, word | (1u64 << k));
        } else {
            arena.store(self.data, word_idx, word & !(1u64 << k));
        }
        proof {
            let raw0 = old(self).raw(old(arena));
            let raw1 = self.raw(arena);
            let n = self.num_bits as int;
            assert(raw1 == raw0.update(word_idx as int, with_bit(word, k, val)));
            assert forall|i: int| 0 <= i implies bit_of(raw1, i) == (if i == index {
                val
            } else {
                bit_of(raw0, i)
            }) by {
                if i / 64 == word_idx {
                    lemma_with_bit(word, k, val, (i % 64) as u64);
                }
            }
            assert(self.bits(arena) =~= if index < n {
                old(self).bits(old(arena)).update(index as int, val)
            } else {
                old(self).bits(old(arena))
            });
            if old(self).wf(old(arena)) {
                if index < n || !val {
                    if index >= n {
                        lemma_clean_bits(raw0, n, index as int);
                        lemma_with_bit_same(word, k, val);
                        assert(raw1 =~= raw0);
                    } else if n % 64 != 0 && word_idx == n / 64 {
                        if val {
                            lemma_below_set(word, (n % 64) as u64, k);
                        } else {
                            lemma_below_clear(word, (n % 64) as u64, k);
                        }
                    }
                    assert(clean(raw1, n));
                } else {
                    if clean(raw1, n) {
                        lemma_clean_bits(raw1, n, index as int);
                    }
                }
            }
        }
    }

    /// Removes the last bit and returns it, or returns `None` where the
    /// vector is empty. A word that holds no bit any more is cleared. The
    /// capacity stays.
    pub fn pop(&mut self, arena: &mut WordArena) -> (value: Option<bool>)
        requires
            old(self).sound(old(arena)),
        ensures
            final(self).sound(final(arena)),
            final(self).run() == old(self).run(),
            final(arena).layout() == old(arena).layout(),
            old(self).len() == 0 ==> value == None::<bool>,
            old(self).len() == 0 ==> final(self).len() == 0,
            old(self).len() == 0 ==> final(self).raw(final(arena)) == old(self).raw(old(arena)),
            old(self).len() > 0 ==> value == Some(old(self).bits(old(arena)).last()),
            old(self).len() > 0 ==> final(self).len() == old(self).len() - 1,
            old(self).len() > 0 ==> final(self).bits(final(arena)) == old(self).bits(
                old(arena),
            ).drop_last(),
            old(self).len() > 0 ==> final(self).raw(final(arena)) == old(self).raw(
                old(arena),
            ).update(
                (old(self).len() - 1) / 64,
                if (old(self).len() - 1) % 64 == 0 {
                    0
                } else {
                    with_bit(
                        old(self).raw(old(arena))[(old(self).len() - 1) / 64],
                        ((old(self).len() - 1) % 64) as u64,
                        false,
                    )
                },
            ),
            old(self).wf(old(arena)) ==> final(self).wf(final(arena)),
            keeps(old(arena), final(arena), old(self).run(), old(self).run()),
    {
        if self.num_bits == 0 {
            return None;
        }
        self.num_bits -= 1;
        let word_idx = self.num_bits / 64;
        let k: u64 = (self.num_bits % 64) as u64;
        let new_words_in_use = self.words_in_use();
        let word = arena.load(self.data, word_idx);
        let val = (word >> k) & 1 != 0;
        proof {
            lemma_bit_test(word, k);
            lemma_with_bit_same(word, k, val);
        }
        if val {
            arena.store(self.data, word_idx, word & !(1u64 << k));
        }
        if word_idx >= new_words_in_use {
            arena.store(self.data, word_idx, 0);
        }
        proof {
            let raw0 = old(self).raw(old(arena));
            let raw1 = self.raw(arena);
            let n = self.num_bits as int;
            let cleared = with_bit(word, k, false);
            assert(raw1 =~= raw0.update(
                word_idx as int,
                if k == 0 {
                    0
                } else {
                    cleared
                },
            ));
            assert forall|i: int| 0 <= i < n implies bit_of(raw1, i) == bit_of(raw0, i) by {
                if i / 64 == word_idx {
                    lemma_with_bit(word, k, false, (i % 64) as u64);
                }
            }
            assert(self.bits(arena) =~= old(self).bits(old(arena)).drop_last());
            if old(self).wf(old(arena)) {
                if k != 0 {
                    lemma_below_drop(word, k);
                }
                assert(clean(raw1, n));
            }
        }
        Some(val)
    }

    /// Moves the vector to a fresh run of `new_cap` words: the run is leased,
    /// the words in use are copied into it, and the old run goes back to the
    /// arena.
    fn relocate(&mut self, arena: &mut WordArena, new_cap: usize)
        requires
            old(self).wf(old(arena)),
            new_cap > old(self).capacity(),
        ensures
            final(self).wf(final(arena)),
            final(self).len() == old(self).len(),
            final(self).capacity() == new_cap,
            forall|j: int|
                0 <= j < new_cap ==> #[trigger] final(self).raw(final(arena))[j] == word_at(
                    old(self).raw(old(arena)),
                    j,
                ),
            final(self).run() == old(arena).layout().allocate(new_cap as nat).1,
            final(arena).layout() == old(arena).layout().allocate(new_cap as nat).0.free(
                old(self).run(),
            ),
            keeps(old(arena), final(arena), old(self).run(), final(self).run()),
    {
        let new_data = arena_alloc(arena, new_cap);
        let old_words = self.words_in_use();
        let ghost raw0 = old(self).raw(old(arena));
        assert(arena.region(self.data) == raw0);
        if old_words > 0 {
            arena.copy(self.data, new_data, old_words);
        }
        assert(arena.region(self.data) == raw0);
        let old_data = self.data;
        self.data = new_data;
        arena_free(arena, old_data, old_words);
        proof {
            let raw1 = self.raw(arena);
            assert forall|j: int| 0 <= j < new_cap implies #[trigger] raw1[j]
                == word_at(raw0, j) by {}
        }
    }

    /// Makes room for `n_words` words. Where the capacity is too small, the
    /// vector moves to a run of `grown(capacity, n_words)` words.
    fn ensure_words(&mut self, arena: &mut WordArena, n_words: usize)
        requires
            old(self).wf(old(arena)),
            n_words <= usize::MAX / 64 + 1,
        ensures
            final(self).wf(final(arena)),
            final(self).len() == old(self).len(),
            final(self).capacity() == grown(old(self).capacity() as nat, n_words as nat),
            forall|j: int|
                0 <= j < final(self).capacity() ==> #[trigger] final(self).raw(final(arena))[j]
                    == word_at(old(self).raw(old(arena)), j),
            n_words <= old(self).capacity() ==> final(self).run() == old(self).run(),
            n_words <= old(self).capacity() ==> final(arena).layout() == old(arena).layout(),
            n_words > old(self).capacity() ==> final(self).run() == old(arena).layout().allocate(
                final(self).capacity() as nat,
            ).1,
            n_words > old(self).capacity() ==> final(arena).layout()
                == old(arena).layout().allocate(final(self).capacity() as nat).0.free(
                old(self).run(),
            ),
            keeps(old(arena), final(arena), old(self).run(), final(self).run()),
    {
        if n_words > self.data.len {
            let doubled = self.data.len * 2;
            let new_cap = if n_words > doubled {
                n_words
            } else {
                doubled
            };
            self.relocate(arena, new_cap);
        }
    }

    /// Sets the length to `new_len` bits.
    ///
    /// Growing makes room first (see [`grown`]), then fills the words that
    /// come into use with `val` in every bit and cuts the last of them to the
    /// new length. Bits that join the vector in a word that already held bits
    /// of it are clear, whatever `val` is.
    ///
    /// Shrinking clears the words that go out of use, cuts the last word that
    /// stays in use to the new length, and keeps the capacity. No bit at or
    /// past the new length is left set.
    pub fn resize(&mut self, arena: &mut WordArena, new_len: usize, val: bool)
        requires
            old(self).wf(old(arena)),
        ensures
            final(self).wf(final(arena)),
            final(self).len() == new_len,
            final(self).capacity() == grown(
                old(self).capacity() as nat,
                words_for(new_len as int) as nat,
            ),
            final(self).raw(final(arena)) == resized_words(
                old(self).raw(old(arena)),
                old(self).len() as int,
                new_len as int,
                val,
                final(self).capacity() as nat,
            ),
            final(self).bits(final(arena)) == resized(
                old(self).bits(old(arena)),
                new_len as nat,
                val,
            ),
            words_for(new_len as int) <= old(self).capacity() ==> final(self).run()
                == old(self).run(),
            words_for(new_len as int) <= old(self).capacity() ==> final(arena).layout()
                == old(arena).layout(),
            words_for(new_len as int) > old(self).capacity() ==> final(self).run()
                == old(arena).layout().allocate(final(self).capacity() as nat).1,
            words_for(new_len as int) > old(self).capacity() ==> final(arena).layout()
                == old(arena).layout().allocate(final(self).capacity() as nat).0.free(
                old(self).run(),
            ),
            keeps(old(arena), final(arena), old(self).run(), final(self).run()),
    {
        let new_words = words_needed(new_len);
        let old_words = self.words_in_use();
        self.ensure_words(arena, new_words);
        let fill = if val {
            !0u64
        } else {
            0u64
        };
        let ghost raw0 = old(self).raw(old(arena));
        let ghost raw1 = self.raw(arena);
        if new_words > old_words {
            arena.fill(self.data, old_words, new_words, fill);
            if val && new_len % 64 != 0 {
                let m: u64 = (new_len % 64) as u64;
                proof {
                    lemma_low_mask(m);
                }
                let mask = (1u64 << m) - 1;
                let word = arena.load(self.data, new_words - 1);
                arena.store(self.data, new_words - 1, word & mask);
            }
        } else if new_words < old_words {
            arena.fill(self.data, new_words, old_words, 0);
        }
        if new_len < self.num_bits && new_len % 64 != 0 {
            let m: u64 = (new_len % 64) as u64;
            proof {
                lemma_low_mask(m);
            }
            let mask = (1u64 << m) - 1;
            let word = arena.load(self.data, new_words - 1);
            arena.store(self.data, new_words - 1, word & mask);
        }
        proof {
            let raw2 = self.raw(arena);
            let cap = self.data.len as nat;
            let n0 = old(self).num_bits as int;
            let want = resized_words(raw0, n0, new_len as int, val, cap);
            assert forall|j: int| 0 <= j < cap implies raw2[j] == want[j] by {
                assert(raw1[j] == word_at(raw0, j));
                if j == new_len / 64 && new_len % 64 != 0 && j < old_words && new_len >= n0 {
                    lemma_below(raw0[j], (n0 % 64) as u64, (new_len % 64) as u64);
                    lemma_mask_keeps(raw0[j], (new_len % 64) as u64);
                }
            }
            assert(raw2 =~= want);
            lemma_resized_words(raw0, n0 as nat, new_len as nat, val, cap);
        }
        self.num_bits = new_len;
    }

    /// Adds the members of `other` to this vector, a word at a time, and
    /// says whether a bit was set that was clear before.
    ///
    /// The length becomes the larger of the two. Where `other` uses more
    /// words than this vector has leased, the vector moves to a run of
    /// exactly as many words as `other` uses.
    pub fn insert_all(&mut self, arena: &mut WordArena, other: &BitVec) -> (changed: bool)
        requires
            old(self).wf(old(arena)),
            other.wf(old(arena)),
            old(self).apart(other),
        ensures
            final(self).wf(final(arena)),
            final(self).bits(final(arena)) == union_bits(
                old(self).bits(old(arena)),
                other.bits(old(arena)),
            ),
            forall|i: int|
                bit_at(old(self).bits(old(arena)), i) || bit_at(other.bits(old(arena)), i)
                    ==> bit_at(final(self).bits(final(arena)), i),
            changed <==> gains(old(self).bits(old(arena)), other.bits(old(arena))),
            changed <==> !same_members(final(self).bits(final(arena)), old(self).bits(old(arena))),
            other.wf(final(arena)),
            other.bits(final(arena)) == other.bits(old(arena)),
            final(self).apart(other),
            other.words_in_use() <= old(self).capacity() ==> final(self).run() == old(self).run(),
            other.words_in_use() <= old(self).capacity() ==> final(arena).layout()
                == old(arena).layout(),
            other.words_in_use() > old(self).capacity() ==> final(self).capacity()
                == other.words_in_use(),
            other.words_in_use() > old(self).capacity() ==> final(self).run()
                == old(arena).layout().allocate(other.words_in_use() as nat).1,
            other.words_in_use() > old(self).capacity() ==> final(arena).layout()
                == old(arena).layout().allocate(other.words_in_use() as nat).0.free(
                old(self).run(),
            ),
            keeps(old(arena), final(arena), old(self).run(), final(self).run()),
    {
        let ghost bits0 = old(self).bits(old(arena));
        let ghost other_bits = other.bits(old(arena));
        let ghost raw0 = old(self).raw(old(arena));
        let ghost other_raw = other.raw(old(arena));
        let other_words = other.words_in_use();
        if other_words == 0 {
            proof {
                assert(union_bits(bits0, other_bits) =~= bits0);
                lemma_union_changes(bits0, other_bits);
            }
            return false;
        }
        let self_words = self.words_in_use();
        if other_words > self.data.len {
            self.relocate(arena, other_words);
        } else if other_words > self_words {
            arena.fill(self.data, self_words, other_words, 0);
            assert(arena.region(self.data) =~= raw0);
        }
        if other.num_bits > self.num_bits {
            self.num_bits = other.num_bits;
        }
        let ghost mid = *arena;
        let ghost raw1 = arena.region(self.data);
        assert(forall|j: int| 0 <= j < self.data.len ==> #[trigger] raw1[j] == word_at(raw0, j));
        let mut any_new: u64 = 0;
        let mut i: usize = 0;
        while i < other_words
            invariant
                i <= other_words,
                other_words <= self.data.len,
                other_words <= other.data.len,
                arena.wf(),
                arena.layout() == mid.layout(),
                mid.layout().leased(self.data),
                mid.layout().leased(other.data),
                self.data.disjoint(other.data),
                arena.region(other.data) == other_raw,
                arena.region(self.data).len() == raw1.len(),
                raw1.len() == self.data.len,
                forall|j: int|
                    0 <= j < self.data.len ==> #[trigger] arena.region(self.data)[j] == (if j < i {
                        raw1[j] | other_raw[j]
                    } else {
                        raw1[j]
                    }),
                any_new != 0 <==> exists|j: int| 0 <= j < i
                    && #[trigger] fresh_bits(raw1, other_raw, j) != 0,
                keeps(&mid, arena, self.data, self.data),
            decreases other_words - i,
        {
            let ow = arena.load(other.data, i);
            let sw = arena.load(self.data, i);
            proof {
                lemma_or_zero(any_new, ow & !sw);
                assert(fresh_bits(raw1, other_raw, i as int) == ow & !sw);
            }
            any_new = any_new | (ow & !sw);
            arena.store(self.data, i, sw | ow);
            i += 1;
        }
        proof {
            let raw2 = self.raw(arena);
            let bits2 = self.bits(arena);
            let n0 = old(self).num_bits as int;
            let n1 = other.num_bits as int;
            let n2 = self.num_bits as int;
            assert forall|k: int| 0 <= k implies bit_of(raw2, k) == (bit_of(raw0, k) || bit_of(
                other_raw,
                k,
            )) by {
                let j = k / 64;
                let b = (k % 64) as u64;
                lemma_bit_zero(b);
                if j < other_words {
                    lemma_bit_or(raw1[j], other_raw[j], b);
                } else {
                    if n1 <= k {
                        lemma_clean_bits(other_raw, n1, k);
                    }
                    if n0 <= k {
                        lemma_clean_bits(raw0, n0, k);
                    }
                }
            }
            assert forall|k: int| n0 <= k implies !bit_of(raw0, k) by {
                lemma_clean_bits(raw0, n0, k);
            }
            assert forall|k: int| n1 <= k implies !bit_of(other_raw, k) by {
                lemma_clean_bits(other_raw, n1, k);
            }
            lemma_bits_clean(raw2, n2);
            assert(bits2 =~= union_bits(bits0, other_bits));
            lemma_fresh_bits(raw1, other_raw);
            assert(changed_iff(any_new, raw1, other_raw, other_words as int));
            assert forall|j: int| other_words <= j < other_raw.len() implies #[trigger] fresh_bits(
                raw1,
                other_raw,
                j,
            ) == 0 by {
                let w = word_at(raw1, j);
                assert(other_raw[j] == 0);
                assert(0u64 & !w == 0) by (bit_vector);
            }
            assert(changed_iff(any_new, raw1, other_raw, other_raw.len() as int)) by {
                if exists|j: int| 0 <= j < other_raw.len()
                    && #[trigger] fresh_bits(raw1, other_raw, j) != 0 {
                    let j = choose|j: int| 0 <= j < other_raw.len()
                        && #[trigger] fresh_bits(raw1, other_raw, j) != 0;
                    assert(j < other_words);
                }
            }
            assert((exists|k: int| bit_of(other_raw, k) && !bit_of(raw1, k)) <==> gains(
                bits0,
                other_bits,
            )) by {
                assert forall|k: int| 0 <= k implies bit_of(raw1, k) == bit_of(raw0, k) by {
                    if k / 64 >= self.data.len {
                        lemma_bit_zero((k % 64) as u64);
                    }
                }
                if exists|k: int| bit_of(other_raw, k) && !bit_of(raw1, k) {
                    let k = choose|k: int| bit_of(other_raw, k) && !bit_of(raw1, k);
                    assert(bit_at(other_bits, k) && !bit_at(bits0, k));
                }
                if gains(bits0, other_bits) {
                    let k = choose|k: int| bit_at(other_bits, k) && !bit_at(bits0, k);
                    assert(bit_of(other_raw, k) && !bit_of(raw1, k));
                }
            }
            lemma_union_changes(bits0, other_bits);
        }
        any_new != 0
    }

    /// A copy with the same bits in a run of its own, leased for exactly the
    /// words in use.
    pub fn clone(&self, arena: &mut WordArena) -> (copy: BitVec)
        requires
            self.wf(old(arena)),
        ensures
            copy.wf(final(arena)),
            copy.len() == self.len(),
            copy.capacity() == self.words_in_use(),
            copy.bits(final(arena)) == self.bits(old(arena)),
            self.wf(final(arena)),
            self.bits(final(arena)) == self.bits(old(arena)),
            copy.apart(self),
            copy.run() == old(arena).layout().allocate(self.words_in_use() as nat).1,
            final(arena).layout() == old(arena).layout().allocate(self.words_in_use() as nat).0,
            keeps(old(arena), final(arena), Run::dangling(), copy.run()),
    {
        let words = self.words_in_use();
        if words == 0 {
            let copy = Self::new();
            assert(copy.bits(arena) =~= self.bits(arena));
            return copy;
        }
        let new_data = arena_alloc(arena, words);
        arena.copy(self.data, new_data, words);
        let copy = BitVec { data: new_data, num_bits: self.num_bits };
        proof {
            let raw = self.raw(arena);
            let raw_copy = copy.raw(arena);
            assert forall|i: int| 0 <= i < self.num_bits implies bit_of(raw_copy, i) == bit_of(
                raw,
                i,
            ) by {}
            assert(copy.bits(arena) =~= self.bits(arena));
        }
        copy
    }

    /// Gives the leased words back to the arena. The words in use are
    /// cleared on the way; the others are zero already.
    pub fn release(self, arena: &mut WordArena)
        requires
            self.wf(old(arena)),
        ensures
            final(arena).wf(),
            final(arena).layout() == old(arena).layout().free(self.run()),
            keeps(old(arena), final(arena), self.run(), Run::dangling()),
    {
        if self.data.len > 0 {
            arena_free(arena, self.data, self.words_in_use());
        }
    }

    /// Whether the vector is well-formed: looks through the leased words for a
    /// bit at or past the length.
    pub fn is_clean(&self, arena: &WordArena) -> (ok: bool)
        requires
            self.sound(arena),
        ensures
            ok == self.wf(arena),
    {
        let in_use = self.words_in_use();
        let m = self.num_bits % 64;
        if m != 0 {
            let last = arena.load(self.data, in_use - 1);
            if last >> (m as u64) != 0 {
                return false;
            }
        }
        let mut j: usize = in_use;
        while j < self.data.len
            invariant
                self.sound(arena),
                in_use == self.spec_words_in_use(),
                in_use <= j <= self.data.len,
                forall|i: int| in_use <= i < j ==> #[trigger] self.raw(arena)[i] == 0,
            decreases self.data.len - j,
        {
            if arena.load(self.data, j) != 0 {
                return false;
            }
            j += 1;
        }
        true
    }

    /// Clears every bit at or past the length in the leased words: the last
    /// word in use is cut to the length, and the words past it are zeroed.
    /// The bits of the vector stay, and the vector is well-formed afterwards.
    pub fn scrub(&mut self, arena: &mut WordArena)
        requires
            old(self).sound(old(arena)),
        ensures
            *final(self) == *old(self),
            final(self).wf(final(arena)),
            final(self).bits(final(arena)) == old(self).bits(old(arena)),
            old(self).wf(old(arena)) ==> final(self).raw(final(arena)) == old(self).raw(
                old(arena),
            ),
            final(arena).layout() == old(arena).layout(),
            keeps(old(arena), final(arena), old(self).run(), old(self).run()),
    {
        let in_use = self.words_in_use();
        let ghost raw0 = old(self).raw(old(arena));
        let ghost n = self.num_bits as int;
        if self.num_bits % 64 != 0 {
            let m: u64 = (self.num_bits % 64) as u64;
            proof {
                lemma_low_mask(m);
            }
            let mask = (1u64 << m) - 1;
            let word = arena.load(self.data, in_use - 1);
            arena.store(self.data, in_use - 1, word & mask);
        }
        arena.fill(self.data, in_use, self.data.len, 0);
        proof {
            let raw1 = self.raw(arena);
            let m = (n % 64) as u64;
            assert forall|i: int| 0 <= i < n implies bit_of(raw1, i) == bit_of(raw0, i) by {
                if i / 64 == n / 64 {
                    lemma_bit_mask(raw0[n / 64], m, (i % 64) as u64);
                }
            }
            assert(self.bits(arena) =~= old(self).bits(old(arena)));
            if m != 0 {
                lemma_bit_mask(raw0[n / 64], m, 0);
            }
            assert(clean(raw1, n));
            if old(self).wf(old(arena)) {
                if m != 0 {
                    lemma_mask_keeps(raw0[n / 64], m);
                }
                assert(raw1 =~= raw0);
            }
        }
    }

    /// In a well-formed vector the words in use hold exactly its bits.
    pub proof fn lemma_words_bits(&self, arena: &WordArena)
        requires
            self.wf(arena),
        ensures
            forall|i: int| bit_of(self.words(arena), i) == bit_at(self.bits(arena), i),
            forall|i: int| bit_of(self.raw(arena), i) == bit_at(self.bits(arena), i),
    {
        let raw = self.raw(arena);
        let n = self.num_bits as int;
        assert(words_for(n) <= raw.len());
        assert forall|i: int| bit_of(raw, i) == bit_at(self.bits(arena), i) by {
            if n <= i {
                lemma_clean_bits(raw, n, i);
            }
        }
        assert forall|i: int| bit_of(self.words(arena), i) == bit_at(self.bits(arena), i) by {
            if 0 <= i {
                let j = i / 64;
                lemma_bit_zero((i % 64) as u64);
                if j < words_for(n) {
                    assert(self.words(arena)[j] == raw[j]);
                }
                assert(bit_of(raw, i) == bit_at(self.bits(arena), i));
            }
        }
    }

    /// Whether the two vectors have the same bits set. Lengths and
    /// capacities do not count: words that one of them lacks are read as
    /// zero.
    pub fn eq(&self, arena: &WordArena, other: &BitVec) -> (equal: bool)
        requires
            self.wf(arena),
            other.wf(arena),
        ensures
            equal == same_members(self.bits(arena), other.bits(arena)),
    {
        let a = self.as_slice(arena);
        let b = other.as_slice(arena);
        let max_len = if a.len() >= b.len() {
            a.len()
        } else {
            b.len()
        };
        proof {
            self.lemma_words_bits(arena);
            other.lemma_words_bits(arena);
        }
        let mut i: usize = 0;
        while i < max_len
            invariant
                i <= max_len,
                max_len >= a@.len(),
                max_len >= b@.len(),
                forall|j: int| 0 <= j < i ==> word_at(a@, j) == word_at(b@, j),
                forall|k: int| bit_of(a@, k) == bit_at(self.bits(arena), k),
                forall|k: int| bit_of(b@, k) == bit_at(other.bits(arena), k),
            decreases max_len - i,
        {
            if word_or_zero(a, i) != word_or_zero(b, i) {
                proof {
                    if same_members(self.bits(arena), other.bits(arena)) {
                        lemma_words_ext(a@, b@, i as int);
                    }
                }
                return false;
            }
            i += 1;
        }
        proof {
            assert forall|k: int| bit_of(a@, k) == bit_of(b@, k) by {
                assert(word_at(a@, k / 64) == word_at(b@, k / 64));
            }
        }
        true
    }

    /// The lowest index at which the two vectors differ, or `None` where
    /// they have the same bits set.
    fn first_mismatch(&self, arena: &WordArena, other: &BitVec) -> (at: Option<usize>)
        requires
            self.wf(arena),
            other.wf(arena),
        ensures
            match at {
                Some(k) => first_difference(self.bits(arena), other.bits(arena), k as int),
                None => same_members(self.bits(arena), other.bits(arena)),
            },
    {
        let a = self.as_slice(arena);
        let b = other.as_slice(arena);
        let max_len = if a.len() >= b.len() {
            a.len()
        } else {
            b.len()
        };
        proof {
            self.lemma_words_bits(arena);
            other.lemma_words_bits(arena);
        }
        let mut i: usize = 0;
        while i < max_len
            invariant
                i <= max_len,
                max_len <= usize::MAX / 64 + 1,
                max_len >= a@.len(),
                max_len >= b@.len(),
                forall|j: int| 0 <= j < i ==> word_at(a@, j) == word_at(b@, j),
                forall|k: int| bit_of(a@, k) == bit_at(self.bits(arena), k),
                forall|k: int| bit_of(b@, k) == bit_at(other.bits(arena), k),
            decreases max_len - i,
        {
            let aw = word_or_zero(a, i);
            let bw = word_or_zero(b, i);
            if aw != bw {
                let x = aw ^ bw;
                proof {
                    assert(x != 0) by (bit_vector)
                        requires
                            x == aw ^ bw,
                            aw != bw,
                    ;
                    lemma_lowest_bit(x);
                }
                let t = x.trailing_zeros();
                let k = i * 64 + t as usize;
                proof {
                    assert(k as int / 64 == i && k as int % 64 == t);
                    lemma_bit_xor(aw, bw, t as u64);
                    assert forall|l: int| 0 <= l < k implies bit_of(a@, l) == bit_of(b@, l) by {
                        if l / 64 == i {
                            let m = (l % 64) as u64;
                            lemma_bit_xor(aw, bw, m);
                            assert(m < t);
                            assert(!bit(x, m));
                        } else {
                            assert(word_at(a@, l / 64) == word_at(b@, l / 64));
                        }
                    }
                    assert(bit(x, t as u64));
                    assert(bit_of(a@, k as int) != bit_of(b@, k as int));
                    assert(bit_at(self.bits(arena), k as int) != bit_at(
                        other.bits(arena),
                        k as int,
                    ));
                    assert forall|l: int| 0 <= l < k implies bit_at(self.bits(arena), l) == bit_at(
                        other.bits(arena),
                        l,
                    ) by {
                        assert(bit_of(a@, l) == bit_of(b@, l));
                    }
                }
                return Some(k);
            }
            i += 1;
        }
        proof {
            assert forall|k: int| bit_of(a@, k) == bit_of(b@, k) by {
                assert(word_at(a@, k / 64) == word_at(b@, k / 64));
            }
        }
        None
    }

    /// The order of the two vectors: by the lowest index at which they
    /// differ, where the vector that has the bit set is the smaller. This is
    /// not the order of the numbers that the bits would spell.
    pub fn cmp(&self, arena: &WordArena, other: &BitVec) -> (order: Ordering)
        requires
            self.wf(arena),
            other.wf(arena),
        ensures
            order == Ordering::Less <==> precedes(self.bits(arena), other.bits(arena)),
            order == Ordering::Equal <==> same_members(self.bits(arena), other.bits(arena)),
            order == Ordering::Greater <==> precedes(other.bits(arena), self.bits(arena)),
    {
        proof {
            crate::model::lemma_precedes_total(self.bits(arena), other.bits(arena));
        }
        match self.first_mismatch(arena, other) {
            None => Ordering::Equal,
            Some(k) => {
                match self.get(arena, k) {
                    Some(true) => Ordering::Less,
                    _ => Ordering::Greater,
                }
            },
        }
    }

    /// The order of the two vectors, which is total.
    pub fn partial_cmp(&self, arena: &WordArena, other: &BitVec) -> (order: Option<Ordering>)
        requires
            self.wf(arena),
            other.wf(arena),
        ensures
            order == Some(Ordering::Less) <==> precedes(self.bits(arena), other.bits(arena)),
            order == Some(Ordering::Equal) <==> same_members(self.bits(arena), other.bits(arena)),
            order == Some(Ordering::Greater) <==> precedes(other.bits(arena), self.bits(arena)),
            order.is_some(),
    {
        Some(self.cmp(arena, other))
    }

    /// The words that stand for this vector in a hash: the words in use
    /// without trailing zero words. Vectors with the same bits set give the
    /// same words, whatever their lengths and capacities.
    pub fn hash_words<'a>(&self, arena: &'a WordArena) -> (words: &'a [u64])
        requires
            self.sound(arena),
        ensures
            words@ == trimmed(self.words(arena)),
    {
        let data = self.as_slice(arena);
        let mut n: usize = data.len();
        assert(data@.take(n as int) =~= data@);
        while n > 0 && data[n - 1] == 0
            invariant
                n <= data@.len(),
                significant(data@) == significant(data@.take(n as int)),
            decreases n,
        {
            proof {
                assert(data@.take(n as int).drop_last() =~= data@.take(n - 1));
            }
            n -= 1;
        }
        proof {
            lemma_significant(data@.take(n as int));
        }
        vstd::slice::slice_subrange(data, 0, n)
    }

    /// A walk over the indices of the set bits, lowest first: exactly the
    /// indices at which `get` answers `Some(true)`.
    pub fn iter<'a>(&self, arena: &'a WordArena) -> (iter: SetBitsIter<'a>)
        requires
            self.wf(arena),
        ensures
            iter.wf(),
            iter.words() == self.words(arena),
            iter.pending() == members(self.bits(arena)),
    {
        proof {
            self.lemma_words_bits(arena);
        }
        let iter = SetBitsIter::new(self.as_slice(arena));
        assert(iter.pending() =~= members(self.bits(arena)));
        iter
    }

    /// Vectors with the same bits set hash alike, and vectors that hash
    /// alike have the same bits set.
    pub proof fn lemma_hash_words(&self, arena: &WordArena, other: &BitVec, other_arena: &WordArena)
        requires
            self.wf(arena),
            other.wf(other_arena),
        ensures
            same_members(self.bits(arena), other.bits(other_arena)) <==> trimmed(self.words(arena))
                == trimmed(other.words(other_arena)),
    {
        let a = self.words(arena);
        let b = other.words(other_arena);
        self.lemma_words_bits(arena);
        other.lemma_words_bits(other_arena);
        if same_members(self.bits(arena), other.bits(other_arena)) {
            assert forall|j: int| word_at(a, j) == word_at(b, j) by {
                lemma_words_ext(a, b, j);
            }
            lemma_trimmed_ext(a, b);
        }
        if trimmed(a) == trimmed(b) {
            lemma_significant(a);
            lemma_significant(b);
            assert(trimmed(a).len() == significant(a));
            assert(trimmed(b).len() == significant(b));
            assert forall|i: int| bit_of(a, i) == bit_of(b, i) by {
                let j = i / 64;
                if 0 <= i {
                    if j < significant(a) {
                        assert(trimmed(a)[j] == a[j]);
                        assert(trimmed(b)[j] == b[j]);
                    } else {
                        assert(word_at(a, j) == 0);
                        assert(word_at(b, j) == 0);
                    }
                }
            }
        }
    }
}

impl Default for BitVec {
    /// The empty vector without capacity.
    fn default() -> (v: BitVec)
        ensures
            v.spec_len() == 0,
            v.run() == Run::dangling(),
    {
        BitVec::new()
    }
}

/// Word `i` of `words`, zero past the end.
fn word_or_zero(words: &[u64], i: usize) -> (word: u64)
    ensures
        word == word_at(words@, i as int),
{
    if i < words.len() {
        words[i]
    } else {
        0
    }
}

/// The accumulated word is not zero exactly when one of the first `n` words
/// of `b` had a bit that `a` lacked.
spec fn changed_iff(any_new: u64, a: Seq<u64>, b: Seq<u64>, n: int) -> bool {
    any_new != 0 <==> exists|j: int| 0 <= j < n && #[trigger] fresh_bits(a, b, j) != 0
}

} // verus!
