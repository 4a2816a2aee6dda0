//! The mathematics of a bit vector: a finite sequence of bits, read as the set
//! of the indices at which a bit is set.
//!
//! Equality, order and hashing look at that set alone. A vector of five clear
//! bits is equal to the empty vector, precedes nothing and is preceded by every
//! vector with a bit set.

use crate::bits::{
    bit_of, clean, lemma_bit_mask, lemma_bit_ones, lemma_bit_zero, lemma_bits_clean,
    lemma_clean_bits, lemma_low_mask, lemma_mask_keeps, low_mask, word_at, words_for,
};
use vstd::prelude::*;

verus! {

/// Bit `i` of `s`, clear outside the sequence.
pub open spec fn bit_at(s: Seq<bool>, i: int) -> bool {
    0 <= i < s.len() && s[i]
}

/// The indices at which `s` has a bit set.
pub open spec fn members(s: Seq<bool>) -> Set<int> {
    Set::new(|i: int| bit_at(s, i))
}

/// `a` and `b` have the same bits set. Their lengths may differ.
pub open spec fn same_members(a: Seq<bool>, b: Seq<bool>) -> bool {
    forall|i: int| bit_at(a, i) == bit_at(b, i)
}

/// `b` has a bit set that `a` lacks.
pub open spec fn gains(a: Seq<bool>, b: Seq<bool>) -> bool {
    exists|i: int| bit_at(b, i) && !bit_at(a, i)
}

/// The union of two bit sequences: as long as the longer, with a bit set
/// where either has it set.
pub open spec fn union_bits(a: Seq<bool>, b: Seq<bool>) -> Seq<bool> {
    Seq::new(
        if a.len() >= b.len() {
            a.len()
        } else {
            b.len()
        },
        |i: int| bit_at(a, i) || bit_at(b, i),
    )
}

/// `s` cut or extended to `n` bits. New bits are filled word by word: those
/// in words that held no bit before are `fill`; those that share the last
/// word of `s` with bits of `s` are clear.
pub open spec fn resized(s: Seq<bool>, n: nat, fill: bool) -> Seq<bool> {
    Seq::new(
        n,
        |i: int|
            if i < s.len() {
                s[i]
            } else if i < 64 * words_for(s.len() as int) {
                false
            } else {
                fill
            },
    )
}

/// Word `j` of a vector of `old_len` bits after it was resized to `new_len`
/// bits: kept where it held bits and still does, the fill where it comes into
/// use, and zero where it is out of use. The last word in use, where the
/// new length ends inside it, is cut to the new length.
pub open spec fn resized_word(ws: Seq<u64>, old_len: int, new_len: int, fill: bool, j: int) -> u64 {
    if j < words_for(old_len) && j < words_for(new_len) {
        if j == new_len / 64 && new_len % 64 != 0 {
            word_at(ws, j) & low_mask((new_len % 64) as u64)
        } else {
            word_at(ws, j)
        }
    } else if j < words_for(new_len) {
        if !fill {
            0
        } else if j == new_len / 64 {
            low_mask((new_len % 64) as u64)
        } else {
            !0u64
        }
    } else {
        0
    }
}

/// The `capacity` words of a vector after a resize.
pub open spec fn resized_words(
    ws: Seq<u64>,
    old_len: int,
    new_len: int,
    fill: bool,
    capacity: nat,
) -> Seq<u64> {
    Seq::new(capacity, |j: int| resized_word(ws, old_len, new_len, fill, j))
}

/// The capacity, in words, after room for `needed` words was asked of a
/// vector that had `capacity`: unchanged where that is enough, else the
/// larger of `needed` and twice the old capacity.
pub open spec fn grown(capacity: nat, needed: nat) -> nat {
    if needed <= capacity {
        capacity
    } else if needed >= 2 * capacity {
        needed
    } else {
        2 * capacity
    }
}

/// `k` is the lowest index at which `a` and `b` differ.
pub open spec fn first_difference(a: Seq<bool>, b: Seq<bool>, k: int) -> bool {
    &&& 0 <= k
    &&& bit_at(a, k) != bit_at(b, k)
    &&& forall|j: int| 0 <= j < k ==> bit_at(a, j) == bit_at(b, j)
}

/// The order of bit vectors: `a` precedes `b` when, at the lowest index at
/// which they differ, the bit is set in `a`.
///
/// Indices are compared from 0 upward, and the vector that has the lowest
/// disputed index comes first. This is not the order of the numbers that the
/// bits would spell: `{0}` precedes `{1}`, `{0, 2}` precedes `{1}`, and
/// `{0, 5}` precedes `{0}`. The vector without a set bit precedes none and is
/// preceded by every other.
pub open spec fn precedes(a: Seq<bool>, b: Seq<bool>) -> bool {
    exists|k: int| first_difference(a, b, k) && bit_at(a, k)
}

/// The bits of the first `n` positions of a sequence of words.
pub open spec fn bits_of_words(ws: Seq<u64>, n: nat) -> Seq<bool> {
    Seq::new(n, |i: int| bit_of(ws, i))
}

/// The number of words of `ws` up to and including its last word that is not
/// zero.
pub open spec fn significant(ws: Seq<u64>) -> nat
    decreases ws.len(),
{
    if ws.len() == 0 {
        0
    } else if ws.last() != 0 {
        ws.len()
    } else {
        significant(ws.drop_last())
    }
}

/// `ws` without its trailing zero words.
pub open spec fn trimmed(ws: Seq<u64>) -> Seq<u64> {
    ws.take(significant(ws) as int)
}

/// Union does not depend on the order of its operands.
pub proof fn lemma_union_commutative(a: Seq<bool>, b: Seq<bool>)
    ensures
        union_bits(a, b) == union_bits(b, a),
        same_members(union_bits(a, b), union_bits(b, a)),
{
    assert(union_bits(a, b) =~= union_bits(b, a));
}

/// Union does not depend on how its operands are grouped.
pub proof fn lemma_union_associative(a: Seq<bool>, b: Seq<bool>, c: Seq<bool>)
    ensures
        union_bits(a, union_bits(b, c)) == union_bits(union_bits(a, b), c),
        same_members(union_bits(a, union_bits(b, c)), union_bits(union_bits(a, b), c)),
{
    assert(union_bits(a, union_bits(b, c)) =~= union_bits(union_bits(a, b), c));
}

/// The union has exactly the members of both operands.
pub proof fn lemma_union_members(a: Seq<bool>, b: Seq<bool>)
    ensures
        members(union_bits(a, b)) == members(a).union(members(b)),
        forall|i: int| bit_at(union_bits(a, b), i) == (bit_at(a, i) || bit_at(b, i)),
{
    assert(members(union_bits(a, b)) =~= members(a).union(members(b)));
}

/// Union with `b` changes the members of `a` exactly when `b` has a bit that
/// `a` lacks.
pub proof fn lemma_union_changes(a: Seq<bool>, b: Seq<bool>)
    ensures
        gains(a, b) <==> !same_members(union_bits(a, b), a),
{
    let u = union_bits(a, b);
    if gains(a, b) {
        let i = choose|i: int| bit_at(b, i) && !bit_at(a, i);
        assert(bit_at(u, i) != bit_at(a, i));
    }
    if !same_members(u, a) {
        let i = choose|i: int| bit_at(u, i) != bit_at(a, i);
        assert(bit_at(b, i) && !bit_at(a, i));
    }
}

/// Union with a sequence whose members `a` already has changes no member.
pub proof fn lemma_union_absorbs(a: Seq<bool>, b: Seq<bool>)
    ensures
        !gains(union_bits(a, b), b),
        same_members(union_bits(union_bits(a, b), b), union_bits(a, b)),
{
    lemma_union_changes(union_bits(a, b), b);
}

/// Resizing to the length that a sequence has changes nothing, whatever the
/// fill. So a second resize to the same length is without effect.
pub proof fn lemma_resize_same_len(s: Seq<bool>, fill: bool)
    ensures
        resized(s, s.len(), fill) == s,
{
    assert(resized(s, s.len(), fill) =~= s);
}

/// A second resize to the same length changes no bit.
pub proof fn lemma_resize_twice(s: Seq<bool>, n: nat, fill: bool, again: bool)
    ensures
        resized(resized(s, n, fill), n, again) == resized(s, n, fill),
{
    lemma_resize_same_len(resized(s, n, fill), again);
}

/// A second resize to the same length leaves every word as it is.
pub proof fn lemma_resize_twice_words(
    ws: Seq<u64>,
    old_len: nat,
    n: nat,
    fill: bool,
    again: bool,
    capacity: nat,
)
    ensures
        resized_words(
            resized_words(ws, old_len as int, n as int, fill, capacity),
            n as int,
            n as int,
            again,
            capacity,
        ) == resized_words(ws, old_len as int, n as int, fill, capacity),
{
    let once = resized_words(ws, old_len as int, n as int, fill, capacity);
    let twice = resized_words(once, n as int, n as int, again, capacity);
    let m = (n % 64) as u64;
    assert forall|j: int| 0 <= j < capacity implies twice[j] == once[j] by {
        lemma_mask_keeps(word_at(ws, j), m);
    }
    assert(twice =~= once);
}

/// The capacity that one request settled is enough for the same request.
pub proof fn lemma_grown_twice(capacity: nat, needed: nat)
    ensures
        grown(grown(capacity, needed), needed) == grown(capacity, needed),
        grown(capacity, needed) >= needed,
        grown(capacity, needed) >= capacity,
{
}

/// Growing `s` and then cutting back to a length `n` that `s` had reached
/// gives what cutting `s` to `n` gives: the bits below `n` are those that
/// were there. Cutting back to the length of `s` gives `s`.
pub proof fn lemma_resize_round_trip(s: Seq<bool>, m: nat, n: nat, fill: bool, again: bool)
    requires
        n <= s.len(),
        s.len() <= m,
    ensures
        resized(resized(s, m, fill), n, again) == s.take(n as int),
        n == s.len() ==> resized(resized(s, m, fill), n, again) == s,
{
    assert(resized(resized(s, m, fill), n, again) =~= s.take(n as int));
    assert(s.take(s.len() as int) =~= s);
}

/// Where two sequences differ at all, there is a lowest index at which they
/// differ.
pub proof fn lemma_first_difference(a: Seq<bool>, b: Seq<bool>, i: int)
    requires
        0 <= i,
        bit_at(a, i) != bit_at(b, i),
    ensures
        exists|k: int| 0 <= k <= i && first_difference(a, b, k),
    decreases i,
{
    if exists|j: int| 0 <= j < i && bit_at(a, j) != bit_at(b, j) {
        let j = choose|j: int| 0 <= j < i && bit_at(a, j) != bit_at(b, j);
        lemma_first_difference(a, b, j);
    } else {
        assert(first_difference(a, b, i));
    }
}

/// The lowest index at which two sequences differ is unique.
pub proof fn lemma_first_difference_unique(a: Seq<bool>, b: Seq<bool>, k: int, l: int)
    requires
        first_difference(a, b, k),
        first_difference(a, b, l),
    ensures
        k == l,
{
}

/// No vector precedes itself, nor one with the same members.
pub proof fn lemma_precedes_irreflexive(a: Seq<bool>, b: Seq<bool>)
    requires
        same_members(a, b),
    ensures
        !precedes(a, b),
        !precedes(b, a),
{
}

/// Of two vectors at most one precedes the other.
pub proof fn lemma_precedes_asymmetric(a: Seq<bool>, b: Seq<bool>)
    requires
        precedes(a, b),
    ensures
        !precedes(b, a),
{
    let k = choose|k: int| first_difference(a, b, k) && bit_at(a, k);
    if precedes(b, a) {
        let l = choose|l: int| first_difference(b, a, l) && bit_at(b, l);
        assert(first_difference(a, b, l));
        lemma_first_difference_unique(a, b, k, l);
    }
}

/// What precedes a vector precedes everything that the vector precedes.
pub proof fn lemma_precedes_transitive(a: Seq<bool>, b: Seq<bool>, c: Seq<bool>)
    requires
        precedes(a, b),
        precedes(b, c),
    ensures
        precedes(a, c),
{
    let k = choose|k: int| first_difference(a, b, k) && bit_at(a, k);
    let l = choose|l: int| first_difference(b, c, l) && bit_at(b, l);
    if k <= l {
        assert(first_difference(a, c, k) && bit_at(a, k));
    } else {
        assert(first_difference(a, c, l) && bit_at(a, l));
    }
}

/// Of two vectors exactly one holds: they have the same members, the first
/// precedes the second, or the second precedes the first. So vectors are
/// equal exactly when neither precedes the other.
pub proof fn lemma_precedes_total(a: Seq<bool>, b: Seq<bool>)
    ensures
        same_members(a, b) || precedes(a, b) || precedes(b, a),
        !(same_members(a, b) && precedes(a, b)),
        !(same_members(a, b) && precedes(b, a)),
        !(precedes(a, b) && precedes(b, a)),
        same_members(a, b) <==> !precedes(a, b) && !precedes(b, a),
{
    if precedes(a, b) {
        lemma_precedes_asymmetric(a, b);
    }
    if !same_members(a, b) {
        let i = choose|i: int| bit_at(a, i) != bit_at(b, i);
        lemma_first_difference(a, b, i);
        let k = choose|k: int| 0 <= k <= i && first_difference(a, b, k);
        if bit_at(a, k) {
            assert(first_difference(a, b, k) && bit_at(a, k));
        } else {
            assert(first_difference(b, a, k) && bit_at(b, k));
        }
    }
}

/// The order sees members only: it cannot tell apart vectors with the same
/// members.
pub proof fn lemma_precedes_members(a: Seq<bool>, b: Seq<bool>, c: Seq<bool>)
    requires
        same_members(a, b),
    ensures
        precedes(a, c) == precedes(b, c),
        precedes(c, a) == precedes(c, b),
{
    if precedes(a, c) {
        let k = choose|k: int| first_difference(a, c, k) && bit_at(a, k);
        assert(first_difference(b, c, k) && bit_at(b, k));
    }
    if precedes(b, c) {
        let k = choose|k: int| first_difference(b, c, k) && bit_at(b, k);
        assert(first_difference(a, c, k) && bit_at(a, k));
    }
    if precedes(c, a) {
        let k = choose|k: int| first_difference(c, a, k) && bit_at(c, k);
        assert(first_difference(c, b, k) && bit_at(c, k));
    }
    if precedes(c, b) {
        let k = choose|k: int| first_difference(c, b, k) && bit_at(c, k);
        assert(first_difference(c, a, k) && bit_at(c, k));
    }
}

/// The lowest index at which two vectors differ decides their order: the
/// vector that has the bit set there precedes the other.
pub proof fn lemma_precedes_at(a: Seq<bool>, b: Seq<bool>, k: int)
    requires
        first_difference(a, b, k),
    ensures
        precedes(a, b) <==> bit_at(a, k),
        precedes(b, a) <==> bit_at(b, k),
{
    if bit_at(a, k) {
        assert(first_difference(a, b, k) && bit_at(a, k));
    } else {
        assert(first_difference(b, a, k) && bit_at(b, k));
    }
    lemma_precedes_total(a, b);
}

/// What `significant` counts: it ends at a word that is not zero, and zero
/// words alone follow.
pub proof fn lemma_significant(ws: Seq<u64>)
    ensures
        significant(ws) <= ws.len(),
        significant(ws) > 0 ==> ws[significant(ws) - 1] != 0,
        forall|j: int| significant(ws) <= j < ws.len() ==> ws[j] == 0,
    decreases ws.len(),
{
    if ws.len() > 0 && ws.last() == 0 {
        let front = ws.drop_last();
        lemma_significant(front);
        assert forall|j: int| significant(ws) <= j < ws.len() implies ws[j] == 0 by {
            if j < front.len() {
                assert(front[j] == 0);
            }
        }
    }
}

/// Sequences of words that agree word for word, zero words past the end
/// counted in, are the same once trimmed.
pub proof fn lemma_trimmed_ext(a: Seq<u64>, b: Seq<u64>)
    requires
        forall|j: int| word_at(a, j) == word_at(b, j),
    ensures
        trimmed(a) == trimmed(b),
{
    lemma_significant(a);
    lemma_significant(b);
    let n = significant(a);
    let m = significant(b);
    if n > 0 {
        assert(word_at(a, n - 1) == word_at(b, n - 1));
    }
    if m > 0 {
        assert(word_at(a, m - 1) == word_at(b, m - 1));
    }
    assert(n == m);
    assert forall|j: int| 0 <= j < n implies trimmed(a)[j] == trimmed(b)[j] by {
        assert(word_at(a, j) == word_at(b, j));
    }
    assert(trimmed(a) =~= trimmed(b));
}

/// What a resize does to the words is what [`resized`] says of the bits, and
/// it leaves no bit set at or past the new length.
pub proof fn lemma_resized_words(
    ws: Seq<u64>,
    old_len: nat,
    new_len: nat,
    fill: bool,
    capacity: nat,
)
    requires
        clean(ws, old_len as int),
        old_len <= 64 * ws.len(),
        new_len <= 64 * capacity,
    ensures
        bits_of_words(resized_words(ws, old_len as int, new_len as int, fill, capacity), new_len)
            == resized(bits_of_words(ws, old_len), new_len, fill),
        clean(resized_words(ws, old_len as int, new_len as int, fill, capacity), new_len as int),
{
    let after = resized_words(ws, old_len as int, new_len as int, fill, capacity);
    let before_bits = bits_of_words(ws, old_len);
    let m = (new_len % 64) as u64;
    lemma_low_mask(m);
    assert forall|i: int| 0 <= i implies bit_of(after, i) == (i < new_len && if i < 64 * words_for(
        old_len as int,
    ) {
        bit_at(before_bits, i)
    } else {
        fill
    }) by {
        let j = i / 64;
        let k = (i % 64) as u64;
        lemma_bit_zero(k);
        if j < words_for(new_len as int) {
            assert(j < capacity);
            if j < words_for(old_len as int) {
                if i >= old_len {
                    lemma_clean_bits(ws, old_len as int, i);
                }
                if j == new_len / 64 && m != 0 {
                    lemma_bit_mask(word_at(ws, j), m, k);
                }
            } else if !fill {
            } else if j == new_len / 64 {
                lemma_bit_mask(!0u64, m, k);
                lemma_bit_ones(k);
            } else {
                lemma_bit_ones(k);
            }
        }
    }
    assert(bits_of_words(after, new_len) =~= resized(before_bits, new_len, fill));
    lemma_bits_clean(after, new_len as int);
}

} // verus!
