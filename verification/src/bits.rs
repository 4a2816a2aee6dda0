//! Bits inside 64-bit words, and words inside sequences of words.
//!
//! Bit `k` of a word is the bit of weight `2^k`. Bit `i` of a sequence of
//! words is bit `i % 64` of word `i / 64`; past the end every bit is clear.

use vstd::prelude::*;

verus! {

/// Bit `k` of `w` is set.
pub open spec fn bit(w: u64, k: u64) -> bool {
    (w >> k) & 1 == 1
}

/// `w` has no bit at position `m` or above.
pub open spec fn below(w: u64, m: u64) -> bool {
    w >> m == 0
}

/// `w` with bit `k` set or cleared.
pub open spec fn with_bit(w: u64, k: u64, value: bool) -> u64 {
    if value {
        w | (1u64 << k)
    } else {
        w & !(1u64 << k)
    }
}

/// The word whose bits below `m` are set and no others.
pub open spec fn low_mask(m: u64) -> u64 {
    ((1u64 << m) - 1) as u64
}

/// Word `j` of `ws`, zero past the end.
pub open spec fn word_at(ws: Seq<u64>, j: int) -> u64 {
    if 0 <= j < ws.len() {
        ws[j]
    } else {
        0
    }
}

/// Bit `i` of `ws`, clear past the end.
pub open spec fn bit_of(ws: Seq<u64>, i: int) -> bool {
    0 <= i && bit(word_at(ws, i / 64), (i % 64) as u64)
}

/// The bits that word `j` of `b` has and word `j` of `a` lacks.
pub open spec fn fresh_bits(a: Seq<u64>, b: Seq<u64>, j: int) -> u64 {
    word_at(b, j) & !word_at(a, j)
}

/// The number of words that hold `n` bits.
pub open spec fn words_for(n: int) -> int {
    (n + 63) / 64
}

/// No bit of `ws` at index `n` or above is set, said of whole words: the words
/// past those that hold `n` bits are zero, and a last word that is only partly
/// in use has no bit above its part.
pub open spec fn clean(ws: Seq<u64>, n: int) -> bool {
    &&& forall|j: int| words_for(n) <= j < ws.len() ==> #[trigger] ws[j] == 0
    &&& n % 64 != 0 && n / 64 < ws.len() ==> below(ws[n / 64], (n % 64) as u64)
}

/// Zero has no bit set.
pub proof fn lemma_bit_zero(k: u64)
    ensures
        !bit(0, k),
{
    assert((0u64 >> k) & 1 != 1) by (bit_vector);
}

/// The complement of zero has every bit set.
pub proof fn lemma_bit_ones(k: u64)
    requires
        k < 64,
    ensures
        bit(!0u64, k),
{
    assert((!0u64 >> k) & 1 == 1) by (bit_vector)
        requires
            k < 64,
    ;
}

/// What a shift and a mask read is the bit.
pub proof fn lemma_bit_test(w: u64, k: u64)
    ensures
        ((w >> k) & 1 != 0) == bit(w, k),
{
    assert(((w >> k) & 1 != 0) == ((w >> k) & 1 == 1)) by (bit_vector);
}

/// Setting bit `k` changes that bit and no other.
pub proof fn lemma_bit_set(w: u64, k: u64, j: u64)
    requires
        k < 64,
        j < 64,
    ensures
        bit(w | (1u64 << k), j) == (j == k || bit(w, j)),
{
    assert((((w | (1u64 << k)) >> j) & 1 == 1) == (j == k || (w >> j) & 1 == 1)) by (bit_vector)
        requires
            k < 64,
            j < 64,
    ;
}

/// Clearing bit `k` changes that bit and no other.
pub proof fn lemma_bit_clear(w: u64, k: u64, j: u64)
    requires
        k < 64,
        j < 64,
    ensures
        bit(w & !(1u64 << k), j) == (j != k && bit(w, j)),
{
    assert((((w & !(1u64 << k)) >> j) & 1 == 1) == (j != k && (w >> j) & 1 == 1)) by (bit_vector)
        requires
            k < 64,
            j < 64,
    ;
}

/// Writing to a bit the value that it has changes nothing.
pub proof fn lemma_with_bit_same(w: u64, k: u64, value: bool)
    requires
        k < 64,
        bit(w, k) == value,
    ensures
        with_bit(w, k, value) == w,
{
    assert(((w >> k) & 1 == 1 ==> w | (1u64 << k) == w) && ((w >> k) & 1 != 1 ==> w & !(1u64 << k)
        == w)) by (bit_vector)
        requires
            k < 64,
    ;
}

/// Writing a bit changes that bit and no other.
pub proof fn lemma_with_bit(w: u64, k: u64, value: bool, j: u64)
    requires
        k < 64,
        j < 64,
    ensures
        bit(with_bit(w, k, value), j) == (if j == k {
            value
        } else {
            bit(w, j)
        }),
{
    lemma_bit_set(w, k, j);
    lemma_bit_clear(w, k, j);
}

/// The bits of an or are the bits of either operand.
pub proof fn lemma_bit_or(a: u64, b: u64, j: u64)
    ensures
        bit(a | b, j) == (bit(a, j) || bit(b, j)),
{
    assert((((a | b) >> j) & 1 == 1) == ((a >> j) & 1 == 1 || (b >> j) & 1 == 1)) by (bit_vector);
}

/// The bits that `a` has and `b` lacks.
pub proof fn lemma_bit_and_not(a: u64, b: u64, j: u64)
    ensures
        bit(a & !b, j) == (bit(a, j) && !bit(b, j)),
{
    assert((((a & !b) >> j) & 1 == 1) == ((a >> j) & 1 == 1 && (b >> j) & 1 != 1)) by (bit_vector);
}

/// An accumulated or is zero exactly when every part is.
pub proof fn lemma_or_zero(a: u64, b: u64)
    ensures
        a | b == 0 <==> a == 0 && b == 0,
{
    assert(a | b == 0 <==> a == 0 && b == 0) by (bit_vector);
}

/// The bits of an exclusive or are the bits in which the operands differ.
pub proof fn lemma_bit_xor(a: u64, b: u64, j: u64)
    ensures
        bit(a ^ b, j) == (bit(a, j) != bit(b, j)),
{
    assert((((a ^ b) >> j) & 1 == 1) == (((a >> j) & 1 == 1) != ((b >> j) & 1 == 1)))
        by (bit_vector);
}

/// A shifted one is not zero, so the mask below it can be formed.
pub proof fn lemma_low_mask(m: u64)
    requires
        m < 64,
    ensures
        1u64 << m >= 1,
        low_mask(m) == (1u64 << m) - 1,
        !0u64 & low_mask(m) == low_mask(m),
        below(0, m),
{
    assert(1u64 << m >= 1 && 0u64 >> m == 0) by (bit_vector)
        requires
            m < 64,
    ;
    let x = low_mask(m);
    assert(!0u64 & x == x) by (bit_vector);
}

/// Masking with `(1 << m) - 1` keeps the bits below `m` and clears the rest.
pub proof fn lemma_bit_mask(w: u64, m: u64, j: u64)
    requires
        m < 64,
        j < 64,
    ensures
        bit(w & low_mask(m), j) == (j < m && bit(w, j)),
        below(w & low_mask(m), m),
{
    assert((((w & (((1u64 << m) - 1) as u64)) >> j) & 1 == 1) == (j < m && (w >> j) & 1 == 1) && (w
        & (((1u64 << m) - 1) as u64)) >> m == 0) by (bit_vector)
        requires
            m < 64,
            j < 64,
    ;
}

/// Masking a word that is below `m` changes nothing, and so does masking a
/// second time.
pub proof fn lemma_mask_keeps(w: u64, m: u64)
    requires
        m < 64,
    ensures
        below(w, m) ==> w & low_mask(m) == w,
        (w & low_mask(m)) & low_mask(m) == w & low_mask(m),
        low_mask(m) & low_mask(m) == low_mask(m),
        0u64 & low_mask(m) == 0,
{
    let x = low_mask(m);
    assert(w >> m == 0 ==> w & x == w) by (bit_vector)
        requires
            m < 64,
            x == low_mask(m),
    ;
    assert((w & x) & x == w & x && x & x == x && 0u64 & x == 0) by (bit_vector);
}

/// A word below `m` has no bit at `m` or above, and is below every larger
/// position.
pub proof fn lemma_below(w: u64, m: u64, j: u64)
    requires
        below(w, m),
        m <= j < 64,
    ensures
        !bit(w, j),
        below(w, j),
{
    assert((w >> j) & 1 != 1 && w >> j == 0) by (bit_vector)
        requires
            w >> m == 0,
            m <= j < 64,
    ;
}

/// Setting a bit below `m` keeps a word below `m`.
pub proof fn lemma_below_set(w: u64, m: u64, k: u64)
    requires
        below(w, m),
        k < m < 64,
    ensures
        below(w | (1u64 << k), m),
{
    assert((w | (1u64 << k)) >> m == 0) by (bit_vector)
        requires
            w >> m == 0,
            k < m < 64,
    ;
}

/// Clearing a bit keeps a word below `m`.
pub proof fn lemma_below_clear(w: u64, m: u64, k: u64)
    requires
        below(w, m),
        k < 64,
        m < 64,
    ensures
        below(w & !(1u64 << k), m),
{
    assert((w & !(1u64 << k)) >> m == 0) by (bit_vector)
        requires
            w >> m == 0,
            k < 64,
            m < 64,
    ;
}

/// Clearing the topmost bit that may be set lowers the bound by one. At
/// position 63 nothing is known of the word beforehand.
pub proof fn lemma_below_drop(w: u64, k: u64)
    requires
        k < 64,
        k < 63 ==> below(w, (k + 1) as u64),
    ensures
        below(w & !(1u64 << k), k),
        k == 0 ==> w & !(1u64 << k) == 0,
{
    assert((w & !(1u64 << k)) >> k == 0 && (k == 0 ==> w & !(1u64 << k) == 0)) by (bit_vector)
        requires
            k < 64,
            k < 63 ==> w >> ((k + 1) as u64) == 0,
    ;
}

/// Two words with the same bits are the same word.
pub proof fn lemma_word_ext(a: u64, b: u64)
    requires
        forall|k: u64| k < 64 ==> bit(a, k) == bit(b, k),
    ensures
        a == b,
{
    if a != b {
        let x = a ^ b;
        assert(x != 0) by (bit_vector)
            requires
                x == a ^ b,
                a != b,
        ;
        vstd::std_specs::bits::axiom_u64_trailing_zeros(x);
        let t = x.trailing_zeros() as u64;
        assert(t < 64);
        assert(bit(x, t));
        lemma_bit_xor(a, b, t);
        assert(bit(a, t) == bit(b, t));
    }
}

/// A word that is not zero has its lowest set bit at `trailing_zeros`.
pub proof fn lemma_lowest_bit(w: u64)
    requires
        w != 0,
    ensures
        w.trailing_zeros() < 64,
        bit(w, w.trailing_zeros() as u64),
        forall|j: u64| j < w.trailing_zeros() ==> !bit(w, j),
{
    vstd::std_specs::bits::axiom_u64_trailing_zeros(w);
    let t = w.trailing_zeros();
    assert forall|j: u64| j < t implies !bit(w, j) by {
        assert((w >> j) & 1u64 == 0u64);
    }
}

/// `w & (w - 1)` is `w` without its lowest set bit.
pub proof fn lemma_clear_lowest(w: u64, j: u64)
    requires
        w != 0,
        j < 64,
    ensures
        bit(w & ((w - 1) as u64), j) == (bit(w, j) && j != w.trailing_zeros()),
{
    lemma_lowest_bit(w);
    let t = w.trailing_zeros() as u64;
    vstd::std_specs::bits::axiom_u64_trailing_zeros(w);
    let s = (64 - t) as u64;
    assert(w << s == 0);
    assert(w & ((w - 1) as u64) == w & !(1u64 << t)) by (bit_vector)
        requires
            w != 0,
            t < 64,
            (w >> t) & 1 == 1,
            s == 64 - t,
            w << s == 0,
    ;
    lemma_bit_clear(w, t, j);
}

/// A clean sequence of words has no bit set at index `n` or above.
pub proof fn lemma_clean_bits(ws: Seq<u64>, n: int, i: int)
    requires
        0 <= n,
        clean(ws, n),
        n <= i,
    ensures
        !bit_of(ws, i),
{
    let j = i / 64;
    let k = (i % 64) as u64;
    if j >= ws.len() {
        lemma_bit_zero(k);
    } else if j >= words_for(n) {
        assert(ws[j] == 0);
        lemma_bit_zero(k);
    } else {
        assert(j == n / 64);
        assert(n % 64 != 0);
        lemma_below(ws[j], (n % 64) as u64, k);
    }
}

/// The other direction: where no bit at index `n` or above is set, the words
/// are clean.
pub proof fn lemma_bits_clean(ws: Seq<u64>, n: int)
    requires
        0 <= n,
        forall|i: int| n <= i ==> !bit_of(ws, i),
    ensures
        clean(ws, n),
{
    assert forall|j: int| words_for(n) <= j < ws.len() implies #[trigger] ws[j] == 0 by {
        assert forall|k: u64| k < 64 implies bit(ws[j], k) == bit(0, k) by {
            lemma_bit_zero(k);
            let i = j * 64 + k;
            assert(i / 64 == j && i % 64 == k);
            assert(!bit_of(ws, i));
        }
        lemma_word_ext(ws[j], 0);
    }
    if n % 64 != 0 && n / 64 < ws.len() {
        let w = ws[n / 64];
        let m = (n % 64) as u64;
        assert forall|k: u64| k < 64 implies bit(w, k) == bit(w & low_mask(m), k) by {
            lemma_bit_mask(w, m, k);
            if k >= m {
                let i = (n / 64) * 64 + k;
                assert(i / 64 == n / 64 && i % 64 == k);
                assert(!bit_of(ws, i));
            }
        }
        lemma_word_ext(w, w & low_mask(m));
        lemma_bit_mask(w, m, 0);
    }
}

/// Sequences of words with the same bits hold the same words, zero words past
/// the end counted in.
pub proof fn lemma_words_ext(a: Seq<u64>, b: Seq<u64>, j: int)
    requires
        forall|i: int| bit_of(a, i) == bit_of(b, i),
    ensures
        word_at(a, j) == word_at(b, j),
{
    if j >= 0 {
        assert forall|k: u64| k < 64 implies bit(word_at(a, j), k) == bit(word_at(b, j), k) by {
            let i = j * 64 + k;
            assert(i / 64 == j && i % 64 == k);
            assert(bit_of(a, i) == bit_of(b, i));
        }
        lemma_word_ext(word_at(a, j), word_at(b, j));
    }
}

/// Some word of `b` has a bit that the same word of `a` lacks exactly when
/// `b` has a bit set that `a` has clear.
pub proof fn lemma_fresh_bits(a: Seq<u64>, b: Seq<u64>)
    ensures
        (exists|j: int| 0 <= j < b.len() && #[trigger] fresh_bits(a, b, j) != 0)
            <==> (exists|i: int|
            bit_of(b, i) && !bit_of(a, i)),
{
    if exists|j: int| 0 <= j < b.len() && #[trigger] fresh_bits(a, b, j) != 0 {
        let j = choose|j: int| 0 <= j < b.len() && #[trigger] fresh_bits(a, b, j) != 0;
        let x = fresh_bits(a, b, j);
        lemma_lowest_bit(x);
        let t = x.trailing_zeros() as u64;
        lemma_bit_and_not(word_at(b, j), word_at(a, j), t);
        let i = 64 * j + t;
        assert(i / 64 == j && i % 64 == t);
        assert(bit_of(b, i) && !bit_of(a, i));
    }
    if exists|i: int| bit_of(b, i) && !bit_of(a, i) {
        let i = choose|i: int| bit_of(b, i) && !bit_of(a, i);
        let j = i / 64;
        let k = (i % 64) as u64;
        lemma_bit_and_not(word_at(b, j), word_at(a, j), k);
        lemma_bit_zero(k);
        if j >= b.len() {
            assert(false);
        }
        assert(fresh_bits(a, b, j) != 0);
    }
}

} // verus!
