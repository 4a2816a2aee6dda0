use arena_bitvec::bitvec::words_needed;
use arena_bitvec::{BitVec, Run, SetBitsIter, WordArena};
use std::cmp::Ordering;

fn with_bits(arena: &mut WordArena, len: usize, set: &[usize]) -> BitVec {
    let mut v = BitVec::new();
    v.resize(arena, len, false);
    for &i in set {
        v.set(arena, i, true);
    }
    v
}

fn bits_of(v: &BitVec, arena: &WordArena) -> Vec<bool> {
    (0..v.len()).map(|i| v.get(arena, i).unwrap()).collect()
}

#[test]
fn words_needed_rounds_up() {
    assert_eq!(words_needed(0), 0);
    assert_eq!(words_needed(1), 1);
    assert_eq!(words_needed(64), 1);
    assert_eq!(words_needed(65), 2);
    assert_eq!(words_needed(1000), 16);
    assert_eq!(words_needed(usize::MAX), usize::MAX / 64 + 1);
}

#[test]
fn new_vector_is_empty_and_leases_nothing() {
    let mut arena = WordArena::new();
    let v = BitVec::new();
    assert_eq!(v.len(), 0);
    assert_eq!(v.capacity(), 0);
    assert_eq!(v.words_in_use(), 0);
    assert_eq!(v.get(&arena, 0), None);
    assert_eq!(v.last(&arena), None);
    assert_eq!(v.as_slice(&arena).len(), 0);
    assert_eq!(arena.allocate(1), Run { chunk: 0, start: 0, len: 1 });
}

#[test]
fn default_is_the_new_vector() {
    let arena = WordArena::new();
    let v = BitVec::default();
    assert_eq!(v.len(), 0);
    assert_eq!(v.capacity(), 0);
    assert!(v.eq(&arena, &BitVec::new()));
}

#[test]
fn with_capacity_leases_whole_words_and_stays_empty() {
    let mut arena = WordArena::new();
    let a = BitVec::with_capacity(&mut arena, 1000);
    let b = BitVec::with_capacity(&mut arena, 64);
    let c = BitVec::with_capacity(&mut arena, 65);
    let d = BitVec::with_capacity(&mut arena, 0);
    assert_eq!((a.len(), a.capacity()), (0, 16));
    assert_eq!((b.len(), b.capacity()), (0, 1));
    assert_eq!((c.len(), c.capacity()), (0, 2));
    assert_eq!((d.len(), d.capacity()), (0, 0));
    assert_eq!(a.get(&arena, 0), None);
    assert_eq!(arena.allocate(1), Run { chunk: 0, start: 19, len: 1 });
}

#[test]
fn scenario_resize_set_pop_and_union() {
    let mut arena = WordArena::new();
    let mut v = BitVec::new();
    v.resize(&mut arena, 5, false);
    assert_eq!(v.len(), 5);
    assert_eq!(bits_of(&v, &arena), vec![false; 5]);
    v.set(&mut arena, 2, true);
    assert_eq!(v.get(&arena, 2), Some(true));
    assert_eq!(v.get(&arena, 3), Some(false));
    assert_eq!(v.pop(&mut arena), Some(false));
    assert_eq!(v.len(), 4);
    let mut w = BitVec::new();
    w.resize(&mut arena, 3, true);
    assert!(v.insert_all(&mut arena, &w));
    assert_eq!(bits_of(&v, &arena), vec![true, true, true, false]);
    assert!(!v.insert_all(&mut arena, &w));
    assert_eq!(bits_of(&v, &arena), vec![true, true, true, false]);
}

#[test]
fn get_answers_none_past_the_length() {
    let mut arena = WordArena::new();
    let v = with_bits(&mut arena, 70, &[0, 69]);
    assert_eq!(v.get(&arena, 0), Some(true));
    assert_eq!(v.get(&arena, 1), Some(false));
    assert_eq!(v.get(&arena, 69), Some(true));
    assert_eq!(v.get(&arena, 70), None);
    assert_eq!(v.get(&arena, 127), None);
    assert_eq!(v.get(&arena, usize::MAX), None);
}

#[test]
fn index_reads_a_bit() {
    let mut arena = WordArena::new();
    let v = with_bits(&mut arena, 130, &[64, 129]);
    assert!(!v.index(&arena, 0));
    assert!(v.index(&arena, 64));
    assert!(!v.index(&arena, 65));
    assert!(v.index(&arena, 129));
}

#[test]
fn last_is_the_bit_before_the_length() {
    let mut arena = WordArena::new();
    let mut v = with_bits(&mut arena, 65, &[64]);
    assert_eq!(v.last(&arena), Some(true));
    v.pop(&mut arena);
    assert_eq!(v.last(&arena), Some(false));
    v.set(&mut arena, 63, true);
    assert_eq!(v.last(&arena), Some(true));
}

#[test]
fn set_writes_one_bit() {
    let mut arena = WordArena::new();
    let mut v = with_bits(&mut arena, 130, &[]);
    v.set(&mut arena, 0, true);
    v.set(&mut arena, 63, true);
    v.set(&mut arena, 64, true);
    v.set(&mut arena, 129, true);
    assert_eq!(v.as_slice(&arena), &[1u64 | 1 << 63, 1, 2][..]);
    v.set(&mut arena, 63, false);
    v.set(&mut arena, 5, false);
    assert_eq!(v.as_slice(&arena), &[1u64, 1, 2][..]);
    assert_eq!(v.len(), 130);
    assert_eq!(v.capacity(), 3);
}

#[test]
fn set_past_the_length_reaches_the_word_and_not_the_vector() {
    let mut arena = WordArena::new();
    let mut v = BitVec::with_capacity(&mut arena, 64);
    v.resize(&mut arena, 3, false);
    v.set(&mut arena, 10, true);
    assert_eq!(v.len(), 3);
    assert_eq!(v.get(&arena, 10), None);
    assert_eq!(v.as_slice(&arena), &[1u64 << 10][..]);
    v.set(&mut arena, 10, false);
    assert_eq!(v.as_slice(&arena), &[0u64][..]);
    assert!(v.eq(&arena, &BitVec::new()));
}

#[test]
fn resize_fills_new_words() {
    let mut arena = WordArena::new();
    let mut v = BitVec::new();
    v.resize(&mut arena, 70, true);
    assert_eq!(v.len(), 70);
    assert_eq!(v.capacity(), 2);
    assert_eq!(bits_of(&v, &arena), vec![true; 70]);
    assert_eq!(v.as_slice(&arena), &[u64::MAX, 0x3f][..]);
    let mut w = BitVec::new();
    w.resize(&mut arena, 128, true);
    assert_eq!(w.as_slice(&arena), &[u64::MAX, u64::MAX][..]);
    let mut z = BitVec::new();
    z.resize(&mut arena, 70, false);
    assert_eq!(z.as_slice(&arena), &[0u64, 0][..]);
}

#[test]
fn resize_leaves_the_rest_of_a_used_word_clear() {
    let mut arena = WordArena::new();
    let mut v = BitVec::new();
    v.resize(&mut arena, 5, true);
    v.resize(&mut arena, 10, true);
    assert_eq!(
        bits_of(&v, &arena),
        vec![true, true, true, true, true, false, false, false, false, false]
    );
    v.resize(&mut arena, 130, true);
    assert_eq!(v.as_slice(&arena), &[0x1fu64, u64::MAX, 3][..]);
    assert_eq!(v.get(&arena, 63), Some(false));
    assert_eq!(v.get(&arena, 64), Some(true));
    assert_eq!(v.get(&arena, 129), Some(true));
}

#[test]
fn resize_to_fewer_words_clears_them_and_keeps_the_capacity() {
    let mut arena = WordArena::new();
    let mut v = BitVec::new();
    v.resize(&mut arena, 130, true);
    assert_eq!(v.capacity(), 3);
    v.resize(&mut arena, 64, false);
    assert_eq!(v.len(), 64);
    assert_eq!(v.capacity(), 3);
    assert_eq!(v.as_slice(&arena), &[u64::MAX][..]);
    v.resize(&mut arena, 130, false);
    assert_eq!(v.as_slice(&arena), &[u64::MAX, 0, 0][..]);
    v.resize(&mut arena, 0, true);
    assert_eq!(v.len(), 0);
    assert_eq!(v.capacity(), 3);
    v.resize(&mut arena, 192, false);
    assert_eq!(v.as_slice(&arena), &[0u64, 0, 0][..]);
}

#[test]
fn resize_inside_a_word_cuts_the_word() {
    let mut arena = WordArena::new();
    let mut v = BitVec::new();
    v.resize(&mut arena, 10, true);
    v.resize(&mut arena, 5, false);
    assert_eq!(v.len(), 5);
    assert_eq!(v.get(&arena, 4), Some(true));
    assert_eq!(v.get(&arena, 5), None);
    assert_eq!(v.as_slice(&arena), &[0x1fu64][..]);
    assert!(v.is_clean(&arena));
    v.resize(&mut arena, 10, false);
    assert_eq!(v.as_slice(&arena), &[0x1fu64][..]);
    assert_eq!(v.get(&arena, 7), Some(false));
    v.resize(&mut arena, 3, true);
    assert_eq!(v.as_slice(&arena), &[7u64][..]);
}

#[test]
fn cutting_off_a_set_bit_leaves_a_clear_vector() {
    let mut arena = WordArena::new();
    let mut v = BitVec::new();
    v.resize(&mut arena, 10, false);
    v.set(&mut arena, 7, true);
    let mut w = BitVec::new();
    w.resize(&mut arena, 5, false);
    v.resize(&mut arena, 5, false);
    assert_eq!(v.len(), 5);
    assert_eq!(v.as_slice(&arena), &[0u64][..]);
    assert!(v.is_clean(&arena));
    assert!(v.eq(&arena, &w));
    assert_eq!(v.cmp(&arena, &w), Ordering::Equal);
    assert_eq!(v.hash_words(&arena), w.hash_words(&arena));
}

#[test]
fn resize_to_fewer_words_cuts_the_last_word_that_stays() {
    let mut arena = WordArena::new();
    let mut v = BitVec::new();
    v.resize(&mut arena, 200, true);
    v.resize(&mut arena, 70, true);
    assert_eq!(v.len(), 70);
    assert_eq!(v.capacity(), 4);
    assert_eq!(v.as_slice(&arena), &[u64::MAX, 0x3f][..]);
    assert!(v.is_clean(&arena));
    v.resize(&mut arena, 200, false);
    assert_eq!(v.as_slice(&arena), &[u64::MAX, 0x3f, 0, 0][..]);
    v.resize(&mut arena, 1, false);
    assert_eq!(v.as_slice(&arena), &[1u64][..]);
    v.resize(&mut arena, 200, false);
    assert_eq!(v.as_slice(&arena), &[1u64, 0, 0, 0][..]);
}

#[test]
fn shrinking_by_pop_leaves_no_bit_behind() {
    let mut arena = WordArena::new();
    let mut v = BitVec::new();
    v.resize(&mut arena, 10, true);
    for _ in 0..5 {
        assert_eq!(v.pop(&mut arena), Some(true));
    }
    assert_eq!(v.len(), 5);
    assert_eq!(v.as_slice(&arena), &[0x1fu64][..]);
    v.resize(&mut arena, 10, false);
    assert_eq!(v.as_slice(&arena), &[0x1fu64][..]);
}

#[test]
fn capacity_grows_to_the_need_or_doubles() {
    let mut arena = WordArena::new();
    let mut v = BitVec::new();
    v.resize(&mut arena, 1, false);
    assert_eq!(v.capacity(), 1);
    v.resize(&mut arena, 65, false);
    assert_eq!(v.capacity(), 2);
    v.resize(&mut arena, 129, false);
    assert_eq!(v.capacity(), 4);
    v.resize(&mut arena, 200, false);
    assert_eq!(v.capacity(), 4);
    v.resize(&mut arena, 64 * 9, false);
    assert_eq!(v.capacity(), 9);
    v.resize(&mut arena, 64 * 9 + 1, false);
    assert_eq!(v.capacity(), 18);
}

#[test]
fn growing_moves_the_words_and_returns_the_old_run() {
    let mut arena = WordArena::new();
    let mut v = with_bits(&mut arena, 64, &[3, 60]);
    assert_eq!(v.capacity(), 1);
    v.resize(&mut arena, 100, false);
    assert_eq!(v.capacity(), 2);
    assert_eq!(v.as_slice(&arena), &[1u64 << 3 | 1 << 60, 0][..]);
    let reused = arena.allocate(1);
    assert_eq!(reused, Run { chunk: 0, start: 0, len: 1 });
    assert_eq!(arena.load(reused, 0), 0);
}

#[test]
fn pop_returns_the_last_bit() {
    let mut arena = WordArena::new();
    let mut v = with_bits(&mut arena, 3, &[0, 2]);
    assert_eq!(v.pop(&mut arena), Some(true));
    assert_eq!(v.len(), 2);
    assert_eq!(v.pop(&mut arena), Some(false));
    assert_eq!(v.pop(&mut arena), Some(true));
    assert_eq!(v.len(), 0);
    assert_eq!(v.pop(&mut arena), None);
    assert_eq!(v.len(), 0);
    assert_eq!(v.capacity(), 1);
}

#[test]
fn pop_clears_a_word_that_goes_out_of_use() {
    let mut arena = WordArena::new();
    let mut v = BitVec::new();
    v.resize(&mut arena, 65, true);
    assert_eq!(v.as_slice(&arena), &[u64::MAX, 1][..]);
    assert_eq!(v.pop(&mut arena), Some(true));
    assert_eq!(v.len(), 64);
    assert_eq!(v.as_slice(&arena), &[u64::MAX][..]);
    v.resize(&mut arena, 66, false);
    assert_eq!(v.as_slice(&arena), &[u64::MAX, 0][..]);
    assert_eq!(v.get(&arena, 64), Some(false));
}

#[test]
fn pop_on_an_empty_vector_without_capacity() {
    let mut arena = WordArena::new();
    let mut v = BitVec::new();
    assert_eq!(v.pop(&mut arena), None);
    assert_eq!(v.len(), 0);
}

#[test]
fn insert_all_is_the_union() {
    let mut arena = WordArena::new();
    let mut a = with_bits(&mut arena, 130, &[1, 64, 129]);
    let b = with_bits(&mut arena, 70, &[1, 2, 69]);
    assert!(a.insert_all(&mut arena, &b));
    assert_eq!(a.len(), 130);
    assert_eq!(a.iter(&arena).collect(), vec![1, 2, 64, 69, 129]);
    assert_eq!(b.iter(&arena).collect(), vec![1, 2, 69]);
    assert!(!a.insert_all(&mut arena, &b));
}

#[test]
fn insert_all_takes_the_longer_length() {
    let mut arena = WordArena::new();
    let mut a = BitVec::new();
    a.resize(&mut arena, 3, true);
    let mut b = BitVec::new();
    b.resize(&mut arena, 5, false);
    assert!(!a.insert_all(&mut arena, &b));
    assert_eq!(a.len(), 5);
    assert_eq!(bits_of(&a, &arena), vec![true, true, true, false, false]);
    assert!(b.insert_all(&mut arena, &a));
    assert_eq!(b.len(), 5);
    assert_eq!(bits_of(&b, &arena), vec![true, true, true, false, false]);
}

#[test]
fn insert_all_of_an_empty_vector_changes_nothing() {
    let mut arena = WordArena::new();
    let mut a = with_bits(&mut arena, 10, &[4]);
    let empty = BitVec::new();
    assert!(!a.insert_all(&mut arena, &empty));
    assert_eq!(a.len(), 10);
    assert_eq!(a.capacity(), 1);
    assert_eq!(a.iter(&arena).collect(), vec![4]);
}

#[test]
fn insert_all_into_a_vector_without_capacity_leases_what_the_other_uses() {
    let mut arena = WordArena::new();
    let mut b = BitVec::with_capacity(&mut arena, 1000);
    b.resize(&mut arena, 130, true);
    assert_eq!(b.capacity(), 16);
    let mut a = BitVec::new();
    assert!(a.insert_all(&mut arena, &b));
    assert_eq!(a.len(), 130);
    assert_eq!(a.capacity(), 3);
    assert_eq!(a.as_slice(&arena), &[u64::MAX, u64::MAX, 3][..]);
    assert_eq!(b.as_slice(&arena), &[u64::MAX, u64::MAX, 3][..]);
}

#[test]
fn insert_all_moves_a_vector_that_is_too_small() {
    let mut arena = WordArena::new();
    let mut a = with_bits(&mut arena, 64, &[0, 63]);
    let b = with_bits(&mut arena, 200, &[0, 199]);
    let old_run_start = 0;
    assert_eq!(a.capacity(), 1);
    assert!(a.insert_all(&mut arena, &b));
    assert_eq!(a.capacity(), 4);
    assert_eq!(a.len(), 200);
    assert_eq!(a.iter(&arena).collect(), vec![0, 63, 199]);
    let reused = arena.allocate(1);
    assert_eq!(reused.start, old_run_start);
    assert_eq!(arena.load(reused, 0), 0);
}

#[test]
fn insert_all_within_the_capacity_keeps_the_run() {
    let mut arena = WordArena::new();
    let mut a = BitVec::with_capacity(&mut arena, 256);
    a.resize(&mut arena, 10, false);
    a.set(&mut arena, 9, true);
    let b = with_bits(&mut arena, 100, &[3, 99]);
    assert!(a.insert_all(&mut arena, &b));
    assert_eq!(a.capacity(), 4);
    assert_eq!(a.len(), 100);
    assert_eq!(a.as_slice(&arena), &[1u64 << 3 | 1 << 9, 1 << 35][..]);
}

#[test]
fn insert_all_reports_only_new_bits() {
    let mut arena = WordArena::new();
    let mut a = with_bits(&mut arena, 200, &[5, 70, 150]);
    let same = with_bits(&mut arena, 200, &[70]);
    let more = with_bits(&mut arena, 200, &[70, 151]);
    assert!(!a.insert_all(&mut arena, &same));
    assert!(a.insert_all(&mut arena, &more));
    assert!(!a.insert_all(&mut arena, &more));
    assert_eq!(a.iter(&arena).collect(), vec![5, 70, 150, 151]);
}

#[test]
fn clone_has_the_bits_and_only_the_words_in_use() {
    let mut arena = WordArena::new();
    let mut a = BitVec::with_capacity(&mut arena, 1000);
    a.resize(&mut arena, 70, true);
    let b = a.clone(&mut arena);
    assert_eq!(a.capacity(), 16);
    assert_eq!(b.capacity(), 2);
    assert_eq!(b.len(), 70);
    assert_eq!(b.as_slice(&arena), a.as_slice(&arena));
    assert!(a.eq(&arena, &b));
    a.set(&mut arena, 0, false);
    assert_eq!(b.get(&arena, 0), Some(true));
    assert!(!a.eq(&arena, &b));
}

#[test]
fn clone_of_an_empty_vector_leases_nothing() {
    let mut arena = WordArena::new();
    let a = BitVec::with_capacity(&mut arena, 64);
    let b = a.clone(&mut arena);
    assert_eq!(b.len(), 0);
    assert_eq!(b.capacity(), 0);
    assert_eq!(arena.allocate(1), Run { chunk: 0, start: 1, len: 1 });
}

#[test]
fn release_returns_the_run_cleared() {
    let mut arena = WordArena::new();
    let mut v = BitVec::with_capacity(&mut arena, 256);
    v.resize(&mut arena, 130, true);
    v.release(&mut arena);
    let run = arena.allocate(4);
    assert_eq!(run, Run { chunk: 0, start: 0, len: 4 });
    assert_eq!(arena.slice(run, 4), &[0u64, 0, 0, 0][..]);
    BitVec::new().release(&mut arena);
    assert_eq!(arena.allocate(4), Run { chunk: 0, start: 4, len: 4 });
}

#[test]
fn equality_ignores_capacity() {
    let mut arena = WordArena::new();
    let mut a = BitVec::with_capacity(&mut arena, 1000);
    let mut b = BitVec::with_capacity(&mut arena, 64);
    a.resize(&mut arena, 40, false);
    b.resize(&mut arena, 40, false);
    for i in [3usize, 17, 39] {
        a.set(&mut arena, i, true);
        b.set(&mut arena, i, true);
    }
    assert_eq!(a.capacity(), 16);
    assert_eq!(b.capacity(), 1);
    assert!(a.eq(&arena, &b));
    assert!(b.eq(&arena, &a));
    assert_eq!(a.cmp(&arena, &b), Ordering::Equal);
    assert_eq!(a.hash_words(&arena), b.hash_words(&arena));
}

#[test]
fn equality_ignores_length() {
    let mut arena = WordArena::new();
    let a = with_bits(&mut arena, 5, &[]);
    let b = BitVec::new();
    let c = with_bits(&mut arena, 300, &[2]);
    let d = with_bits(&mut arena, 3, &[2]);
    assert!(a.eq(&arena, &b));
    assert!(b.eq(&arena, &a));
    assert!(c.eq(&arena, &d));
    assert!(d.eq(&arena, &c));
    assert!(!a.eq(&arena, &c));
    assert!(!d.eq(&arena, &b));
}

#[test]
fn equality_sees_every_word() {
    let mut arena = WordArena::new();
    let a = with_bits(&mut arena, 200, &[1, 199]);
    let b = with_bits(&mut arena, 200, &[1]);
    let c = with_bits(&mut arena, 100, &[1]);
    assert!(!a.eq(&arena, &b));
    assert!(!b.eq(&arena, &a));
    assert!(!a.eq(&arena, &c));
    assert!(b.eq(&arena, &c));
    assert!(a.eq(&arena, &a));
}

#[test]
fn order_goes_by_the_lowest_index_that_differs() {
    let mut arena = WordArena::new();
    let bit0 = with_bits(&mut arena, 8, &[0]);
    let bit1 = with_bits(&mut arena, 8, &[1]);
    let bits05 = with_bits(&mut arena, 8, &[0, 5]);
    let bit7 = with_bits(&mut arena, 8, &[7]);
    assert_eq!(bit0.cmp(&arena, &bit1), Ordering::Less);
    assert_eq!(bit1.cmp(&arena, &bit0), Ordering::Greater);
    assert_eq!(bits05.cmp(&arena, &bit0), Ordering::Less);
    assert_eq!(bit0.cmp(&arena, &bits05), Ordering::Greater);
    assert_eq!(bit1.cmp(&arena, &bit7), Ordering::Less);
    assert_eq!(bits05.cmp(&arena, &bit7), Ordering::Less);
    assert_eq!(bit0.cmp(&arena, &bit0), Ordering::Equal);
}

#[test]
fn vector_with_the_lowest_disputed_bit_is_the_smaller() {
    let mut arena = WordArena::new();
    let mut a = BitVec::new();
    a.resize(&mut arena, 3, false);
    a.set(&mut arena, 0, true);
    a.set(&mut arena, 2, true);
    let mut b = BitVec::new();
    b.resize(&mut arena, 3, false);
    b.set(&mut arena, 1, true);
    assert_eq!(a.cmp(&arena, &b), Ordering::Less);
    assert_eq!(b.cmp(&arena, &a), Ordering::Greater);
}

#[test]
fn order_is_not_the_order_of_numbers() {
    let mut arena = WordArena::new();
    let two = with_bits(&mut arena, 8, &[1]);
    let five = with_bits(&mut arena, 8, &[0, 2]);
    let four = with_bits(&mut arena, 8, &[2]);
    let one = with_bits(&mut arena, 8, &[0]);
    assert_eq!(one.cmp(&arena, &four), Ordering::Less);
    assert_eq!(one.cmp(&arena, &two), Ordering::Less);
    assert_eq!(two.cmp(&arena, &four), Ordering::Less);
    assert_eq!(five.cmp(&arena, &one), Ordering::Less);
    assert_eq!(five.cmp(&arena, &two), Ordering::Less);
    assert_eq!(five.cmp(&arena, &four), Ordering::Less);
}

#[test]
fn order_compares_low_words_first() {
    let mut arena = WordArena::new();
    let low = with_bits(&mut arena, 200, &[63]);
    let high = with_bits(&mut arena, 200, &[64]);
    let both = with_bits(&mut arena, 200, &[63, 64]);
    let far = with_bits(&mut arena, 200, &[199]);
    let empty = BitVec::new();
    assert_eq!(low.cmp(&arena, &high), Ordering::Less);
    assert_eq!(both.cmp(&arena, &low), Ordering::Less);
    assert_eq!(both.cmp(&arena, &high), Ordering::Less);
    assert_eq!(high.cmp(&arena, &far), Ordering::Less);
    assert_eq!(far.cmp(&arena, &empty), Ordering::Less);
    assert_eq!(empty.cmp(&arena, &far), Ordering::Greater);
    assert_eq!(empty.cmp(&arena, &BitVec::new()), Ordering::Equal);
}

#[test]
fn partial_order_is_the_order() {
    let mut arena = WordArena::new();
    let a = with_bits(&mut arena, 70, &[65]);
    let b = with_bits(&mut arena, 70, &[3]);
    assert_eq!(b.partial_cmp(&arena, &a), Some(Ordering::Less));
    assert_eq!(a.partial_cmp(&arena, &b), Some(Ordering::Greater));
    assert_eq!(a.partial_cmp(&arena, &a), Some(Ordering::Equal));
}

#[test]
fn hash_words_end_at_the_last_word_that_is_not_zero() {
    let mut arena = WordArena::new();
    let a = with_bits(&mut arena, 300, &[3]);
    let b = with_bits(&mut arena, 300, &[3, 70]);
    let c = with_bits(&mut arena, 300, &[130]);
    let d = with_bits(&mut arena, 300, &[]);
    assert_eq!(a.hash_words(&arena), &[8u64][..]);
    assert_eq!(b.hash_words(&arena), &[8u64, 64][..]);
    assert_eq!(c.hash_words(&arena), &[0u64, 0, 4][..]);
    assert_eq!(d.hash_words(&arena).len(), 0);
    assert_eq!(BitVec::new().hash_words(&arena).len(), 0);
}

#[test]
fn as_slice_is_the_words_in_use() {
    let mut arena = WordArena::new();
    let mut v = BitVec::with_capacity(&mut arena, 640);
    assert_eq!(v.as_slice(&arena).len(), 0);
    v.resize(&mut arena, 64, false);
    assert_eq!(v.as_slice(&arena).len(), 1);
    v.resize(&mut arena, 65, false);
    v.set(&mut arena, 64, true);
    assert_eq!(v.as_slice(&arena), &[0u64, 1][..]);
    assert_eq!(v.words_in_use(), 2);
    assert_eq!(v.capacity(), 10);
}

#[test]
fn iteration_yields_the_set_bits_in_order() {
    let mut arena = WordArena::new();
    let v = with_bits(&mut arena, 1000, &[999, 0, 64, 63, 500, 65]);
    let mut iter = SetBitsIter::new(v.as_slice(&arena));
    assert_eq!(iter.next(), Some(0));
    assert_eq!(iter.next(), Some(63));
    assert_eq!(iter.next(), Some(64));
    assert_eq!(iter.next(), Some(65));
    assert_eq!(iter.next(), Some(500));
    assert_eq!(iter.next(), Some(999));
    assert_eq!(iter.next(), None);
    assert_eq!(iter.next(), None);
}

#[test]
fn iteration_over_raw_words() {
    let words = [0u64, 0, 0b1010, 0, u64::MAX, 0];
    let found = SetBitsIter::new(&words).collect();
    let mut expected = vec![129, 131];
    expected.extend(256..320);
    assert_eq!(found, expected);
    assert_eq!(SetBitsIter::new(&[]).collect(), Vec::<usize>::new());
    assert_eq!(SetBitsIter::new(&[0, 0, 0]).collect(), Vec::<usize>::new());
    assert_eq!(SetBitsIter::new(&[1u64 << 63]).collect(), vec![63]);
}

#[test]
fn iteration_starts_again_from_scratch() {
    let mut arena = WordArena::new();
    let v = with_bits(&mut arena, 100, &[7, 77]);
    let mut first = v.iter(&arena);
    assert_eq!(first.next(), Some(7));
    let again = v.iter(&arena);
    assert_eq!(again.collect(), vec![7, 77]);
    assert_eq!(first.collect(), vec![77]);
}

#[test]
fn vectors_of_one_arena_do_not_disturb_each_other() {
    let mut arena = WordArena::new();
    let mut a = with_bits(&mut arena, 64, &[1]);
    let mut b = with_bits(&mut arena, 64, &[2]);
    let c = with_bits(&mut arena, 64, &[3]);
    a.resize(&mut arena, 500, true);
    b.set(&mut arena, 40, true);
    assert_eq!(b.pop(&mut arena), Some(false));
    a.release(&mut arena);
    let d = with_bits(&mut arena, 64, &[4]);
    assert_eq!(b.iter(&arena).collect(), vec![2, 40]);
    assert_eq!(c.iter(&arena).collect(), vec![3]);
    assert_eq!(d.iter(&arena).collect(), vec![4]);
}

#[test]
fn is_clean_finds_a_bit_past_the_length() {
    let mut arena = WordArena::new();
    let mut v = BitVec::with_capacity(&mut arena, 256);
    assert!(v.is_clean(&arena));
    v.resize(&mut arena, 70, true);
    assert!(v.is_clean(&arena));
    v.set(&mut arena, 70, true);
    assert!(!v.is_clean(&arena));
    v.set(&mut arena, 70, false);
    assert!(v.is_clean(&arena));
    v.set(&mut arena, 255, true);
    assert!(!v.is_clean(&arena));
    v.set(&mut arena, 255, false);
    assert!(v.is_clean(&arena));
    v.resize(&mut arena, 66, false);
    assert!(v.is_clean(&arena));
    assert_eq!(v.as_slice(&arena), &[u64::MAX, 3][..]);
    assert!(BitVec::new().is_clean(&arena));
}

#[test]
fn scrub_clears_what_lies_past_the_length() {
    let mut arena = WordArena::new();
    let mut v = BitVec::with_capacity(&mut arena, 256);
    v.resize(&mut arena, 70, true);
    v.set(&mut arena, 3, false);
    v.set(&mut arena, 70, true);
    v.set(&mut arena, 127, true);
    v.set(&mut arena, 128, true);
    v.set(&mut arena, 255, true);
    assert!(!v.is_clean(&arena));
    assert_eq!(v.as_slice(&arena), &[u64::MAX ^ 8, 0x3f | 1 << 6 | 1 << 63][..]);
    v.scrub(&mut arena);
    assert!(v.is_clean(&arena));
    assert_eq!(v.len(), 70);
    assert_eq!(v.capacity(), 4);
    assert_eq!(v.as_slice(&arena), &[u64::MAX ^ 8, 0x3f][..]);
    v.resize(&mut arena, 256, false);
    assert_eq!(v.as_slice(&arena), &[u64::MAX ^ 8, 0x3f, 0, 0][..]);
}

#[test]
fn scrub_leaves_a_clean_vector_as_it_is() {
    let mut arena = WordArena::new();
    let mut v = with_bits(&mut arena, 130, &[0, 64, 129]);
    let mut full = BitVec::new();
    full.resize(&mut arena, 128, true);
    let mut empty = BitVec::new();
    v.scrub(&mut arena);
    full.scrub(&mut arena);
    empty.scrub(&mut arena);
    assert_eq!(v.as_slice(&arena), &[1u64, 1, 2][..]);
    assert_eq!(full.as_slice(&arena), &[u64::MAX, u64::MAX][..]);
    assert_eq!((empty.len(), empty.capacity()), (0, 0));
}

#[test]
fn operations_keep_the_vector_clean() {
    let mut arena = WordArena::new();
    let other = with_bits(&mut arena, 300, &[0, 128, 299]);
    let mut v = BitVec::new();
    v.resize(&mut arena, 130, true);
    assert!(v.is_clean(&arena));
    v.set(&mut arena, 129, false);
    assert!(v.is_clean(&arena));
    while v.len() > 100 {
        v.pop(&mut arena);
        assert!(v.is_clean(&arena));
    }
    v.insert_all(&mut arena, &other);
    assert!(v.is_clean(&arena));
    v.resize(&mut arena, 640, true);
    assert!(v.is_clean(&arena));
    v.resize(&mut arena, 128, false);
    assert!(v.is_clean(&arena));
    v.resize(&mut arena, 99, true);
    assert!(v.is_clean(&arena));
    v.resize(&mut arena, 7, false);
    assert!(v.is_clean(&arena));
    let copy = v.clone(&mut arena);
    assert!(copy.is_clean(&arena));
    assert!(other.is_clean(&arena));
}
