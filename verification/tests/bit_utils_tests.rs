use hi_sparse_bitset::bit_queue::{ArrayBitQueue, BitQueue, PrimitiveBitQueue};
use hi_sparse_bitset::bit_utils::{
    array_one_bits_iter, fill_array_bits_from_unchecked, fill_array_bits_to_unchecked,
    fill_array_bits_unchecked, get_array_bit_unchecked, one_bits_iter, set_array_bit_unchecked,
    slice_array_bits_unchecked, split_array_bits_unchecked, traverse_array_one_bits,
};
use std::ops::ControlFlow;
use hi_sparse_bitset::BitBlock;

fn array_bits(blocks: &[u64]) -> Vec<usize> {
    let mut out = Vec::new();
    let mut it = array_one_bits_iter(blocks);
    while let Some(i) = it.next() {
        out.push(i);
    }
    out
}

fn word_bits(word: u64) -> Vec<usize> {
    let mut out = Vec::new();
    let mut it = one_bits_iter(word);
    while let Some(i) = it.next() {
        out.push(i);
    }
    out
}

#[test]
fn test_split() {
    let mut n = [0u64];
    set_array_bit_unchecked::<true>(&mut n, 1);
    set_array_bit_unchecked::<true>(&mut n, 3);
    set_array_bit_unchecked::<true>(&mut n, 4);
    set_array_bit_unchecked::<true>(&mut n, 10);
    assert_eq!(array_bits(&n), vec![1, 3, 4, 10]);

    {
        let mut n = n.clone();
        let s = split_array_bits_unchecked::<0>(&mut n, 4);
        assert_eq!(s.0, 0);
        assert_eq!(array_bits(s.1), vec![1, 3]);
    }
    {
        let mut n = n.clone();
        let s = split_array_bits_unchecked::<1>(&mut n, 4);
        assert_eq!(s.0, 0);
        assert_eq!(array_bits(s.1), vec![4, 10]);
    }
}

#[test]
fn test_slice() {
    {
        let mut n = [0u64];
        set_array_bit_unchecked::<true>(&mut n, 1);
        set_array_bit_unchecked::<true>(&mut n, 3);
        set_array_bit_unchecked::<true>(&mut n, 4);
        set_array_bit_unchecked::<true>(&mut n, 10);
        set_array_bit_unchecked::<true>(&mut n, 11);
        set_array_bit_unchecked::<true>(&mut n, 12);
        assert_eq!(array_bits(&n), vec![1, 3, 4, 10, 11, 12]);

        let s = slice_array_bits_unchecked(&mut n, 3, 11);
        assert_eq!(s.0, 0);
        assert_eq!(array_bits(s.1), vec![3, 4, 10, 11]);
    }

    {
        let mut n = [0u64; 4];
        set_array_bit_unchecked::<true>(&mut n, 1);
        set_array_bit_unchecked::<true>(&mut n, 3);
        set_array_bit_unchecked::<true>(&mut n, 4);
        set_array_bit_unchecked::<true>(&mut n, 62);
        set_array_bit_unchecked::<true>(&mut n, 63);
        set_array_bit_unchecked::<true>(&mut n, 64);
        set_array_bit_unchecked::<true>(&mut n, 65);
        set_array_bit_unchecked::<true>(&mut n, 66);
        assert_eq!(array_bits(&n), vec![1, 3, 4, 62, 63, 64, 65, 66]);

        {
            let mut n = n.clone();
            let s = slice_array_bits_unchecked(&mut n, 3, 63);
            assert_eq!(s.0, 0);
            assert_eq!(array_bits(s.1), vec![3, 4, 62, 63]);
        }
        {
            let mut n = n.clone();
            let s = slice_array_bits_unchecked(&mut n, 3, 64);
            assert_eq!(s.0, 0);
            assert_eq!(array_bits(s.1), vec![3, 4, 62, 63, 64]);
        }
    }
}

#[test]
fn test_fill_first() {
    let mut n = [0u64; 2];
    set_array_bit_unchecked::<true>(&mut n, 1);
    set_array_bit_unchecked::<true>(&mut n, 3);
    set_array_bit_unchecked::<true>(&mut n, 4);
    set_array_bit_unchecked::<true>(&mut n, 10);
    assert_eq!(word_bits(n[0]), vec![1, 3, 4, 10]);

    fill_array_bits_to_unchecked::<false>(&mut n, 3);
    assert_eq!(word_bits(n[0]), vec![4, 10]);

    fill_array_bits_to_unchecked::<true>(&mut n, 5);
    assert_eq!(word_bits(n[0]), vec![0, 1, 2, 3, 4, 5, 10]);

    fill_array_bits_to_unchecked::<true>(&mut n, 63);
    assert_eq!(word_bits(n[0]), (0..=63).collect::<Vec<_>>());

    fill_array_bits_to_unchecked::<true>(&mut n, 64);
    assert_eq!(array_bits(&n), (0..=64).collect::<Vec<_>>());
}

#[test]
fn test_fill_last() {
    let mut n = [0u64];
    set_array_bit_unchecked::<true>(&mut n, 1);
    set_array_bit_unchecked::<true>(&mut n, 3);
    set_array_bit_unchecked::<true>(&mut n, 4);
    set_array_bit_unchecked::<true>(&mut n, 60);
    set_array_bit_unchecked::<true>(&mut n, 61);
    set_array_bit_unchecked::<true>(&mut n, 63);
    assert_eq!(word_bits(n[0]), vec![1, 3, 4, 60, 61, 63]);

    fill_array_bits_from_unchecked::<false>(&mut n, 61);
    assert_eq!(word_bits(n[0]), vec![1, 3, 4, 60]);

    fill_array_bits_from_unchecked::<true>(&mut n, 60);
    assert_eq!(word_bits(n[0]), vec![1, 3, 4, 60, 61, 62, 63]);
}

#[test]
fn test_fill_range() {
    // insert
    {
        let mut n = [0u64];
        fill_array_bits_unchecked::<true>(&mut n, 15, 58);
        assert_eq!(array_bits(&n), (15..=58).collect::<Vec<_>>());
    }
    // reset
    {
        let mut n = [u64::MAX];
        fill_array_bits_unchecked::<false>(&mut n, 15, 57);
        assert_eq!(array_bits(&n), (0..15).chain(58..64).collect::<Vec<_>>());
    }

    // insert array
    {
        let mut n = [0u64; 4];
        fill_array_bits_unchecked::<true>(&mut n, 15, 203);
        assert_eq!(array_bits(&n), (15..=203).collect::<Vec<_>>());
    }
    {
        let mut n = [0u64; 4];
        fill_array_bits_unchecked::<true>(&mut n, 15, 68);
        assert_eq!(array_bits(&n), (15..=68).collect::<Vec<_>>());
    }

    // remove array
    {
        let mut n = [u64::MAX; 4];
        fill_array_bits_unchecked::<false>(&mut n, 15, 202);
        assert_eq!(array_bits(&n), (0..15).chain(203..256).collect::<Vec<_>>());
    }
    {
        let mut n = [u64::MAX; 4];
        fill_array_bits_unchecked::<false>(&mut n, 15, 67);
        assert_eq!(array_bits(&n), (0..15).chain(68..256).collect::<Vec<_>>());
    }
}

#[test]
fn test_fill_range_regression1() {
    let mut n = [0u64];
    fill_array_bits_unchecked::<true>(&mut n, 0, 63);
    assert_eq!(array_bits(&n), (0..=63).collect::<Vec<_>>());
}

#[test]
fn set_get_array_bit_test() {
    let mut n = [0u64; 3];
    let (was, word) = set_array_bit_unchecked::<true>(&mut n, 130);
    assert!(!was);
    assert_eq!(word, 4);
    assert!(get_array_bit_unchecked(&n, 130));
    assert!(!get_array_bit_unchecked(&n, 129));
    let (was, word) = set_array_bit_unchecked::<false>(&mut n, 130);
    assert!(was);
    assert_eq!(word, 0);
    assert_eq!(n, [0, 0, 0]);
}

#[test]
fn traverse_array_one_bits_test() {
    let n = [0b101u64, 0, 1u64 << 63];
    let mut seen = Vec::new();
    let r = traverse_array_one_bits(&n, |i| {
        seen.push(i);
        ControlFlow::<()>::Continue(())
    });
    assert!(r.is_continue());
    assert_eq!(seen, vec![0, 2, 191]);

    let mut seen = Vec::new();
    let r = traverse_array_one_bits(&n, |i| {
        if i > 1 {
            return ControlFlow::Break(i);
        }
        seen.push(i);
        ControlFlow::Continue(())
    });
    assert_eq!(r, ControlFlow::Break(2));
    assert_eq!(seen, vec![0]);

    let empty: [u64; 0] = [];
    assert_eq!(array_bits(&empty), Vec::<usize>::new());
}

#[test]
fn array_bit_queue_test() {
    let mut q = ArrayBitQueue::<3>::new([0b1001, 0, 1 << 5]);
    assert_eq!(q.current(), 0);
    assert_eq!(q.next(), Some(0));
    assert_eq!(q.current(), 3);
    q.zero_first_n(4);
    assert_eq!(q.next(), Some(133));
    assert_eq!(q.next(), None);
    assert_eq!(q.current(), 192);

    let mut q = ArrayBitQueue::<2>::filled();
    q.zero_first_n(70);
    assert_eq!(q.current(), 70);
    assert_eq!(q.next(), Some(70));
    q.zero_first_n(200);
    assert_eq!(q.next(), None);

    let mut q = ArrayBitQueue::<4>::empty();
    assert_eq!(q.next(), None);

    // Zeroing behind the active word changes nothing.
    let mut q = ArrayBitQueue::<2>::new([1, 1]);
    assert_eq!(q.next(), Some(0));
    assert_eq!(q.next(), Some(64));
    q.zero_first_n(3);
    assert_eq!(q.next(), None);
}

#[test]
fn primitive_bit_queue_test() {
    let mut q = PrimitiveBitQueue::filled();
    q.zero_first_n(62);
    assert_eq!(q.current(), 62);
    assert_eq!(q.next(), Some(62));
    assert_eq!(q.next(), Some(63));
    assert_eq!(q.next(), None);
    assert_eq!(q.current(), 64);

    let mut q = PrimitiveBitQueue::new(0b110);
    q.zero_first_n(100);
    assert_eq!(q.next(), None);
    assert!(PrimitiveBitQueue::empty().next().is_none());
}

#[test]
fn bit_block_test() {
    let mut b: u64 = <u64 as BitBlock>::zero();
    assert!(BitBlock::is_zero(&b));
    assert_eq!(<u64 as BitBlock>::size(), 64);
    assert!(!BitBlock::set_bit_unchecked(&mut b, 9, true));
    assert!(BitBlock::set_bit_unchecked(&mut b, 9, true));
    BitBlock::set_bit_unchecked(&mut b, 40, true);
    assert!(BitBlock::get_bit_unchecked(&b, 40));
    assert_eq!(BitBlock::count_ones(&b), 2);

    let mut seen = Vec::new();
    b.for_each_bit(|i| seen.push(i));
    assert_eq!(seen, vec![9, 40]);

    let r = b.traverse_bits(|i| if i > 10 { ControlFlow::Break(i) } else { ControlFlow::Continue(()) });
    assert_eq!(r, ControlFlow::Break(40));

    let mut q = b.into_bits_iter();
    assert_eq!(q.next(), Some(9));
    assert_eq!(q.next(), Some(40));
    assert_eq!(q.next(), None);
}
