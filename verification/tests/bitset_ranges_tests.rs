use std::ops::RangeInclusive;

use rand::Rng;

use hi_sparse_bitset::bitset_ranges::BitSetRanges;
use hi_sparse_bitset::BitSetInterface;

fn indices(set: &BitSetRanges) -> Vec<usize> {
    let mut it = set.iter();
    let mut out = Vec::new();
    while let Some(i) = it.next() {
        out.push(i);
    }
    out
}

fn assert_equal<I: IntoIterator<Item = usize>>(set: &BitSetRanges, expected: I) {
    let expected: Vec<usize> = expected.into_iter().collect();
    assert_eq!(indices(set), expected);
}

fn collect<I: IntoIterator<Item = usize>>(iter: I) -> BitSetRanges {
    let mut set = BitSetRanges::new();
    for i in iter {
        set.insert(i);
    }
    set
}

#[test]
fn fill_test() {
    let range = 0..20_000;
    let mut bitset = collect(range.clone());
    assert_equal(&bitset, range.clone());

    // overwrite
    for i in range.clone() {
        bitset.insert(i);
    }
    assert_equal(&bitset, range.clone());

    // remove
    for i in range.clone() {
        bitset.remove(i);
    }
    assert_equal(&bitset, []);

    // try remove again
    for i in range.clone() {
        bitset.remove(i);
    }
    assert_equal(&bitset, []);

    for i in range.clone() {
        bitset.insert(i);
    }
    assert_equal(&bitset, range.clone());

    // remove half
    for i in 0..10_000 {
        bitset.remove(i);
    }
    assert_equal(&bitset, 10_000..20_000);

    // insert half
    for i in 0..10_000 {
        bitset.insert(i);
    }
    assert_equal(&bitset, range.clone());
}

#[test]
fn insert_range_regression_test() {
    let mut set: BitSetRanges = Default::default();
    set.insert_range(10008..=15059);
    set.insert_range(7626..=15769);
    assert_equal(&set, 7626..=15769);
}

#[test]
fn range_fuzzy_test() {
    const REPEATS: usize = 1000;
    const INNER_REPEATS: usize = 20;
    const MAX_INSERTS: usize = 5;
    const MAX_REMOVES: usize = 5;
    const MAX_RANGE: usize = 20_000;

    let mut rng = rand::thread_rng();
    let mut gen_range = {
        let mut rng = rng.clone();
        move || {
            let start = rng.gen_range(0..MAX_RANGE);
            let end = rng.gen_range(start..MAX_RANGE);
            start..end
        }
    };

    for _ in 0..REPEATS {
        let mut vec: Vec<bool> = vec![false; MAX_RANGE];
        let mut set: BitSetRanges = Default::default();

        for _ in 0..INNER_REPEATS {
            // random insert
            for _ in 0..rng.gen_range(0..MAX_INSERTS) {
                let range = gen_range();
                if !range.is_empty() {
                    let range = range.start..=range.end - 1;
                    set.insert_range(range.clone());
                    vec[range.clone()].fill(true);
                }
            }

            // random remove
            for _ in 0..rng.gen_range(0..MAX_REMOVES) {
                let range = gen_range();
                if !range.is_empty() {
                    let range = range.start..=range.end - 1;
                    set.remove_range(range.clone());
                    vec[range].fill(false);
                }
            }

            let vec_elements = vec.iter().enumerate().filter_map(|(index, b)| if *b { Some(index) } else { None });
            assert_equal(&set, vec_elements);
        }
    }
}

#[test]
fn range_remove_test() {
    let fill_range = 0..20_000;
    let bitset = collect(fill_range.clone());
    assert_equal(&bitset, fill_range.clone());

    let check = |range: RangeInclusive<usize>| {
        let mut bitset = bitset.clone();
        bitset.remove_range(range.clone());
        let (start, end) = range.into_inner();
        assert_equal(&bitset, (0..start).chain(end + 1..fill_range.end));
    };

    // left+coarse+right
    check(34..=4096 * 2 + 18);

    // left+coarse
    check(34..=4096 * 2 - 1);

    // right+coarse
    check(0..=4096 * 2 + 38);

    // coarse
    check(4096..=4096 * 2 - 1);

    // no level0 coarse
    check(34..=751);
}

#[test]
fn range_insert_test() {
    // left+coarse+right
    {
        let range = 34..=4096 * 2 + 18;
        let mut bitset: BitSetRanges = Default::default();
        bitset.insert_range(range.clone());
        assert_equal(&bitset, range.clone());
    }

    // left+coarse
    {
        let range = 34..=4096 * 2 - 1;
        let mut bitset: BitSetRanges = Default::default();
        bitset.insert_range(range.clone());
        assert_equal(&bitset, range.clone());
    }

    // right+coarse
    {
        let range = 0..=4096 * 2 + 38;
        let mut bitset: BitSetRanges = Default::default();
        bitset.insert_range(range.clone());
        assert_equal(&bitset, range.clone());
    }

    // coarse
    {
        let range = 4096..=4096 * 2 - 1;
        let mut bitset: BitSetRanges = Default::default();
        bitset.insert_range(range.clone());
        assert_equal(&bitset, range.clone());
    }

    // no level0 coarse
    {
        let range = 34..=751;
        let mut bitset: BitSetRanges = Default::default();
        bitset.insert_range(range.clone());
        assert_equal(&bitset, range.clone());
    }
}

#[test]
fn range_edges_test() {
    assert_eq!(BitSetRanges::max_capacity(), 261888);
    let mut set = BitSetRanges::new();
    // An empty range inserts nothing.
    #[allow(clippy::reversed_empty_ranges)]
    set.insert_range(10..=5);
    assert_equal(&set, []);
    // Ranges up to the last index.
    set.insert_range(261800..=261887);
    assert_equal(&set, 261800..=261887);
    set.remove_range(261810..=261880);
    assert_equal(&set, (261800..261810).chain(261881..=261887));
    // Out of range: in no set.
    assert!(!set.remove(261888));
    assert!(!set.contains(262000));
    assert!(set.contains(261887));
}
