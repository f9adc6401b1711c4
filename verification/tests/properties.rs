use std::collections::HashSet;
use std::ops::ControlFlow;

use rand::Rng;

use hi_sparse_bitset::bit_utils::{
    count_ones, get_bit_unchecked, level_indices, one_bits_iter, saturating_shl, set_bit_unchecked,
    traverse_one_bits,
};
use hi_sparse_bitset::bitset_interface::{bitset_is_empty, bitsets_eq, LevelMasks};
use hi_sparse_bitset::data_block::data_block_start_index;
use hi_sparse_bitset::internals::{is_eq, is_empty};
use hi_sparse_bitset::level::Level;
use hi_sparse_bitset::iter::{BlockCursor, BlockIter, IndexCursor, IndexIter};
use hi_sparse_bitset::binary_op::BitAndOp;
use hi_sparse_bitset::ops::{And, BitSetOp, Or, Sub, Xor};
use hi_sparse_bitset::serialization::{
    check_version, get_padding_for, AccessError, BufferedWriter, Offsets, Reader, Writer, SERIALIZATION_FORMAT_VER,
};
use hi_sparse_bitset::cache::NoCache;
use hi_sparse_bitset::{apply, reduce, reduce_w_cache, Apply, BitSet, BitSetBase, BitSetInterface, DataBlock};

type HiSparseBitset = BitSet;

fn collect_indices<T: LevelMasks>(mut iter: IndexIter<T>) -> Vec<usize> {
    let mut out = Vec::new();
    while let Some(i) = iter.next() {
        out.push(i);
    }
    out
}

fn collect_block_indices<T: LevelMasks>(mut iter: BlockIter<T>) -> Vec<usize> {
    let mut out = Vec::new();
    while let Some(block) = iter.next() {
        let mut it = block.iter();
        while let Some(i) = it.next() {
            out.push(i);
        }
    }
    out
}

fn sorted(s: &HashSet<usize>) -> Vec<usize> {
    let mut v: Vec<usize> = s.iter().copied().collect();
    v.sort();
    v
}

#[test]
fn apply_ops_test() {
    const MAX_RANGE: usize = 10_000;
    const AMOUNT: usize = 1000;
    const INDEX_MUL: usize = 5;

    let mut rng = rand::thread_rng();
    let mut v1 = Vec::new();
    let mut v2 = Vec::new();
    let mut v3 = Vec::new();
    let mut v4 = Vec::new();
    for _ in 0..AMOUNT {
        v1.push(rng.gen_range(0..MAX_RANGE) * INDEX_MUL);
        v2.push(rng.gen_range(0..MAX_RANGE) * INDEX_MUL);
        v3.push(rng.gen_range(0..MAX_RANGE) * INDEX_MUL);
        v4.push(rng.gen_range(0..MAX_RANGE) * INDEX_MUL);
    }

    let hiset1 = HiSparseBitset::from_indices(&v1);
    let hiset2 = HiSparseBitset::from_indices(&v2);
    let hiset3 = HiSparseBitset::from_indices(&v3);
    let hiset4 = HiSparseBitset::from_indices(&v4);

    let set1: HashSet<usize> = v1.iter().copied().collect();
    let set2: HashSet<usize> = v2.iter().copied().collect();
    let set3: HashSet<usize> = v3.iter().copied().collect();
    let set4: HashSet<usize> = v4.iter().copied().collect();

    fn test<Op: BitSetOp, S1: LevelMasks, S2: LevelMasks>(h: Apply<Op, S1, S2>, s: HashSet<usize>) {
        let hv = collect_block_indices(h.block_iter());
        assert_eq!(hv, sorted(&s));
    }

    // &HiSet <-> &HiSet
    test(&hiset1 & &hiset2, &set1 & &set2);
    test(&hiset1 | &hiset2, &set1 | &set2);
    test(&hiset1 ^ &hiset2, &set1 ^ &set2);
    test(apply(Sub, &hiset1, &hiset2), &set1 - &set2);

    // Reduce <-> Reduce
    let group1 = [&hiset1, &hiset2];
    let group2 = [&hiset3, &hiset4];
    let reduce1 = reduce(Or, &group1).unwrap();
    let reduce2 = reduce(Or, &group2).unwrap();
    let set_or1 = &set1 | &set2;
    let set_or2 = &set3 | &set4;
    test(reduce1.clone() & reduce2.clone(), &set_or1 & &set_or2);
    test(reduce1.clone() | reduce2.clone(), &set_or1 | &set_or2);
    test(reduce1.clone() ^ reduce2.clone(), &set_or1 ^ &set_or2);
    test(apply(Sub, reduce1.clone(), reduce2.clone()), &set_or1 - &set_or2);

    // &Reduce <-> &Reduce
    test(&reduce1 & &reduce2, &set_or1 & &set_or2);
    test(&reduce1 | &reduce2, &set_or1 | &set_or2);
    test(&reduce1 ^ &reduce2, &set_or1 ^ &set_or2);
    test(apply(Sub, &reduce1, &reduce2), &set_or1 - &set_or2);

    // Op <-> Op
    let hiset_or1 = &hiset1 | &hiset2;
    let hiset_or2 = &hiset3 | &hiset4;
    test(hiset_or1.clone() & hiset_or2.clone(), &set_or1 & &set_or2);
    test(hiset_or1.clone() | hiset_or2.clone(), &set_or1 | &set_or2);
    test(hiset_or1.clone() ^ hiset_or2.clone(), &set_or1 ^ &set_or2);
    test(apply(Sub, hiset_or1.clone(), hiset_or2.clone()), &set_or1 - &set_or2);

    // &Op <-> &Op
    test(&hiset_or1 & &hiset_or2, &set_or1 & &set_or2);
    test(&hiset_or1 | &hiset_or2, &set_or1 | &set_or2);
    test(&hiset_or1 ^ &hiset_or2, &set_or1 ^ &set_or2);
    test(apply(Sub, &hiset_or1, &hiset_or2), &set_or1 - &set_or2);
}

#[test]
fn fuzzy_test() {
    // The sizes of the miri profile: a run must end within the test time limit.
    const MAX_SIZE: usize = 1000;
    const MAX_RANGE: usize = 1000;
    const CONTAINS_PROBES: usize = 100;
    const REPEATS: usize = 2;
    const INNER_REPEATS: usize = 3;
    const INDEX_MUL: usize = 10;
    const MAX_CURSOR_READ_SESSION: usize = MAX_SIZE;

    let mut rng = rand::thread_rng();
    for _ in 0..REPEATS {
        let mut hash_set = HashSet::new();
        let mut hi_set = HiSparseBitset::default();

        let mut inserted = Vec::new();
        let mut removed = Vec::new();

        for _ in 0..INNER_REPEATS {
            // random insert
            for _ in 0..rng.gen_range(0..MAX_SIZE) {
                let index = rng.gen_range(0..MAX_RANGE) * INDEX_MUL;
                inserted.push(index);
                hash_set.insert(index);
                hi_set.insert(index);
            }

            // random remove
            if !inserted.is_empty() {
                for _ in 0..rng.gen_range(0..inserted.len()) {
                    let index = rng.gen_range(0..inserted.len());
                    let value = inserted[index];
                    removed.push(value);
                    hash_set.remove(&value);
                    hi_set.remove(value);
                }
            }

            // random contains
            for _ in 0..CONTAINS_PROBES {
                let index = rng.gen_range(0..MAX_RANGE) * INDEX_MUL;
                let h1 = hash_set.contains(&index);
                let h2 = hi_set.contains(index);
                assert_eq!(h1, h2);
            }

            // existent contains
            for &index in &hash_set {
                assert!(hi_set.contains(index));
            }

            // block traverse contains
            let _ = hi_set.block_iter().traverse(|block| {
                block.traverse(|index| {
                    assert!(hash_set.contains(&index));
                    ControlFlow::<()>::Continue(())
                })
            });

            // index traverse contains
            hi_set.iter().for_each(|index| {
                assert!(hash_set.contains(&index));
            });

            // non existent does not contains
            for &index in &removed {
                let h1 = hash_set.contains(&index);
                let h2 = hi_set.contains(index);
                assert_eq!(h1, h2);
            }

            // eq
            {
                let other = HiSparseBitset::from_indices(&collect_indices(hi_set.iter()));
                assert!(is_eq(&hi_set, &other));
            }

            let hash_set_vec = sorted(&hash_set);

            // block traverse cursor sessions
            {
                let mut cursor = BlockCursor::start();
                let mut traversed = Vec::new();

                loop {
                    let mut session_counter = rng.gen_range(0..MAX_CURSOR_READ_SESSION) as isize;
                    let ctrl = hi_set.block_iter().move_to(cursor).traverse(|block| {
                        if session_counter <= 0 {
                            cursor = (&block).into();
                            return ControlFlow::Break(());
                        }
                        session_counter -= block.len() as isize;

                        let mut it = block.iter();
                        while let Some(i) = it.next() {
                            traversed.push(i);
                        }
                        ControlFlow::Continue(())
                    });
                    if ctrl.is_continue() {
                        break;
                    }
                }

                assert_eq!(traversed, hash_set_vec);
            }

            // index traverse cursor sessions
            {
                let mut cursor = IndexCursor::start();
                let mut traversed = Vec::new();

                loop {
                    let mut session_counter = rng.gen_range(0..MAX_CURSOR_READ_SESSION);
                    let ctrl = hi_set.iter().move_to(cursor).traverse(|index| {
                        if session_counter == 0 {
                            cursor = index.into();
                            return ControlFlow::Break(());
                        }
                        session_counter -= 1;

                        traversed.push(index);
                        ControlFlow::Continue(())
                    });
                    if ctrl.is_continue() {
                        break;
                    }
                }

                assert_eq!(traversed, hash_set_vec);
            }
        }
    }
}

#[test]
fn simple_serialize_test() {
    let mut bitset = HiSparseBitset::default();
    bitset.insert(100);
    bitset.insert(5720);
    bitset.insert(219347);

    let vec: Vec<u8> = bitset.serialize();
    let deserialized_bitset = BitSet::deserialize(&vec).unwrap();

    assert!(is_eq(&bitset, &deserialized_bitset));
    // check by iter too.
    assert_eq!(collect_indices(bitset.iter()), collect_indices(deserialized_bitset.iter()));
}

#[test]
fn serialize_layout_test() {
    let bitset = HiSparseBitset::from_indices(&[100, 5720, 219347]);
    // 100 = (0, 1, 36); 5720 = (1, 25, 24); 219347 = (53, 35, 19).
    let mut expected: Vec<u8> = Vec::new();
    expected.extend_from_slice(&SERIALIZATION_FORMAT_VER.to_le_bytes());
    expected.extend_from_slice(&3u16.to_le_bytes());
    expected.extend_from_slice(&3u32.to_le_bytes());
    expected.extend_from_slice(&(1u64 | (1 << 1) | (1 << 53)).to_le_bytes());
    expected.extend_from_slice(&[0u8; 8]);
    for m in [1u64 << 1, 1u64 << 25, 1u64 << 35] {
        expected.extend_from_slice(&m.to_le_bytes());
    }
    for c in [0u16, 1, 2] {
        expected.extend_from_slice(&c.to_le_bytes());
    }
    expected.extend_from_slice(&[0u8; 2]);
    for m in [1u64 << 36, 1u64 << 24, 1u64 << 19] {
        expected.extend_from_slice(&m.to_le_bytes());
    }
    assert_eq!(bitset.serialize(), expected);
}

#[test]
fn serialize_round_trip_test() {
    let empty = HiSparseBitset::new();
    let back = BitSet::deserialize(&empty.serialize()).unwrap();
    assert!(is_empty(&back));

    let indices: Vec<usize> = (0..3000).map(|i| i * 87).collect();
    let set = HiSparseBitset::from_indices(&indices);
    let back = BitSet::deserialize(&set.serialize()).unwrap();
    assert_eq!(collect_indices(back.iter()), indices);

    let last = HiSparseBitset::from_indices(&[BitSet::max_capacity() - 1]);
    let back = BitSet::deserialize(&last.serialize()).unwrap();
    assert_eq!(collect_indices(back.iter()), vec![BitSet::max_capacity() - 1]);
}

#[test]
fn deserialize_errors_test() {
    // Too short for the version.
    assert!(matches!(BitSet::deserialize(&[]), Err(AccessError::IOError)));
    assert!(matches!(BitSet::deserialize(&[3]), Err(AccessError::IOError)));

    // Another version.
    assert!(matches!(BitSet::deserialize(&[7, 1]), Err(AccessError::FormatMismatch(263))));

    // Right version, header cut short.
    assert!(matches!(BitSet::deserialize(&[3, 0, 0, 0]), Err(AccessError::IOError)));

    let bytes = HiSparseBitset::from_indices(&[100, 5720, 219347]).serialize();

    // Data cut short.
    assert!(matches!(BitSet::deserialize(&bytes[..bytes.len() - 1]), Err(AccessError::IOError)));

    // Level-1 count that the level-0 mask does not match.
    let mut bad = bytes.clone();
    bad[8] = 0b111;
    assert!(matches!(BitSet::deserialize(&bad), Err(AccessError::InvalidData)));

    // Data count that the level-1 masks do not match.
    let mut bad = bytes.clone();
    bad[24] = 0b11;
    assert!(matches!(BitSet::deserialize(&bad), Err(AccessError::InvalidData)));
}

#[test]
fn reader_writer_test() {
    let mut w = Writer::new();
    w.write_primitive::<u16>(SERIALIZATION_FORMAT_VER);
    w.write_primitive::<u8>(7);
    w.write_padding_for::<u64>();
    w.write_mask(0x0102_0304_0506_0708);
    assert_eq!(w.pos(), 16);
    let bytes = w.into_bytes();
    assert_eq!(bytes, vec![3, 0, 7, 0, 0, 0, 0, 0, 8, 7, 6, 5, 4, 3, 2, 1]);

    let mut r = Reader::new(&bytes);
    assert_eq!(r.read_version(), Ok(SERIALIZATION_FORMAT_VER));
    assert_eq!(r.read_primitive::<u8>(), Ok(7));
    assert_eq!(r.read_padding_for::<u64>(), Ok(()));
    assert_eq!(r.pos(), 8);
    assert_eq!(r.read_mask(), Ok(0x0102_0304_0506_0708));
    assert_eq!(r.read_mask(), Err(AccessError::IOError));

    let other = [9u8, 0];
    let mut r = Reader::new(&other);
    assert_eq!(r.read_version(), Err(AccessError::FormatMismatch(9)));
}

#[test]
fn reader_short_input_keeps_position_test() {
    let bytes = [1u8, 2, 3, 4, 5];
    let mut r = Reader::new(&bytes);
    assert_eq!(r.read_primitive::<u16>(), Ok(0x0201));
    assert_eq!(r.pos(), 2);
    assert_eq!(r.read_primitive::<u32>(), Err(AccessError::IOError));
    assert_eq!(r.pos(), 2);
    assert_eq!(r.read_mask(), Err(AccessError::IOError));
    assert_eq!(r.pos(), 2);
    assert_eq!(r.read_primitive::<u8>(), Ok(3));
    assert_eq!(r.pos(), 3);

    let other = [9u8, 0];
    let mut r = Reader::new(&other);
    assert_eq!(r.read_version(), Err(AccessError::FormatMismatch(9)));
    assert_eq!(r.pos(), 2);
}

#[test]
fn binary_ops_values_test() {
    let a = HiSparseBitset::from_indices(&[1, 2, 3, 5000]);
    let b = HiSparseBitset::from_indices(&[2, 3, 4, 200000]);
    assert_eq!(collect_indices(apply(And, &a, &b).iter()), vec![2, 3]);
    assert_eq!(collect_indices(apply(Or, &a, &b).iter()), vec![1, 2, 3, 4, 5000, 200000]);
    assert_eq!(collect_indices(apply(Xor, &a, &b).iter()), vec![1, 4, 5000, 200000]);
    assert_eq!(collect_indices(apply(Sub, &a, &b).iter()), vec![1, 5000]);

    // Apply is a bitset too.
    let x = apply(Xor, &a, &b);
    assert!(x.contains(4));
    assert!(!x.contains(2));
    assert!(!x.is_empty());
}

#[test]
fn equality_and_emptiness_test() {
    let a = HiSparseBitset::from_indices(&[10, 20, 4096 * 7]);
    let b = a.clone();
    assert!(is_eq(&a, &b));
    assert!(bitsets_eq(&a, &b));
    assert!(is_eq(&a, apply(Or, &a, &b)));

    // Equal sets have an empty symmetric difference.
    assert!(is_empty(apply(Xor, &a, &b)));
    assert!(bitset_is_empty(apply(Sub, &a, &b)));

    let c = HiSparseBitset::from_indices(&[10, 20]);
    assert!(!is_eq(&a, &c));
    assert!(!is_empty(apply(Sub, &a, &c)));

    // A set whose last index was removed is empty and equal to a new set.
    let mut d = HiSparseBitset::from_indices(&[300]);
    assert!(!d.is_empty());
    assert!(d.remove(300));
    assert!(d.is_empty());
    assert!(is_eq(&d, &HiSparseBitset::new()));
}

#[test]
fn insert_remove_test() {
    let mut s = HiSparseBitset::new();
    assert!(!s.remove(5));
    s.insert(5);
    s.insert(5);
    assert!(s.contains(5));
    assert!(s.remove(5));
    assert!(!s.remove(5));
    assert!(!s.contains(5));

    s.insert(BitSet::max_capacity() - 1);
    assert!(s.contains(BitSet::max_capacity() - 1));
    assert_eq!(BitSet::max_capacity(), 262144);
    assert!(BitSet::is_in_range(262143));
    assert!(!BitSet::is_in_range(262144));
}

#[test]
fn unite_intersect_test() {
    let mut a = HiSparseBitset::from_indices(&[1, 64, 5000]);
    let b = HiSparseBitset::from_indices(&[2, 64, 100000]);
    a.unite(&b);
    assert_eq!(collect_indices(a.iter()), vec![1, 2, 64, 5000, 100000]);

    let c = HiSparseBitset::from_indices(&[2, 5000, 7]);
    a.intersect(&c);
    assert_eq!(collect_indices(a.iter()), vec![2, 5000]);

    let x = HiSparseBitset::from_indices(&[3, 9]);
    let y = HiSparseBitset::from_indices(&[9, 11]);
    let u = x.clone().into_union(y.clone());
    assert_eq!(collect_indices(u.iter()), vec![3, 9, 11]);
    let i = x.into_intersection(y);
    assert_eq!(collect_indices(i.iter()), vec![9]);

    // Intersecting with a disjoint set empties it.
    let mut z = HiSparseBitset::from_indices(&[1, 2, 3]);
    z.intersect(&HiSparseBitset::from_indices(&[100]));
    assert!(z.is_empty());
}

#[test]
fn insert_block_test() {
    let mut s = HiSparseBitset::from_indices(&[129]);
    s.insert_block(DataBlock::new(128, 0b101));
    assert_eq!(collect_indices(s.iter()), vec![128, 129, 130]);

    // An empty block inserts nothing.
    s.insert_block(DataBlock::new(4096, 0));
    assert_eq!(collect_indices(s.iter()), vec![128, 129, 130]);

    s.insert_block(DataBlock::new(BitSet::max_capacity() - 64, 1u64 << 63));
    assert!(s.contains(BitSet::max_capacity() - 1));
}

#[test]
fn reduce_test() {
    let a = HiSparseBitset::from_indices(&[1, 2, 3, 4]);
    let b = HiSparseBitset::from_indices(&[2, 3, 4, 5]);
    let c = HiSparseBitset::from_indices(&[3, 4, 5, 6]);
    let sets = [&a, &b, &c];
    assert_eq!(collect_indices(reduce(And, &sets).unwrap().iter()), vec![3, 4]);
    assert_eq!(collect_indices(reduce(Or, &sets).unwrap().iter()), vec![1, 2, 3, 4, 5, 6]);
    assert_eq!(collect_indices(reduce(Xor, &sets).unwrap().iter()), vec![1, 3, 4, 6]);
    assert_eq!(collect_indices(reduce(Sub, &sets).unwrap().iter()), vec![1]);

    let none: [&HiSparseBitset; 0] = [];
    assert!(reduce(And, &none).is_none());
}

#[test]
fn cursor_resume_after_mutation_test() {
    let mut s = HiSparseBitset::from_indices(&[10, 20, 30, 5000, 6000, 200000]);

    let mut iter = s.iter();
    assert_eq!(iter.next(), Some(10));
    assert_eq!(iter.next(), Some(20));
    let cursor = iter.cursor();

    // Only removed: what still exists is traversed.
    s.remove(5000);
    assert_eq!(collect_indices(s.iter().move_to(cursor)), vec![30, 6000, 200000]);

    // Inserted before the cursor: never traversed again.
    s.insert(15);
    s.insert(7000);
    assert_eq!(collect_indices(s.iter().move_to(cursor)), vec![30, 6000, 7000, 200000]);

    let mut blocks = s.block_iter();
    let first = blocks.next().unwrap();
    assert_eq!(first.start_index, 0);
    let bc = blocks.cursor();
    s.remove(30);
    s.remove(10);
    s.remove(15);
    s.remove(20);
    assert_eq!(collect_block_indices(s.block_iter().move_to(bc)), vec![6000, 7000, 200000]);

    // End cursors yield nothing.
    assert!(s.iter().move_to(IndexCursor::end()).next().is_none());
    assert!(s.block_iter().move_to(BlockCursor::end()).next().is_none());
    // Start cursors yield everything.
    assert_eq!(collect_indices(s.iter().move_to(IndexCursor::start())), vec![6000, 7000, 200000]);
}

#[test]
fn iter_traverse_break_test() {
    let s = HiSparseBitset::from_indices(&[3, 70, 900, 4100]);
    let mut seen = Vec::new();
    let r = s.iter().traverse(|i| {
        if i > 800 {
            return ControlFlow::Break(i);
        }
        seen.push(i);
        ControlFlow::Continue(())
    });
    assert_eq!(r, ControlFlow::Break(900));
    assert_eq!(seen, vec![3, 70]);

    let r = s.block_iter().traverse(|b| {
        if b.start_index >= 4096 {
            return ControlFlow::Break(b.start_index);
        }
        ControlFlow::Continue(())
    });
    assert_eq!(r, ControlFlow::Break(4096));
}

#[test]
fn level_indices_test() {
    // The positions of the 128-bit-block case, for the 64-bit blocks this
    // library is built of.
    assert_eq!(level_indices(0), (0, 0, 0));
    assert_eq!(level_indices(10), (0, 0, 10));
    assert_eq!(level_indices(64), (0, 1, 0));
    assert_eq!(level_indices(66), (0, 1, 2));
    assert_eq!(level_indices(64 * 64), (1, 0, 0));
    assert_eq!(level_indices(64 * 64 + 50 * 64), (1, 50, 0));
    assert_eq!(level_indices(64 * 64 + 50 * 64 + 4), (1, 50, 4));
    assert_eq!(data_block_start_index(1, 50), 64 * 64 + 50 * 64);
}

#[test]
fn bit_utils_test() {
    assert_eq!(count_ones(0), 0);
    assert_eq!(count_ones(u64::MAX), 64);
    assert_eq!(count_ones(0b1011), 3);

    assert_eq!(saturating_shl(1, 3), 8);
    assert_eq!(saturating_shl(1, 64), 0);
    assert_eq!(saturating_shl(u64::MAX, 100), 0);

    let mut w: u64 = 0;
    assert!(!set_bit_unchecked(&mut w, 5, true));
    assert_eq!(w, 32);
    assert!(set_bit_unchecked(&mut w, 5, false));
    assert_eq!(w, 0);
    assert!(get_bit_unchecked(0b100, 2));
    assert!(!get_bit_unchecked(0b100, 1));

    let mut it = one_bits_iter(0b1010_0001);
    assert_eq!(it.next(), Some(0));
    assert_eq!(it.next(), Some(5));
    assert_eq!(it.next(), Some(7));
    assert_eq!(it.next(), None);

    let mut seen = Vec::new();
    let r = traverse_one_bits(0b1010_0001, |i| {
        if i == 7 {
            return ControlFlow::Break(i);
        }
        seen.push(i);
        ControlFlow::Continue(())
    });
    assert_eq!(r, ControlFlow::Break(7));
    assert_eq!(seen, vec![0, 5]);
}

#[test]
fn data_block_test() {
    let b = DataBlock::new(128, 0b1001);
    assert_eq!(b.len(), 2);
    assert!(!b.is_empty());
    assert!(DataBlock::new(0, 0).is_empty());
    let mut it = b.iter();
    assert_eq!(it.next(), Some(128));
    assert_eq!(it.next(), Some(131));
    assert_eq!(it.next(), None);
    assert_eq!(b.into_parts(), (128, 0b1001));

    let mut collected = Vec::new();
    b.for_each(|i| collected.push(i));
    assert_eq!(collected, vec![128, 131]);
}

#[test]
fn clone_and_mem_info_test() {
    let a = HiSparseBitset::from_indices(&[1, 4096, 100000]);
    let b = a.clone();
    assert_eq!(collect_indices(b.iter()), vec![1, 4096, 100000]);

    let info = a.mem_info();
    assert!(info.hi_blocks_len() <= info.hi_blocks_cap());
    assert!(info.data_blocks_len() <= info.data_blocks_cap());
    // Three level-1 blocks and three data blocks are in use, besides the
    // reserved empty ones.
    assert_eq!(info.hi_blocks_len(), 4);
    assert_eq!(info.data_blocks_len(), 4);
}

#[test]
fn buffered_writer_test() {
    let mut w = Writer::new();
    w.write_primitive::<u8>(9);
    let mut bw = BufferedWriter::<u64>::new(w);
    // More than one buffer's worth.
    for i in 0..150u64 {
        bw.write_mask(i * 0x0101);
    }
    let w = bw.close();
    let bytes = w.into_bytes();
    assert_eq!(bytes.len(), 1 + 150 * 8);
    assert_eq!(bytes[0], 9);
    for i in 0..150usize {
        let mut word = [0u8; 8];
        word.copy_from_slice(&bytes[1 + i * 8..9 + i * 8]);
        assert_eq!(u64::from_le_bytes(word), i as u64 * 0x0101);
    }

    let mut bw = BufferedWriter::<u16>::new(Writer::new());
    bw.write_primitive(0x0102);
    bw.write_primitive(7);
    assert_eq!(bw.close().into_bytes(), vec![2, 1, 7, 0]);
}

#[test]
fn trusted_hierarchy_test() {
    assert!(<BitSet as BitSetBase>::trusted_hierarchy());
    assert!(<&BitSet as BitSetBase>::trusted_hierarchy());
    // Intersection and difference may raise bits over empty blocks.
    assert!(!<Apply<And, &BitSet, &BitSet> as BitSetBase>::trusted_hierarchy());
    assert!(!<Apply<Sub, &BitSet, &BitSet> as BitSetBase>::trusted_hierarchy());
    assert!(<Apply<Or, &BitSet, &BitSet> as BitSetBase>::trusted_hierarchy());
}

#[test]
fn bitset_operators_test() {
    let a = HiSparseBitset::from_indices(&[1, 2, 3, 70000]);
    let b = HiSparseBitset::from_indices(&[3, 4, 70000]);
    let u = a.clone() | b.clone();
    assert_eq!(collect_indices(u.iter()), vec![1, 2, 3, 4, 70000]);
    let i = a & b;
    assert_eq!(collect_indices(i.iter()), vec![3, 70000]);
}

#[test]
fn iter_for_each_test() {
    let s = HiSparseBitset::from_indices(&[5, 64, 65, 9000]);
    let mut seen = Vec::new();
    s.iter().for_each(|i| seen.push(i));
    assert_eq!(seen, vec![5, 64, 65, 9000]);

    let mut starts = Vec::new();
    s.block_iter().for_each(|b| starts.push((b.start_index, b.len())));
    assert_eq!(starts, vec![(0, 1), (64, 2), (8960, 1)]);

    let mut seen = Vec::new();
    DataBlock::new(64, 0b11).iter().for_each(|i| seen.push(i));
    assert_eq!(seen, vec![64, 65]);
}

#[test]
fn offsets_test() {
    println!("{:}", Offsets::LVL0_MASK_OFFSET);
    println!("{:}", Offsets::LVL0_BITCOUNTS_OFFSET);
    println!("{:}", Offsets::LVL1_MASKS_OFFSET);

    let offsets = Offsets::new(16);
    println!("{:}", offsets.lvl1_bitcounts_offset);
    println!("{:}", offsets.data_offset);
}

#[test]
fn offsets_layout_test() {
    let o = Offsets::new(3);
    assert_eq!(Offsets::LVL0_MASK_OFFSET, 8);
    assert_eq!(Offsets::LVL0_BITCOUNTS_OFFSET, 16);
    assert_eq!(Offsets::LVL1_MASKS_OFFSET, 24);
    assert_eq!(o.lvl1_bitcounts_offset, 48);
    assert_eq!(o.data_offset, 56);
    assert_eq!(o.len(3), 80);
    // The layout agrees with what serialize writes.
    let bytes = HiSparseBitset::from_indices(&[100, 5720, 219347]).serialize();
    assert_eq!(bytes.len(), o.len(3));

    let o = Offsets::new(4);
    assert_eq!(o.data_offset, 64);
    assert_eq!(get_padding_for::<u64>(62), 2);
    assert_eq!(get_padding_for::<u16>(62), 0);
    assert_eq!(check_version(SERIALIZATION_FORMAT_VER), Ok(()));
    assert_eq!(check_version(2), Err(AccessError::FormatMismatch(2)));

    let mut w = Writer::new();
    w.write_primitives(&[1u16, 2]);
    w.write_masks(&[3u64]);
    assert_eq!(w.into_bytes(), vec![1, 0, 2, 0, 3, 0, 0, 0, 0, 0, 0, 0]);
}

#[test]
fn bitset_from_lazy_test() {
    let a = HiSparseBitset::from_indices(&[0, 64, 4096, 100000]);
    let b = HiSparseBitset::from_indices(&[1, 64, 100000, 200000]);

    // The intersection raises hierarchy bits over a data block it leaves
    // empty (indices 0 and 1 share a block): it is no trusted hierarchy.
    let and = &a & &b;
    let m = BitSet::from(&and);
    assert_eq!(collect_indices(m.iter()), vec![64, 100000]);
    assert!(is_eq(&m, &and));

    let x = BitSet::from(&a ^ &b);
    assert_eq!(collect_indices(x.iter()), vec![0, 1, 4096, 200000]);

    let none = BitSet::from(apply(Sub, &a, &a));
    assert!(none.is_empty());
    assert!(is_empty(apply(And, &HiSparseBitset::from_indices(&[0]), &HiSparseBitset::from_indices(&[1]))));
}

#[test]
fn cursor_from_test() {
    let s = HiSparseBitset::from_indices(&[3, 70, 130, 5000]);
    let c: IndexCursor = 70.into();
    assert_eq!(collect_indices(s.iter().move_to(c)), vec![70, 130, 5000]);
    let c = IndexCursor::from(71);
    assert_eq!(collect_indices(s.iter().move_to(c)), vec![130, 5000]);
    let c = IndexCursor::from(&DataBlock::new(128, 0));
    assert_eq!(collect_indices(s.iter().move_to(c)), vec![130, 5000]);
    // Beyond the range: the last index of the range.
    let c = IndexCursor::from(usize::MAX);
    assert!(s.iter().move_to(c).next().is_none());

    let c: BlockCursor = 70.into();
    assert_eq!(collect_block_indices(s.block_iter().move_to(c)), vec![70, 130, 5000]);
    let c = BlockCursor::from(&DataBlock::new(4096, 0));
    assert_eq!(collect_block_indices(s.block_iter().move_to(c)), vec![5000]);
}

#[test]
fn readme_usage_test() {
    let bitset1 = HiSparseBitset::from_indices(&[1, 2, 3, 4]);
    let bitset2 = HiSparseBitset::from_indices(&[3, 4, 5, 6]);
    let bitset3 = HiSparseBitset::from_indices(&[3, 4, 7, 8]);
    let bitset4 = HiSparseBitset::from_indices(&[4, 9, 10]);
    let bitsets = [bitset1, bitset2, bitset3];

    // reduce on bitsets
    let intersection = reduce(BitAndOp, &bitsets).unwrap();
    assert_eq!(collect_indices(intersection.iter()), vec![3, 4]);

    // operation between different types
    let union = intersection | &bitset4;
    assert_eq!(collect_indices(union.iter()), vec![3, 4, 9, 10]);

    // partially traverse iterator, and save position to cursor.
    let mut iter = union.iter();
    assert_eq!(iter.next(), Some(3));
    assert_eq!(iter.next(), Some(4));
    let cursor = iter.cursor();

    // resume iteration from cursor position
    let iter = union.iter().move_to(cursor);
    assert_eq!(collect_indices(iter), vec![9, 10]);
}

#[test]
fn traverse_with_cursor_example_test() {
    let bitset = HiSparseBitset::from_indices(&[1, 2, 3, 4]);

    // copy elements from bitset in 2 element sessions.
    let mut output = Vec::new();
    let mut cursor = IndexCursor::start();

    loop {
        let mut counter = 0;
        let ctrl = bitset.iter().move_to(cursor).traverse(|i| {
            if counter == 2 {
                cursor = i.into();
                return ControlFlow::Break(());
            }
            counter += 1;

            output.push(i);
            ControlFlow::Continue(())
        });
        if ctrl.is_continue() {
            break;
        }
    }

    assert_eq!(output, vec![1, 2, 3, 4]);
}

#[test]
fn memory_follows_contents_test() {
    let mut s = HiSparseBitset::new();
    assert_eq!(s.mem_info().hi_blocks_len(), 1);
    assert_eq!(s.mem_info().data_blocks_len(), 1);

    // One index, whatever its value, takes one block per level.
    s.insert(262143);
    assert_eq!(s.mem_info().hi_blocks_len(), 2);
    assert_eq!(s.mem_info().data_blocks_len(), 2);

    // Fill, then clear: no block stays in use.
    let indices: Vec<usize> = (0..5000).map(|i| i * 37).collect();
    for &i in &indices {
        s.insert(i);
    }
    assert!(s.mem_info().data_blocks_len() <= 1 + 5001);
    for &i in &indices {
        s.remove(i);
    }
    s.remove(262143);
    assert!(s.is_empty());
    assert_eq!(s.mem_info().hi_blocks_len(), 1);
    assert_eq!(s.mem_info().data_blocks_len(), 1);

    // Released blocks are reused: refilling needs no more capacity.
    let cap = s.mem_info().data_blocks_cap();
    for &i in &indices {
        s.insert(i);
    }
    assert_eq!(s.mem_info().data_blocks_cap(), cap);
}

#[test]
fn data_blocks_follow_64_index_blocks_test() {
    let mut s = BitSet::new();
    assert_eq!(s.mem_info().data_blocks_len(), 1);
    s.insert(0);
    s.insert(1);
    s.insert(64);
    assert_eq!(s.mem_info().data_blocks_len(), 3);
    s.remove(0);
    assert_eq!(s.mem_info().data_blocks_len(), 3);
    s.remove(1);
    assert_eq!(s.mem_info().data_blocks_len(), 2);
}

#[test]
fn hi_blocks_follow_4096_index_blocks_test() {
    let mut s = BitSet::new();
    assert_eq!(s.mem_info().hi_blocks_len(), 1);
    s.insert(0);
    assert_eq!(s.mem_info().hi_blocks_len(), 2);
    s.insert(4096);
    assert_eq!(s.mem_info().hi_blocks_len(), 3);
    s.remove(4096);
    assert_eq!(s.mem_info().hi_blocks_len(), 2);
}

#[test]
fn intersect_releases_emptied_blocks_test() {
    let mut a = BitSet::from_indices(&[0, 64, 128, 5000, 9000]);
    let b = BitSet::from_indices(&[64, 9000, 9001]);
    assert_eq!(a.mem_info().data_blocks_len(), 6);
    assert_eq!(a.mem_info().hi_blocks_len(), 4);
    a.intersect(&b);
    // Left: 64 and 9000, in two data blocks under two level-1 blocks.
    assert_eq!(a.mem_info().data_blocks_len(), 3);
    assert_eq!(a.mem_info().hi_blocks_len(), 3);
    a.unite(&BitSet::from_indices(&[65, 70000]));
    assert_eq!(a.mem_info().data_blocks_len(), 4);
    assert_eq!(a.mem_info().hi_blocks_len(), 4);
}

#[test]
fn level_reserve_for_test() {
    let mut l = Level::new(64);
    l.reserve_for(100);
    assert!(l.cap() >= 101);
    assert_eq!(l.len(), 1);
    assert_eq!(l.blocks().len(), 1);

    // Blocks already there count towards the total.
    for _ in 0..10 {
        l.insert_empty_block();
    }
    l.reserve_for(300);
    assert!(l.cap() >= 301);
    assert_eq!(l.len(), 11);
    assert_eq!(l.blocks().len(), 11);
}

#[test]
fn level_insert_empty_block_reuse_test() {
    let mut l = Level::new(64);
    assert_eq!(l.insert_empty_block(), 1);
    assert_eq!(l.insert_empty_block(), 2);
    assert_eq!(l.insert_empty_block(), 3);
    l.remove_empty_block_unchecked(1);
    l.remove_empty_block_unchecked(3);
    // The most recently released block comes back first.
    assert_eq!(l.insert_empty_block(), 3);
    assert_eq!(l.insert_empty_block(), 1);
    assert_eq!(l.blocks().len(), 4);
    // None released: a block is appended.
    assert_eq!(l.insert_empty_block(), 4);
    assert_eq!(l.blocks().len(), 5);
}

#[test]
fn index_resume_after_last_returned_test() {
    let mut s = BitSet::from_indices(&[1, 5, 64, 100, 5000, 70000]);
    let mut it = s.iter();
    assert_eq!(it.next(), Some(1));
    assert_eq!(it.next(), Some(5));
    assert_eq!(it.next(), Some(64));
    let c = it.cursor();
    // Remove indices before and after the last one returned.
    s.remove(5);
    s.remove(100);
    let rest = collect_indices(s.iter().move_to(c));
    assert_eq!(rest, vec![5000, 70000]);
}

#[test]
fn data_block_iter_count_is_len_test() {
    let b = DataBlock::new(128, 0b1011_0000_0001);
    let mut it = b.iter();
    let mut out = Vec::new();
    while let Some(i) = it.next() {
        out.push(i);
    }
    assert_eq!(out, vec![128, 136, 137, 139]);
    assert_eq!(out.len(), b.len());
}

#[test]
fn into_indices_is_blocks_in_order_test() {
    let s = BitSet::from_indices(&[3, 70, 71, 4096, 200000, 200001]);
    let mut bi = s.block_iter();
    let first = bi.next().unwrap();
    assert_eq!(first.start_index, 0);
    let by_blocks = collect_block_indices(bi.clone());
    let by_indices = collect_indices(bi.into_indices());
    assert_eq!(by_indices, by_blocks);
    assert_eq!(by_indices, vec![70, 71, 4096, 200000, 200001]);
}

#[test]
fn mem_usage_test() {
    let mut s = BitSet::new();
    let empty = s.mem_info().mem_usage();
    assert!(empty >= std::mem::size_of::<BitSet>());
    for i in (0..262144).step_by(4096) {
        s.insert(i);
    }
    let full = s.mem_info().mem_usage();
    assert!(full > empty);
    let info = s.mem_info();
    assert!(full >= info.hi_blocks_len() * std::mem::size_of::<u64>() + info.data_blocks_len() * std::mem::size_of::<u64>());
}

#[test]
fn deserialization_full_range_test() {
    let mut rng = rand::thread_rng();
    let indices: Vec<usize> = (0..BitSet::max_capacity()).filter(|_| rng.gen()).collect();
    let bitset = HiSparseBitset::from_indices(&indices);
    let buffer = bitset.serialize();
    let back = BitSet::deserialize(&buffer).unwrap();
    assert!(is_eq(&bitset, &back));
    assert_eq!(collect_indices(back.iter()), indices);
}

#[test]
fn nested_reduce_test() {
    // Intersection without cache, of cached unions.
    let su1 = [HiSparseBitset::from_indices(&[1, 2]), HiSparseBitset::from_indices(&[5, 6])];
    let union1 = reduce(Or, &su1).unwrap();
    let su2 = [HiSparseBitset::from_indices(&[1, 3]), HiSparseBitset::from_indices(&[4, 6])];
    let union2 = reduce(Or, &su2).unwrap();
    let si = [union1, union2];
    let intersection = reduce_w_cache(And, &si, NoCache).unwrap();
    assert_eq!(collect_indices(intersection.iter()), vec![1, 6]);

    // Cached intersection, of unions without cache.
    let union1 = reduce_w_cache(Or, &su1, NoCache).unwrap();
    let union2 = reduce_w_cache(Or, &su2, NoCache).unwrap();
    let si = [union1, union2];
    let intersection = reduce(And, &si).unwrap();
    assert_eq!(collect_indices(intersection.iter()), vec![1, 6]);
}

#[test]
fn serialize_canonical_test() {
    let a = HiSparseBitset::from_indices(&[7, 4096, 70000]);
    let mut b = HiSparseBitset::new();
    for i in [200000, 70000, 5, 4096, 9000, 7] {
        b.insert(i);
    }
    b.remove(200000);
    b.remove(5);
    b.remove(9000);
    assert!(is_eq(&a, &b));
    assert_eq!(a.serialize(), b.serialize());
}

#[test]
fn traverse_returns_first_break_test() {
    let r = traverse_one_bits(0b1011_0100, |i| if i > 3 { ControlFlow::Break(i) } else { ControlFlow::Continue(()) });
    assert_eq!(r, ControlFlow::Break(4));

    let s = BitSet::from_indices(&[3, 70, 71, 5000, 9000]);
    let r = s.iter().traverse(|i| if i > 64 { ControlFlow::Break(i) } else { ControlFlow::Continue(()) });
    assert_eq!(r, ControlFlow::Break(70));
    let r = s.block_iter().traverse(|b| if b.start_index > 0 { ControlFlow::Break(b.start_index) } else { ControlFlow::Continue(()) });
    assert_eq!(r, ControlFlow::Break(64));
    let block = DataBlock::new(128, 0b1010_0110);
    let r = block.traverse(|i| if i >= 130 { ControlFlow::Break(i) } else { ControlFlow::Continue(()) });
    assert_eq!(r, ControlFlow::Break(130));
}

#[test]
fn fresh_index_cursor_is_start_test() {
    let empty = BitSet::new();
    let c = empty.iter().cursor();
    let s = BitSet::from_indices(&[0, 5, 70000]);
    assert_eq!(collect_indices(s.iter().move_to(c)), vec![0, 5, 70000]);
}
