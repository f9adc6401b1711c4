use std::collections::HashSet;
use std::ops::ControlFlow;

use rand::Rng;

use hi_sparse_bitset::binary_op::{BinaryOp, BitAndOp, BitOrOp, BitSubOp, BitXorOp};
use hi_sparse_bitset::bitset_interface::LevelMasks;
use hi_sparse_bitset::cache::{DynamicCache, FixedCache};
use hi_sparse_bitset::iter::{BlockCursor, BlockIter, IndexCursor, IndexIter};
use hi_sparse_bitset::ops::{BitSetOp, Or};
use hi_sparse_bitset::{apply, reduce, reduce_w_cache, BitSet, BitSetInterface, DataBlock};

type HiSparseBitset = BitSet;

fn block_indices(block: &DataBlock) -> Vec<usize> {
    let mut out = Vec::new();
    let mut it = block.iter();
    while let Some(i) = it.next() {
        out.push(i);
    }
    out
}

fn collect_blocks<T: LevelMasks>(mut iter: BlockIter<T>) -> Vec<DataBlock> {
    let mut out = Vec::new();
    while let Some(block) = iter.next() {
        out.push(block);
    }
    out
}

fn collect_indices<T: LevelMasks>(mut iter: IndexIter<T>) -> Vec<usize> {
    let mut out = Vec::new();
    while let Some(i) = iter.next() {
        out.push(i);
    }
    out
}

#[test]
fn smoke_test() {
    let mut set = HiSparseBitset::default();

    assert!(!set.contains(0));
    set.insert(0);
    assert!(set.contains(0));
}

#[test]
fn insert_regression_test() {
    // DataBlockIndex was not large enough to address all DataBlocks.
    let insert = vec![81648, 70040, 69881, 4369, 31979, 56135, 87035, 27405, 94536, 14584, 69382, 49738, 33614, 19792, 66045, 29454, 59890, 1090, 80621, 53565, 14159, 2074, 76781, 6738, 83682, 20911, 94984, 80623, 50653, 26040, 79167, 50392, 31127, 28651, 59950, 73948, 12481, 13289, 16253, 77853, 42874, 86002, 63915, 7955, 52174, 33139, 77502, 16557, 97431, 9890, 19461, 82497, 87773, 85552, 88794, 5638, 53958, 37342, 57421, 79867, 96855, 83728, 1474, 6109, 6257, 91164, 76875, 19594, 44621, 57130, 53782, 75442, 50704, 40294, 16568, 9678, 75137, 29432, 80030, 6055, 43712, 79514, 19474, 61466, 46711, 87950, 94863, 1003, 46131, 61479, 87580, 4921, 49036, 71276, 67886, 8474, 58231, 60423, 99815, 49265, 82376, 62220, 30612, 26212, 29064, 75311, 60434, 14591, 8479, 63516, 79371, 98992, 34600, 3073, 15808, 71479, 80278, 28596, 27844, 42506, 17133, 59812, 89721, 92112, 23382, 70895, 23044, 96229, 74413, 12051, 94022, 4830, 30606, 64922, 89663, 59286, 98662, 16009, 42336, 29433, 60748, 41762, 23098, 62999, 24522, 75963, 18002, 37599, 79931, 43878, 25758, 75672, 33099, 54768, 57160, 73527, 46764, 75596, 81567, 5953, 69160, 70799, 20319, 8023, 24639, 5526, 4068, 7248, 14628, 97735, 42080, 25881, 91583, 40605, 44134, 22706, 34547, 53265, 1424, 80496, 9894, 19324, 35624, 10335, 97325, 12085, 57335, 89242, 52991, 74868, 75155, 78683, 68180, 55659, 159, 82153, 21802, 62499, 13865, 86661, 63992, 56095, 46342, 9339, 29598, 57330, 40593, 50058, 11451, 79062, 76579, 97251, 2045, 69331, 44047, 51070, 52200, 29900, 18500, 26570, 69129, 841, 88289, 78380, 23277, 27252, 80342, 98361, 41967, 76318, 46160, 49982, 42613, 44331, 54163, 32182, 46394, 63567, 25258, 84565, 18447, 16327, 68024, 95023, 55068, 59260, 24933, 4065, 5060, 81498, 89619, 7464, 60886, 22123, 87004, 25864, 17141, 34239, 10916, 5989, 91695, 24318, 82378, 32613, 16399, 50519, 54776, 87956, 84821, 74634, 7997, 86768, 34603, 69863, 94967, 50891, 70401, 83942, 85139, 8364, 8258, 99866, 21950, 63876, 32750, 5189, 75194, 34563, 78447, 14877, 83526, 26214, 1948, 68727, 49824, 55674, 4734, 48862, 26280, 75557, 96939, 30784, 66303, 69583, 44598, 82073, 54225, 81280, 8735, 32231, 60384, 2399, 5950, 96235, 42523, 20806, 26941, 73590, 32468, 4430, 76240, 34904, 24908, 31811, 71084, 99476, 48439, 13982, 24755, 38280, 81421, 66048, 72804, 5676, 22421, 88208, 43076, 3825, 45046, 17674, 52393, 70823, 82194, 25426, 53426, 34225, 68279, 98832, 29892, 38107, 64503, 24810, 99691, 82755, 56292, 21381, 96569, 33870, 50740, 10775, 43463, 10361, 79284, 21914, 33337, 93280, 27701, 12272, 35920, 35046, 82052, 75639, 1265, 90897, 99721, 27096, 75006, 92116, 12568, 11396, 64228, 85758, 8041, 30803, 37449, 83983, 33759, 75077, 22202, 90770, 29504, 40942, 134, 1661, 63615, 2465, 96964, 62333, 41605, 18746, 97835, 41262, 77397, 37877, 11084, 51122, 74987, 28024, 78981, 67489, 58293, 38546, 5753, 35035, 81375, 46964, 12780, 85476, 9278, 79564, 71250, 73450, 54928, 60383, 8784, 78604, 82215, 76524, 68112, 81080, 60635, 3313, 70818, 11515, 15039, 16401, 42245, 48242, 87192, 27965, 72971, 11937, 75718, 53388, 59647, 69358, 42201, 66701, 51628, 34994, 39815, 63946, 10996, 11503, 85880, 58792, 94111, 6673, 99802, 7823, 29570, 81137, 27800, 93920, 78610, 84695, 96901, 68661, 80431, 66087, 50296, 45463, 63353, 44284, 84585, 76471, 38385, 31463, 91744, 55237, 44637, 15091, 62018, 23315, 36266, 94985, 95107, 63600, 46176, 94696, 69953, 99624, 91338, 11665, 33243, 22048, 77125, 46785, 12688, 61284, 87989, 85715, 65754, 86959, 61316, 95721, 27272, 39746, 53254, 78023, 49197, 51300, 15061, 92589, 70761, 29260, 9711, 21532, 43802, 38809, 45438, 10105, 14774, 60125, 51371, 27479, 35448, 9152, 41521, 61589, 82456, 87647, 10689, 68592, 23324, 66377, 91867, 7881, 23242, 5566, 1650, 447, 56480, 29996, 33382, 9913, 10669, 7657, 49606, 8707, 64984, 71762, 97917, 81242, 58586, 30410, 19232, 84153, 84033, 94535, 71307, 34988, 73823, 53717, 9757, 25540, 43769, 38933, 24864, 3490, 54100, 74574, 45607, 64771, 20570, 51752, 51354, 934, 61460, 66962, 90202, 39095, 13054, 60517, 85046, 38155, 17786, 12018, 73068, 5961, 16816, 73953, 80046, 71998, 99611, 52521, 14382, 58105, 86941, 17770, 67849, 67536, 1911, 59935, 17209, 37967, 29073, 27130, 74980, 97600, 41566, 79834, 20446, 99223, 48978, 66506, 59855, 18264, 9047, 13150, 92839, 26830, 74781, 27987, 75994, 60438, 8940, 48668, 84280, 71786, 1803, 71381, 41078, 10382, 84257, 95683, 4587, 33126, 92651, 78140, 61236, 96100, 93009, 61924, 56318, 34929, 78248, 55956, 3299, 73724, 45611, 25372, 62847, 14959, 63943, 46100, 66310, 84733, 39094, 22378, 36605, 66795, 44425, 13795, 14831, 63404, 90275, 26253, 65048, 65796, 19194, 6974, 71510, 95671, 72101, 81604, 9421, 38217, 40571, 11897, 653, 73418, 78287, 12134, 41718, 95256, 50881, 38983, 31079, 34469, 20615, 56502, 18022, 34186, 82119, 61533, 89187, 79094, 88514, 98011, 50228, 28780, 23755, 18383, 17406, 36655, 15121, 39548, 95978, 95355, 5141, 20769, 49183, 16338, 11419, 19076, 64557, 62532, 74389, 62598, 14643, 69516, 32262, 20264, 78275, 8679, 90212, 53704, 90341, 41178, 99161, 32231, 40456, 17388, 81135, 88476, 12577, 21064, 51932, 31816, 97568, 90908, 58263, 28436, 47779, 49437, 99197, 4320, 72970, 67943, 85990, 60832, 71006, 42225, 22618, 3382, 5303, 327, 28724, 37180, 15129, 83399, 24183, 56464, 87398, 29180, 16049, 15357, 58042, 31234, 42819, 67983, 51088, 5282, 61580, 84463, 10900, 70287, 62423, 85788, 28859, 26614, 94292, 54912, 36618, 81500, 85987, 92179, 86629, 13646, 37609, 64161, 34435, 53043, 54794, 74341, 15869, 44322, 74946, 64581, 39531];
    let hi_set = HiSparseBitset::from_indices(&insert);
    let c = hi_set.contains(76790);
    assert!(!c);
}

fn fuzzy_reduce_test<Op: BinaryOp, H>(hiset_op: Op, hashset_op: H)
where
    H: Fn(&HashSet<usize>, &HashSet<usize>) -> HashSet<usize>,
    H: Copy,
{
    // The sizes of the miri profile: a run must end within the test time limit.
    const MAX_SETS: usize = 4;
    const MAX_INSERTS: usize = 100;
    const MAX_GUARANTEED_INTERSECTIONS: usize = 10;
    const MAX_REMOVES: usize = 100;
    const MAX_RANGE: usize = 1000;
    const MAX_RESUMED_INTERSECTION_BLOCKS_CONSUME: usize = 5;
    const MAX_RESUMED_INTERSECTION_INDICES_CONSUME: usize = 30;
    const REPEATS: usize = 2;
    const INNER_REPEATS: usize = 3;
    const INDEX_MUL: usize = 20;

    fn hashset_multi_op<H>(hash_sets: &[HashSet<usize>], hashset_op: H) -> HashSet<usize>
    where
        H: Fn(&HashSet<usize>, &HashSet<usize>) -> HashSet<usize>,
    {
        let mut acc = hash_sets[0].clone();
        for set in &hash_sets[1..] {
            acc = hashset_op(&acc, set);
        }
        acc
    }

    fn run<O: BitSetOp, S1: LevelMasks, S2: LevelMasks>(op: hi_sparse_bitset::Apply<O, S1, S2>) -> Vec<usize> {
        let mut indices2 = Vec::new();
        let mut iter = op.block_iter();
        while let Some(block) = iter.next() {
            let _ = block.traverse(|index| {
                indices2.push(index);
                ControlFlow::<()>::Continue(())
            });
        }
        indices2.sort();
        indices2
    }

    let mut rng = rand::thread_rng();
    for _ in 0..REPEATS {
        let sets_count = rng.gen_range(2..MAX_SETS);
        let mut hash_sets: Vec<HashSet<usize>> = vec![Default::default(); sets_count];
        let mut hi_sets: Vec<HiSparseBitset> = (0..sets_count).map(|_| HiSparseBitset::new()).collect();

        // Resumable intersection guarantee that we'll traverse at least
        // non removed initial intersection set.

        // initial insert
        let mut block_cursor = BlockCursor::default();
        let mut index_cursor = IndexCursor::default();
        let mut initial_hashsets_intersection_for_blocks;
        let mut initial_hashsets_intersection_for_indices;
        {
            for (hash_set, hi_set) in hash_sets.iter_mut().zip(hi_sets.iter_mut()) {
                for _ in 0..rng.gen_range(0..MAX_INSERTS) {
                    let index = rng.gen_range(0..MAX_RANGE) * INDEX_MUL;
                    hash_set.insert(index);
                    hi_set.insert(index);
                }
            }
            initial_hashsets_intersection_for_blocks = hashset_multi_op(&hash_sets, hashset_op);
            initial_hashsets_intersection_for_indices = initial_hashsets_intersection_for_blocks.clone();
        }

        for _ in 0..INNER_REPEATS {
            let mut inserted = Vec::new();
            // random insert
            for (hash_set, hi_set) in hash_sets.iter_mut().zip(hi_sets.iter_mut()) {
                for _ in 0..rng.gen_range(0..MAX_INSERTS) {
                    let index = rng.gen_range(0..MAX_RANGE) * INDEX_MUL;
                    hash_set.insert(index);
                    hi_set.insert(index);
                    inserted.push(index);
                }
            }

            // guaranteed intersection (insert all)
            for _ in 0..rng.gen_range(0..MAX_GUARANTEED_INTERSECTIONS) {
                let index = rng.gen_range(0..MAX_RANGE) * INDEX_MUL;
                for hash_set in &mut hash_sets {
                    hash_set.insert(index);
                }
                for hi_set in &mut hi_sets {
                    hi_set.insert(index);
                }
                inserted.push(index);
            }

            // random remove
            let mut removed = Vec::new();
            for (hash_set, hi_set) in hash_sets.iter_mut().zip(hi_sets.iter_mut()) {
                for _ in 0..rng.gen_range(0..MAX_REMOVES) {
                    let index = rng.gen_range(0..MAX_RANGE) * INDEX_MUL;
                    hash_set.remove(&index);
                    hi_set.remove(index);
                    removed.push(index);
                }
            }

            // etalon intersection
            let hashsets_intersection = hashset_multi_op(&hash_sets, hashset_op);
            let mut hashsets_intersection_vec: Vec<_> = hashsets_intersection.iter().copied().collect();
            hashsets_intersection_vec.sort();

            // remove non-existent intersections from initial_hashsets_intersection
            for index in removed.iter().chain(inserted.iter()) {
                if !hashsets_intersection.contains(index) {
                    initial_hashsets_intersection_for_blocks.remove(index);
                    initial_hashsets_intersection_for_indices.remove(index);
                }
            }

            // suspend/resume blocks
            {
                let mut intersection = reduce(hiset_op, &hi_sets[..]).unwrap()
                    .into_block_iter()
                    .move_to(block_cursor);

                let mut blocks_to_consume = rng.gen_range(0..MAX_RESUMED_INTERSECTION_BLOCKS_CONSUME);

                // through traverse
                let mut traversed_cursor = BlockCursor::end();
                let mut traversed_blocks = Vec::new();
                {
                    let mut blocks_to_consume = blocks_to_consume;
                    let _ = intersection.clone().traverse(|block| {
                        if blocks_to_consume == 0 {
                            traversed_cursor = BlockCursor::from_block(&block);
                            return ControlFlow::Break(());
                        }
                        blocks_to_consume -= 1;

                        traversed_blocks.push(block);
                        ControlFlow::Continue(())
                    });
                }

                // all intersections must be valid
                let mut iterated_blocks = Vec::new();
                loop {
                    if blocks_to_consume == 0 {
                        break;
                    }
                    blocks_to_consume -= 1;

                    if let Some(block) = intersection.next() {
                        let _ = block.traverse(|index| {
                            assert!(hashsets_intersection.contains(&index));
                            // We cannot guarantee that index will
                            // exists in initial intersection, since
                            // it could be added after initial fill.
                            initial_hashsets_intersection_for_blocks.remove(&index);
                            ControlFlow::<()>::Continue(())
                        });

                        iterated_blocks.push(block);
                    } else {
                        break;
                    }
                }

                assert_eq!(traversed_blocks, iterated_blocks);

                block_cursor = intersection.cursor();
                assert_eq!(
                    intersection.clone().move_to(block_cursor).next(),
                    intersection.clone().move_to(traversed_cursor).next()
                );
            }

            // suspend/resume indices
            {
                let mut intersection = reduce(hiset_op, &hi_sets[..]).unwrap()
                    .into_index_iter()
                    .move_to(index_cursor);

                let indices_to_consume = rng.gen_range(0..MAX_RESUMED_INTERSECTION_INDICES_CONSUME);

                // through traverse
                let mut traversed_cursor = IndexCursor::end();
                let mut traversed_indices = Vec::new();
                {
                    let mut indices_to_consume = indices_to_consume;
                    let _ = intersection.clone().traverse(|i| {
                        if indices_to_consume == 0 {
                            traversed_cursor = IndexCursor::from_index(i);
                            return ControlFlow::Break(());
                        }
                        indices_to_consume -= 1;

                        traversed_indices.push(i);
                        ControlFlow::Continue(())
                    });
                }

                // iteration
                let mut iterated_indices = Vec::new();
                for _ in 0..indices_to_consume {
                    let index = match intersection.next() {
                        Some(index) => index,
                        None => break,
                    };
                    assert!(hashsets_intersection.contains(&index));
                    // We cannot guarantee that index will
                    // exists in initial intersection, since
                    // it could be added after initial fill.
                    initial_hashsets_intersection_for_indices.remove(&index);
                    iterated_indices.push(index);
                }

                index_cursor = intersection.cursor();
                assert_eq!(traversed_indices, iterated_indices);
                assert_eq!(
                    intersection.clone().move_to(index_cursor).next(),
                    intersection.clone().move_to(traversed_cursor).next()
                );
            }

            // reduce test
            {
                let mut indices2 = Vec::new();
                let red = reduce(hiset_op, &hi_sets[..]).unwrap();
                for block in collect_blocks(red.block_iter()) {
                    let _ = block.traverse(|index| {
                        indices2.push(index);
                        ControlFlow::<()>::Continue(())
                    });
                }
                indices2.sort();
                assert_eq!(hashsets_intersection_vec, indices2);
            }

            // op
            {
                let op = apply(hiset_op, &hi_sets[0], &hi_sets[1]);
                let indices2 = match hi_sets.len() {
                    2 => Some(run(op)),
                    3 => {
                        let op = apply(hiset_op, op, &hi_sets[2]);
                        Some(run(op))
                    }
                    4 => {
                        let op = apply(hiset_op, op, &hi_sets[2]);
                        let op = apply(hiset_op, op, &hi_sets[3]);
                        Some(run(op))
                    }
                    5 => {
                        let op = apply(hiset_op, op, &hi_sets[2]);
                        let op = apply(hiset_op, op, &hi_sets[3]);
                        let op = apply(hiset_op, op, &hi_sets[4]);
                        Some(run(op))
                    }
                    _ => {
                        // Just skip all other cases, too long to type that.
                        None
                    }
                };
                if let Some(indices2) = indices2 {
                    assert_eq!(hashsets_intersection_vec, indices2);
                }
            }
        }

        // consume resumable blocks leftovers
        {
            let intersection = reduce(hiset_op, &hi_sets[..]).unwrap()
                .into_block_iter()
                .move_to(block_cursor);
            for block in collect_blocks(intersection) {
                let _ = block.traverse(|index| {
                    initial_hashsets_intersection_for_blocks.remove(&index);
                    ControlFlow::<()>::Continue(())
                });
            }
        }

        // consume resumable indices leftovers
        {
            let intersection = reduce(hiset_op, &hi_sets[..]).unwrap()
                .into_index_iter()
                .move_to(index_cursor);

            for index in collect_indices(intersection) {
                initial_hashsets_intersection_for_indices.remove(&index);
            }
        }

        // assert that we consumed all of initial intersection set.
        assert!(initial_hashsets_intersection_for_blocks.is_empty());
        assert!(initial_hashsets_intersection_for_indices.is_empty());
    }
}

#[test]
fn fuzzy_and_test() {
    fuzzy_reduce_test(BitAndOp, |l, r| l & r);
}

#[test]
fn fuzzy_or_test() {
    fuzzy_reduce_test(BitOrOp, |l, r| l | r);
}

#[test]
fn fuzzy_xor_test() {
    fuzzy_reduce_test(BitXorOp, |l, r| l ^ r);
}

// Sub, probably, should not be used with reduce. But for test it will work.
#[test]
fn fuzzy_sub_test() {
    fuzzy_reduce_test(BitSubOp, |l, r| l - r);
}

#[test]
fn empty_intersection_test() {
    let empty: [&HiSparseBitset; 0] = [];
    let reduced = reduce(BitAndOp, &empty[..]);
    assert!(reduced.is_none());
}

#[test]
fn resume_valid_level1_index_miri_test() {
    let s1 = HiSparseBitset::from_indices(&[1000, 2000, 3000]);
    let s2 = s1.clone();

    let list = [s1, s2];
    let r = reduce_w_cache(BitAndOp, &list[..], DynamicCache).unwrap();
    let cursor = {
        let mut i = r.block_iter();
        i.next().unwrap();
        i.cursor()
    };

    let r = reduce_w_cache(BitAndOp, &list[..], DynamicCache).unwrap();

    let mut i = r.block_iter().move_to(cursor);
    i.next();
}

#[test]
fn remove_regression_test1() {
    let mut hi_set = HiSparseBitset::new();
    hi_set.insert(10000);
    hi_set.remove(10000);
    hi_set.insert(10000);

    let c = hi_set.contains(10000);
    assert!(c);
}

#[test]
fn op_or_regression_test1() {
    let h1 = HiSparseBitset::from_indices(&[0]);
    let h2 = HiSparseBitset::from_indices(&[0]);
    let h3 = HiSparseBitset::from_indices(&[4096]);
    let h4 = HiSparseBitset::from_indices(&[4096]);

    let group1 = [&h1, &h2];
    let group2 = [&h3, &h4];
    let reduce1 = reduce(BitOrOp, &group1[..]).unwrap();
    let reduce2 = reduce(BitOrOp, &group2[..]).unwrap();

    let op = apply(Or, reduce1, reduce2);
    let iter = op.block_iter();
    assert_eq!(collect_blocks(iter).len(), 2);
}

#[test]
fn block_cursor_test_empty() {
    let seq: HiSparseBitset = Default::default();

    let iter = seq.block_iter();
    let c = iter.cursor();

    let mut iter = seq.block_iter().move_to(c);
    assert!(iter.next().is_none());
}

#[test]
fn block_cursor_test_empty2() {
    let seq: HiSparseBitset = Default::default();
    let mut iter = seq.block_iter();

    iter.next();
    iter.next();

    let c = iter.cursor();

    let mut iter = seq.block_iter().move_to(c);
    assert!(iter.next().is_none());
}

#[test]
fn empty_block_cursor_clone_regression() {
    let set = HiSparseBitset::new();
    let c = IndexCursor::end();
    let i = set.iter().move_to(c);
    let _ = i.clone();
}

#[test]
fn test() {
    let s = HiSparseBitset::new();
    let info = s.mem_info();
    println!(
        "MemInfo {{ hi_blocks_cap: {}, hi_blocks_len: {}, data_blocks_cap: {}, data_blocks_len: {} }}",
        info.hi_blocks_cap(),
        info.hi_blocks_len(),
        info.data_blocks_cap(),
        info.data_blocks_len()
    );
}

#[test]
fn one_intersection_test() {
    let mut hi_set = HiSparseBitset::default();
    hi_set.insert(0);
    hi_set.insert(12300);
    hi_set.insert(8760);
    hi_set.insert(521);

    let cursor = BlockCursor::default();
    let sets = [&hi_set];
    let iter = reduce(BitAndOp, &sets[..]).unwrap()
        .into_block_iter()
        .move_to(cursor);

    let mut intersection = Vec::new();
    for block in collect_blocks(iter) {
        let _ = block.traverse(|index| {
            intersection.push(index);
            ControlFlow::<()>::Continue(())
        });
    }
    intersection.sort();
    assert_eq!(intersection, vec![0, 521, 8760, 12300]);
}

#[test]
fn regression_test1() {
    // worked only below 2^14=16384.
    let hi_sets = vec![
        HiSparseBitset::from_indices(&[16384]),
        HiSparseBitset::from_indices(&[16384]),
    ];
    let iter = reduce(BitAndOp, &hi_sets[..]).unwrap()
        .into_block_iter()
        .move_to(BlockCursor::default());
    let mut indices2 = Vec::new();
    for block in collect_blocks(iter) {
        let _ = block.traverse(|index| {
            indices2.push(index);
            ControlFlow::<()>::Continue(())
        });
    }
    assert_eq!(indices2, vec![16384]);
}

#[test]
fn reduce2_test() {
    let hi_set1 = HiSparseBitset::from_indices(&[1, 2, 3]);
    let hi_set2 = HiSparseBitset::from_indices(&[1, 2, 3]);
    let hi_set3 = HiSparseBitset::from_indices(&[1, 3]);

    let hi_sets = [hi_set1, hi_set2, hi_set3];
    let hi_set_refs = [&hi_sets[0], &hi_sets[1], &hi_sets[2]];

    let result = reduce(BitAndOp, &hi_sets[..]).unwrap();
    assert_eq!(collect_indices(result.iter()), vec![1, 3]);

    let result = reduce(BitAndOp, &hi_set_refs[..]).unwrap();
    assert_eq!(collect_indices(result.iter()), vec![1, 3]);
}

#[test]
fn reduce_or_test() {
    const BLOCK_SIZE: usize = 64;
    const LEVEL_0: usize = BLOCK_SIZE * BLOCK_SIZE;

    // Different level 0
    let set1_offset = LEVEL_0 * 1;
    let hi_set1_in = [set1_offset + BLOCK_SIZE * 1, set1_offset + BLOCK_SIZE * 2];
    let hi_set1 = HiSparseBitset::from_indices(&hi_set1_in);

    let set2_offset = LEVEL_0 * 2;
    let hi_set2_in = [set2_offset + BLOCK_SIZE * 1];
    let hi_set2 = HiSparseBitset::from_indices(&hi_set2_in);

    let hi_sets = [&hi_set1, &hi_set2];
    let union = reduce(BitOrOp, &hi_sets[..]).unwrap();

    let mut out = Vec::new();
    for block in collect_blocks(union.block_iter()) {
        out.extend(block_indices(&block));
    }
    out.sort();

    let mut etalon: Vec<_> = hi_set1_in.into_iter().collect();
    etalon.extend_from_slice(hi_set2_in.as_slice());
    etalon.sort();

    assert_eq!(out, etalon);
}

#[test]
fn reduce_xor_test() {
    const BLOCK_SIZE: usize = 64;
    const LEVEL_0: usize = BLOCK_SIZE * BLOCK_SIZE;

    let set1_offset = LEVEL_0 * 1;
    let h1e1 = set1_offset + BLOCK_SIZE * 1;
    let h1e2 = set1_offset + BLOCK_SIZE * 2;
    let hi_set1 = HiSparseBitset::from_indices(&[h1e1, h1e2]);

    let set2_offset = LEVEL_0 * 2;
    let h2e1 = set2_offset + BLOCK_SIZE * 1;
    let hi_set2 = HiSparseBitset::from_indices(&[h2e1, h1e2]);

    let hi_sets = [&hi_set1, &hi_set2];
    let red = reduce(BitXorOp, &hi_sets[..]).unwrap();

    let mut out = Vec::new();
    for block in collect_blocks(red.block_iter()) {
        out.extend(block_indices(&block));
    }
    out.sort();

    let mut etalon = vec![h1e1, h2e1];
    etalon.sort();

    assert_eq!(out, etalon);
}

#[test]
fn multilayer_test() {
    let seq1 = [1, 2, 3];
    let hi_sets1 = [
        HiSparseBitset::from_indices(&seq1),
        HiSparseBitset::from_indices(&seq1),
        HiSparseBitset::from_indices(&seq1),
    ];
    let and1 = reduce(BitAndOp, &hi_sets1[..]).unwrap();

    let seq2 = [3, 4, 5];
    let hi_sets2 = [
        HiSparseBitset::from_indices(&seq2),
        HiSparseBitset::from_indices(&seq2),
        HiSparseBitset::from_indices(&seq2),
    ];
    let and2 = reduce(BitAndOp, &hi_sets2[..]).unwrap();

    let seq3 = [5, 6, 7];
    let hi_sets3 = [
        HiSparseBitset::from_indices(&seq3),
        HiSparseBitset::from_indices(&seq3),
        HiSparseBitset::from_indices(&seq3),
    ];
    let and3 = reduce(BitAndOp, &hi_sets3[..]).unwrap();

    let ands = [and1, and2, and3];
    let or = reduce(BitOrOp, &ands[..]).unwrap();
    let or_collected: Vec<_> = collect_blocks(or.block_iter()).iter().flat_map(block_indices).collect();

    assert_eq!(or_collected, vec![1, 2, 3, 4, 5, 6, 7]);
}

#[test]
fn multilayer_or_test() {
    const BLOCK_SIZE: usize = 64;
    const LEVEL_1: usize = BLOCK_SIZE;

    let sets1 = [HiSparseBitset::from_indices(&[1, 2, 3]), HiSparseBitset::from_indices(&[3, 4, 5])];
    let or1 = reduce(BitOrOp, &sets1[..]).unwrap();

    let offset = LEVEL_1 * 2;
    let sets2 = [
        HiSparseBitset::from_indices(&[offset + 1, offset + 2, offset + 3]),
        HiSparseBitset::from_indices(&[offset + 3, offset + 4, offset + 5]),
    ];
    let or2 = reduce(BitOrOp, &sets2[..]).unwrap();

    let higher_kind = [or1, or2];
    let higher_kind_or = reduce(BitOrOp, &higher_kind[..]).unwrap();

    let or_collected: Vec<_> = collect_blocks(higher_kind_or.block_iter()).iter().flat_map(block_indices).collect();
    assert_eq!(
        or_collected,
        vec![1, 2, 3, 4, 5, offset + 1, offset + 2, offset + 3, offset + 4, offset + 5]
    );
}

#[test]
fn op_or_test() {
    let seq1 = HiSparseBitset::from_indices(&[1, 2, 3]);
    let seq2 = HiSparseBitset::from_indices(&[3, 4, 5]);
    let seq3 = HiSparseBitset::from_indices(&[5, 6, 7]);

    let or = apply(Or, apply(Or, &seq1, &seq2), &seq3);
    let or_collected: Vec<_> = collect_blocks(or.block_iter()).iter().flat_map(block_indices).collect();
    assert_eq!(or_collected, vec![1, 2, 3, 4, 5, 6, 7]);
}

#[test]
fn multilayer_fixed_dynamic_cache() {
    let seq1 = HiSparseBitset::from_indices(&[1, 2, 3]);
    let seq2 = HiSparseBitset::from_indices(&[3, 4, 5]);
    let seq3 = HiSparseBitset::from_indices(&[5, 6, 7]);
    let seq4 = HiSparseBitset::from_indices(&[7, 8, 9]);

    let group1 = [seq1, seq2];
    let group2 = [seq3, seq4];
    let or1 = reduce_w_cache(BitOrOp, &group1[..], DynamicCache).unwrap();
    let or2 = reduce_w_cache(BitOrOp, &group2[..], DynamicCache).unwrap();

    let group_finale = [or1, or2];
    let and = reduce_w_cache(BitAndOp, &group_finale[..], FixedCache::<32>).unwrap();

    assert_eq!(collect_indices(and.iter()), vec![5]);
}

#[test]
fn block_cursor_test() {
    let seq = HiSparseBitset::from_indices(&[1000, 2000, 3000, 4000, 5000, 6000]);
    let mut iter = seq.block_iter();

    iter.next();
    iter.next();
    assert_eq!(block_indices(&iter.next().unwrap()), vec![3000]);

    let c = iter.cursor();

    let mut iter = seq.block_iter().move_to(c);
    assert_eq!(block_indices(&iter.next().unwrap()), vec![4000]);
}

#[test]
fn block_cursor_test2() {
    let seq = HiSparseBitset::from_indices(&[0, 64, 128, 192, 256]);
    let mut iter = seq.block_iter();

    iter.next();
    iter.next();
    assert_eq!(block_indices(&iter.next().unwrap()), vec![128]);

    let c = iter.cursor();

    let mut iter = seq.block_iter().move_to(c);
    assert_eq!(block_indices(&iter.next().unwrap()), vec![192]);
}

#[test]
fn index_cursor_test() {
    let all: Vec<usize> = (0..4096 * 4).collect();
    let seq = HiSparseBitset::from_indices(&all);

    let mut iter = seq.iter();
    let mut taken = Vec::new();
    for _ in 0..4096 * 3 {
        taken.push(iter.next().unwrap());
    }
    assert_eq!(taken, (0..4096 * 3).collect::<Vec<_>>());
    let c = iter.cursor();

    let mut iter = seq.iter().move_to(c);
    let mut taken = Vec::new();
    for _ in 0..4096 {
        taken.push(iter.next().unwrap());
    }
    assert_eq!(taken, (4096 * 3..4096 * 4).collect::<Vec<_>>());
}

#[test]
fn index_cursor_test2() {
    let all: Vec<usize> = (0..4096 * 4).collect();
    let seq = HiSparseBitset::from_indices(&all);

    let mut iter = seq.iter();
    let milestone = 4096 * 3 - 64;
    let mut taken = Vec::new();
    for _ in 0..milestone {
        taken.push(iter.next().unwrap());
    }
    assert_eq!(taken, (0..milestone).collect::<Vec<_>>());
    let c = iter.cursor();

    let mut iter = seq.iter().move_to(c);
    assert_eq!(iter.next().unwrap(), milestone);
}
