use hi_sparse_bitset::immutable_bitset::ImmutableBitset;
use hi_sparse_bitset::ops::And;
use hi_sparse_bitset::{apply, BitSet, BitSetInterface};

fn indices<S: BitSetInterface>(set: &S) -> Vec<usize> {
    let mut it = set.iter();
    let mut out = Vec::new();
    while let Some(i) = it.next() {
        out.push(i);
    }
    out
}

#[test]
fn materialize_test() {
    let bitset = BitSet::from_indices(&[1, 2, 3, 500, 12836]);

    let im = ImmutableBitset::from_bitset(&bitset);

    assert_eq!(indices(&bitset), indices(&im));
}

#[test]
fn serialization_test() {
    let bitset = BitSet::from_indices(&[1, 2, 3, 4]);

    let im = ImmutableBitset::from_bitset(&bitset);
    assert_eq!(indices(&bitset), indices(&im));

    let vec: Vec<u8> = im.serialize();

    let im = ImmutableBitset::deserialize(&vec).unwrap();
    for i in indices(&bitset) {
        assert!(im.contains(i));
    }
    assert_eq!(indices(&bitset), indices(&im));
}

#[test]
fn immutable_serializes_as_bitset_test() {
    let bitset = BitSet::from_indices(&[0, 63, 64, 4095, 4096, 100000, 262143]);
    let im = ImmutableBitset::from_bitset(&bitset);
    assert_eq!(im.serialize(), bitset.serialize());
    assert_eq!(indices(&im), vec![0, 63, 64, 4095, 4096, 100000, 262143]);
    assert!(!im.contains(65));
    assert!(im.contains(100000));

    let empty = ImmutableBitset::from_bitset(&BitSet::new());
    assert_eq!(indices(&empty), Vec::<usize>::new());
    assert!(ImmutableBitset::deserialize(&[1u8]).is_err());
}

#[test]
fn from_lazy_bitset_test() {
    let a = BitSet::from_indices(&[1, 70, 5000, 9000]);
    let b = BitSet::from_indices(&[2, 71, 5000, 9001]);
    // The intersection reaches data blocks that turn out empty.
    let im = ImmutableBitset::from(apply(And, &a, &b));
    assert_eq!(indices(&im), vec![5000]);
    assert_eq!(im.serialize(), BitSet::from_indices(&[5000]).serialize());
}
