use zjit::bitset::{BitMatrix, BitSet};

#[test]
#[should_panic]
fn get_over_capacity_panics() {
    let set = BitSet::with_capacity(0);
    assert!(!set.get(0usize));
}

#[test]
fn with_capacity_defaults_to_zero() {
    let set = BitSet::with_capacity(4);
    assert!(!set.get(0usize));
    assert!(!set.get(1usize));
    assert!(!set.get(2usize));
    assert!(!set.get(3usize));
}

#[test]
fn insert_sets_bit() {
    let mut set = BitSet::with_capacity(4);
    assert!(set.insert(1usize));
    assert!(set.get(1usize));
}

#[test]
fn insert_with_set_bit_returns_false() {
    let mut set = BitSet::with_capacity(4);
    assert!(set.insert(1usize));
    assert!(!set.insert(1usize));
}

#[test]
fn insert_all_sets_all_bits() {
    let mut set = BitSet::with_capacity(4);
    set.insert_all();
    assert!(set.get(0usize));
    assert!(set.get(1usize));
    assert!(set.get(2usize));
    assert!(set.get(3usize));
}

#[test]
#[should_panic]
fn intersect_with_panics_with_different_num_bits() {
    let mut left: BitSet<usize> = BitSet::with_capacity(3);
    let right = BitSet::with_capacity(4);
    left.intersect_with(&right);
}

#[test]
fn intersect_with_keeps_only_common_bits() {
    let mut left = BitSet::with_capacity(3);
    let mut right = BitSet::with_capacity(3);
    left.insert(0usize);
    left.insert(1usize);
    right.insert(1usize);
    right.insert(2usize);
    left.intersect_with(&right);
    assert!(!left.get(0usize));
    assert!(left.get(1usize));
    assert!(!left.get(2usize));
}

#[test]
fn test_iter_set_bits() {
    let mut set: BitSet<usize> = BitSet::with_capacity(10);
    set.insert(1usize);
    set.insert(5usize);
    set.insert(9usize);

    let set_bits: Vec<usize> = set.iter_set_bits();
    assert_eq!(set_bits, vec![1, 5, 9]);
}

#[test]
fn test_iter_set_bits_empty() {
    let set: BitSet<usize> = BitSet::with_capacity(10);
    let set_bits: Vec<usize> = set.iter_set_bits();
    assert_eq!(set_bits, Vec::<usize>::new());
}

#[test]
fn test_iter_set_bits_all() {
    let mut set: BitSet<usize> = BitSet::with_capacity(5);
    set.insert_all();
    let set_bits: Vec<usize> = set.iter_set_bits();
    assert_eq!(set_bits, vec![0, 1, 2, 3, 4]);
}

#[test]
fn test_iter_set_bits_large() {
    let mut set: BitSet<usize> = BitSet::with_capacity(200);
    set.insert(0usize);
    set.insert(127usize);
    set.insert(128usize);
    set.insert(199usize);

    let set_bits: Vec<usize> = set.iter_set_bits();
    assert_eq!(set_bits, vec![0, 127, 128, 199]);
}

#[test]
fn remove_clears_bit() {
    let mut set = BitSet::with_capacity(130);
    set.insert(129usize);
    assert!(set.remove(129usize));
    assert!(!set.remove(129usize));
    assert!(!set.get(129usize));
}

#[test]
fn union_and_difference_report_changes() {
    let mut left: BitSet<usize> = BitSet::with_capacity(200);
    let mut right: BitSet<usize> = BitSet::with_capacity(200);
    right.insert(3);
    right.insert(150);
    assert!(left.union_with(&right));
    assert!(!left.union_with(&right));
    assert!(left.equals(&right));
    assert!(left.difference_with(&right));
    assert!(!left.difference_with(&right));
    assert_eq!(left.iter_set_bits(), Vec::<usize>::new());
    assert!(!left.equals(&right));
}

#[test]
fn copy_and_clear() {
    let mut left: BitSet<usize> = BitSet::with_capacity(20);
    let mut right: BitSet<usize> = BitSet::with_capacity(20);
    right.insert(7);
    left.copy_from(&right);
    assert!(left.get(7));
    left.clear();
    assert!(!left.get(7));
    assert!(right.clone().get(7));
}

#[test]
fn sets_with_the_same_members_are_equal() {
    for num_bits in [1usize, 5, 127, 128, 129] {
        let mut all: BitSet<usize> = BitSet::with_capacity(num_bits);
        all.insert_all();
        let mut each: BitSet<usize> = BitSet::with_capacity(num_bits);
        for idx in 0..num_bits {
            each.insert(idx);
        }
        assert!(all.equals(&each));
        assert!(each.equals(&all));
        // No member changes, so nothing does.
        assert!(!all.intersect_with(&each));
        assert!(!each.union_with(&all));
        let mut matrix: BitMatrix<usize> = BitMatrix::new(2, num_bits);
        matrix.insert_all_row(1);
        assert!(each.equals_row(matrix.row(1)));
        assert!(!matrix.intersect_row_with(1, &each));
        assert!(!each.equals_row(matrix.row(0)));
        assert!(all.remove(num_bits - 1));
        assert!(!all.equals(&each));
    }
}

#[test]
fn narrow_indices_work_too() {
    let mut set: BitSet<u16> = BitSet::with_capacity(300);
    assert!(set.insert(299u16));
    assert!(set.get(299u16));
    let mut bytes: BitSet<u8> = BitSet::with_capacity(10);
    assert!(bytes.insert(9u8));
    assert_eq!(bytes.iter_set_bits(), vec![9]);
}

#[derive(Clone, Copy)]
struct BlockId(usize);

impl From<BlockId> for usize {
    fn from(id: BlockId) -> usize {
        id.0
    }
}

#[test]
fn ids_of_the_compiler_number_bits() {
    let mut set: BitSet<BlockId> = BitSet::with_capacity(130);
    assert!(set.insert(BlockId(129)));
    assert!(set.get(BlockId(129)));
    assert!(!set.get(BlockId(1)));
    assert!(set.remove(BlockId(129)));
}

#[test]
fn matrix_rows_are_independent() {
    let mut matrix: BitMatrix<usize> = BitMatrix::new(3, 130);
    assert!(matrix.insert(1, 129));
    assert!(!matrix.insert(1, 129));
    assert!(matrix.get(1, 129));
    assert!(!matrix.get(0, 129));
    assert!(!matrix.get(2, 0));
    matrix.insert_all_row(2);
    assert!(matrix.get(2, 0) && matrix.get(2, 129));
    assert!(!matrix.get(0, 0));
    assert_eq!(matrix.row(1).iter_set_bits(), vec![129]);
    assert!(matrix.row(1).get(129));
}

#[test]
fn rows_combine_with_sets() {
    let mut matrix: BitMatrix<usize> = BitMatrix::new(2, 10);
    matrix.insert_all_row(0);
    let mut set: BitSet<usize> = BitSet::with_capacity(10);
    set.insert(4);
    assert!(matrix.intersect_row_with(0, &set));
    assert!(!matrix.intersect_row_with(0, &set));
    assert_eq!(matrix.row(0).iter_set_bits(), vec![4]);
    assert!(set.equals_row(matrix.row(0)));

    set.insert(5);
    matrix.copy_row_from(1, &set);
    assert_eq!(matrix.row(1).iter_set_bits(), vec![4, 5]);

    let mut other: BitSet<usize> = BitSet::with_capacity(10);
    assert!(other.union_with_row(matrix.row(1)));
    assert!(other.difference_with_row(matrix.row(0)));
    assert_eq!(other.iter_set_bits(), vec![5]);
    other.copy_from_row(matrix.row(0));
    assert_eq!(other.iter_set_bits(), vec![4]);
}

#[test]
fn set_bits_are_found_wherever_they_are() {
    let positions = vec![0, 1, 62, 63, 64, 65, 127, 128, 191, 192, 255, 384, 399];
    let mut set: BitSet<usize> = BitSet::with_capacity(400);
    for position in &positions {
        set.insert(*position);
    }
    assert_eq!(set.iter_set_bits(), positions);
    set.insert_all();
    assert_eq!(set.iter_set_bits(), (0..400).collect::<Vec<usize>>());
    set.clear();
    assert!(set.iter_set_bits().is_empty());
}
