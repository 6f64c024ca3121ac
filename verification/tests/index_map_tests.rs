use tgp::board::index_map::{ArrayIndexMap, HashIndexMap, IndexMap};
use tgp::board::matrix_board::{Index2D, MatrixBoard};
use tgp::board::{Board, BoardFields, BoardIndexable, BoardMut};

#[test]
fn hash_index_map_test() {
    let mut map = HashIndexMap::<usize, i32>::new();
    assert_eq!(map.size(), 0);

    map.insert(0, 3);
    map.insert(1, 2);
    assert!(map.contains(0));
    assert!(map.contains(1));
    assert!(!map.contains(2));
    assert_eq!(map.get(0), Some(&3));
    assert_eq!(map.get(1), Some(&2));
    map.insert(0, 0);
    assert_eq!(map.get(0), Some(&0));
    map.insert(2, 2);
    assert_eq!(map.get(2), Some(&2));
    assert_eq!(map.size(), 3);
    map.retain(|i, _| i != 1);
    assert_eq!(map.get(0), Some(&0));
    assert_eq!(map.get(1), None);
    assert_eq!(map.get(2), Some(&2));
    assert_eq!(map.iter_indices(), vec![0, 2]);
    map.clear();
    assert!(!map.contains(0) && map.iter_indices().len() == 0);
}

#[test]
fn array_index_map_test() {
    let mut map = ArrayIndexMap::<usize, i32, 3>::new();
    assert_eq!(map.size(), 0);

    map.insert(0, 3);
    map.insert(1, 2);
    assert!(map.contains(0));
    assert!(map.contains(1));
    assert!(!map.contains(2));
    assert_eq!(map.get(0), Some(&3));
    assert_eq!(map.get(1), Some(&2));
    map.insert(0, 0);
    assert!(!map.is_full());
    assert_eq!(map.get(0), Some(&0));
    map.insert(2, 2);
    assert!(map.is_full());
    assert_eq!(map.get(2), Some(&2));
    assert_eq!(map.size(), 3);
    map.retain(|i, _| i != 1);
    assert_eq!(map.get(0), Some(&0));
    assert_eq!(map.get(1), None);
    assert_eq!(map.get(2), Some(&2));
    assert_eq!(map.iter_indices(), vec![0, 2]);
    map.clear();
    assert!(!map.contains(0) && map.iter_indices().len() == 0);
}

#[test]
fn index_map_get_mut_changes_in_place() {
    let mut map = HashIndexMap::<usize, i32>::new();
    map.insert(4, 1);
    map.insert(7, 2);
    if let Some(v) = map.get_mut(7) {
        *v = 20;
    }
    assert!(map.get_mut(5).is_none());
    assert_eq!(map.get(7), Some(&20));
    assert_eq!(map.get(4), Some(&1));
    assert_eq!(map.iter_indices(), vec![4, 7]);

    let mut small = ArrayIndexMap::<usize, i32, 2>::new();
    small.insert(1, 5);
    if let Some(v) = small.get_mut(1) {
        *v += 1;
    }
    assert_eq!(small.get(1), Some(&6));
    assert!(!small.is_full());
}

#[test]
fn board_lists_indices_and_contents_in_order() {
    let mut board = MatrixBoard::<i32, ()>::with_default(2, 2, ());
    let _ = board.set(Index2D { x: 1, y: 0 }, 7);
    let indices: Vec<(usize, usize)> = board.all_indices().iter().map(|i| (i.x, i.y)).collect();
    assert_eq!(indices, vec![(0, 0), (0, 1), (1, 0), (1, 1)]);
    let contents: Vec<i32> = board.iter().iter().map(|c| **c).collect();
    assert_eq!(contents, vec![0, 0, 7, 0]);
    assert_eq!(board.iter_fields().len(), 4);
    assert_eq!(board.size(), 4);
}
