use tgp::board::directions::{BinaryDirection, GridDiagDirection, GridDirection};
use tgp::board::index_map::BoardToMap;
use tgp::board::matrix_board::{Index2D, MatrixBoard};
use tgp::board::open_board::{OpenBoard, OpenIndex};
use std::cmp::Ordering;
use tgp::board::search::{search_from_fields, Bidirectional, FieldSearchResult, Searchable};
use tgp::board::search_tree::{Path, SearchMode, SearchingTree};
use tgp::board::structures::{OffsetStructure, WrappedOffsetStructure};
use tgp::board::vec_board::{Index1D, VecBoard};
use tgp::board::{Board, BoardFields, BoardMut, ContiguousBoard, Field};

#[test]
fn vec_board_test() {
    let board = VecBoard::<usize, ()>::with_default(1, ());
    assert_eq!(board.size(), 1);
    assert_eq!(*board.get(Index1D::from(0)).unwrap(), 0);
}

#[test]
fn matrix_board_test() {
    let board = MatrixBoard::<usize, ()>::with_default(2, 2, ());
    assert_eq!(board.size(), 4);
    assert_eq!(*board.get(Index2D::from((1, 1))).unwrap(), 0);
}

#[test]
fn matrix_board_basic_test() {
    let board = MatrixBoard::<usize, ()>::with_default(2, 2, ());
    assert_eq!(board.size(), 4);
    assert_eq!(*board.get(Index2D::from((1, 1))).unwrap(), 0);
}

#[test]
fn vec_board_basic_test() {
    let board = VecBoard::<usize, ()>::with_default(1, ());
    assert_eq!(board.size(), 1);
    assert_eq!(*board.get(Index1D::from(0)).unwrap(), 0);
}

#[test]
fn open_board_basic_test() {
    let mut board = OpenBoard::<bool, ()>::new(());
    board.extend_and_insert(OpenIndex::from((0, 0)), false);
    assert_eq!(board.size(), 1);
    assert_eq!(board.num_cols(), 1);
    assert_eq!(board.num_rows(), 1);
    board.extend_and_insert(OpenIndex::from((1, 1)), true);
    board.extend_and_insert(OpenIndex::from((-1, -1)), true);
    assert_eq!(board.size(), 3);
    assert_eq!(board.num_cols(), 3);
    assert_eq!(board.num_rows(), 3);
    assert_eq!(*board.get(OpenIndex::from((0, 0))).unwrap(), false);
    board.extend_and_insert(OpenIndex::from((-1, 1)), false);
    assert_eq!(*board.get(OpenIndex::from((-1, 1))).unwrap(), false);
}

type GridBoard = MatrixBoard<usize, WrappedOffsetStructure<Index2D, GridDirection>>;

fn check_search_repeated() {
    let board = GridBoard::with_default(2, 2, WrappedOffsetStructure::new());
    let first = board.iter_fields()[0];
    let mut search = first.search();
    assert!(search.grow_repeated(|_| true));
    assert_eq!(search.size(), 4);
    for &(x, y) in [(0, 0), (0, 1), (1, 0), (1, 1)].iter() {
        assert!(search.contains(board.get_field(Index2D { x, y }).unwrap().index()));
    }
}

#[test]
fn search_search_repeated_test() {
    check_search_repeated();
}

#[test]
fn searching_set_search_repeated_test() {
    check_search_repeated();
}

type LineBoard = VecBoard<Option<()>, WrappedOffsetStructure<Index1D, BinaryDirection>>;

fn collect_line<'a, P: Fn(Field<'a, LineBoard>) -> bool>(
    mut iter: Bidirectional<'a, WrappedOffsetStructure<Index1D, BinaryDirection>, LineBoard, P>,
) -> Vec<usize> {
    let mut result = Vec::new();
    while let Some(f) = iter.next() {
        result.push(f.index().val);
    }
    result
}

fn check_bidirectional() {
    let mut board = LineBoard::with_default(5, WrappedOffsetStructure::new());
    {
        let center = board.get_field_unchecked(Index1D::from(2));
        let line = collect_line(center.iter_bidirectional(BinaryDirection::Forward, |_| true));
        assert_eq!(line, vec![2, 3, 4, 0, 1]);
    }

    board.set(Index1D::from(4), Some(()));
    {
        let center = board.get_field_unchecked(Index1D::from(2));
        let line = collect_line(center.iter_bidirectional(BinaryDirection::Forward, |f| f.is_empty()));
        assert_eq!(line, vec![2, 3, 1, 0]);
    }

    // if the root does not match the predicate, iteration still continues
    board.set(Index1D::from(2), Some(()));
    {
        let center = board.get_field_unchecked(Index1D::from(2));
        let line = collect_line(center.iter_bidirectional(BinaryDirection::Forward, |f| f.is_empty()));
        assert_eq!(line, vec![3, 1, 0]);
    }

    board.set(Index1D::from(3), Some(()));
    {
        let center = board.get_field_unchecked(Index1D::from(2));
        let line = collect_line(center.iter_bidirectional(BinaryDirection::Forward, |f| f.is_empty()));
        assert_eq!(line, vec![1, 0]);
    }
}

#[test]
fn search_bidirectional_test() {
    check_bidirectional();
}

#[test]
fn searching_set_bidirectional_test() {
    check_bidirectional();
}

#[test]
fn iter_line_visits_each_field_once() {
    let board = LineBoard::with_default(5, WrappedOffsetStructure::new());
    let center = board.get_field_unchecked(Index1D::from(2));
    let line: Vec<usize> = center.iter_line(BinaryDirection::Forward).iter().map(|f| f.index().val).collect();
    assert_eq!(line, vec![2, 3, 4, 0, 1]);
    let back: Vec<usize> = center.iter_line(BinaryDirection::Backward).iter().map(|f| f.index().val).collect();
    assert_eq!(back, vec![2, 1, 0, 4, 3]);
}

#[test]
fn search_from_board_is_empty() {
    let board = GridBoard::with_default(2, 2, WrappedOffsetStructure::new());
    let mut search = (&board).search();
    assert_eq!(search.size(), 0);
    assert!(!search.grow(|_| true));
    assert!(search.insert(Index2D::from((1, 0))));
    assert!(!search.insert(Index2D::from((1, 0))));
    assert!(search.grow(|_| true));
    assert_eq!(search.size(), 3);
    search.step(|_| true);
    assert_eq!(search.size(), 4);
}

type TreeBoard1 = VecBoard<usize, ()>;

#[test]
fn path_test() {
    let board = TreeBoard1::with_default(1, ());
    let mut tree = SearchingTree::<<TreeBoard1 as BoardToMap<()>>::Map, TreeBoard1>::new(&board);
    {
        let path_1 = Path { tree_index: 0, length: 0, searching_tree: &tree };
        let path_2 = path_1;
        assert!(path_1 == path_2);
    }
    tree.insert_root(Index1D::from(0));
}

type DiagBoard = MatrixBoard<usize, OffsetStructure<Index2D, GridDiagDirection>>;

#[test]
fn search_tree_basic_test() {
    let board = DiagBoard::with_default(2, 2, OffsetStructure::new());
    let mut tree = SearchingTree::<<DiagBoard as BoardToMap<()>>::Map, DiagBoard>::new(&board);
    tree.insert_root(Index2D::from((0, 0)));
    tree.extend_with(|_, path| {
        FieldSearchResult::from_vec(path.endpoint().neighbors().iter().map(|f| f.index()).collect())
    });
    let paths = tree.iter_paths();
    assert_eq!(paths.len(), 3);
    let expected = vec![Index2D::from((1, 0)), Index2D::from((1, 1)), Index2D::from((0, 1))];
    assert!((paths[0] != paths[1]) && (paths[1]) != (paths[2]) && (paths[0] != paths[2]));
    for p in paths {
        assert_eq!(p.len(), 2);
        assert!(expected.contains(&p.endpoint().index()));
    }
}

type RingBoard = VecBoard<usize, WrappedOffsetStructure<Index1D, BinaryDirection>>;

#[test]
fn no_cylce_mode_test() {
    let board = RingBoard::with_default(3, WrappedOffsetStructure::new());
    let mut tree = SearchingTree::<<RingBoard as BoardToMap<()>>::Map, RingBoard>::new(&board);
    tree.insert_root(Index1D::from(1));
    let neighbors = |f: Field<RingBoard>| FieldSearchResult::from_vec(f.neighbors().iter().map(|n| n.index()).collect());
    tree.extend(neighbors, SearchMode::NoCycles);
    tree.extend(neighbors, SearchMode::NoCycles);
    let paths = tree.iter_paths();
    assert_eq!(paths.len(), 2);
    let expected = vec![Index1D::from(0), Index1D::from(2)];
    assert!(paths[0] != paths[1]);
    for p in paths {
        assert_eq!(p.len(), 3);
        assert!(expected.contains(&p.endpoint().index()));
    }
}

#[test]
fn new_fields_only_mode_skips_known_fields() {
    let board = RingBoard::with_default(3, WrappedOffsetStructure::new());
    let mut tree = SearchingTree::<<RingBoard as BoardToMap<()>>::Map, RingBoard>::new(&board);
    tree.insert_root(Index1D::from(1));
    assert!(tree.grow(|_| true, SearchMode::NewFieldsOnly));
    assert_eq!(tree.num_active_paths(), 2);
    assert_eq!(tree.num_fields(), 3);
    assert!(!tree.grow(|_| true, SearchMode::NewFieldsOnly));
    assert_eq!(tree.num_active_paths(), 0);
}

#[test]
fn path_points_and_subpaths() {
    let board = RingBoard::with_default(5, WrappedOffsetStructure::new());
    let mut tree = SearchingTree::<<RingBoard as BoardToMap<()>>::Map, RingBoard>::new(&board);
    tree.insert_root(Index1D::from(0));
    tree.grow(|f| f.index().val <= 2, SearchMode::NewFieldsOnly);
    tree.grow(|f| f.index().val <= 2, SearchMode::NewFieldsOnly);
    let paths = tree.iter_paths();
    assert_eq!(paths.len(), 1);
    let p = paths[0];
    assert_eq!(p.len(), 3);
    let points: Vec<usize> = p.iter_points().iter().map(|f| f.index().val).collect();
    assert_eq!(points, vec![2, 1, 0]);
    assert!(p.contains(Index1D::from(1)));
    assert!(!p.contains(Index1D::from(3)));
    let sub = p.subpath(1, 3).unwrap();
    assert_eq!(sub.len(), 2);
    assert_eq!(sub.endpoint().index().val, 1);
    assert!(p.subpath(2, 2).is_none());
    assert!(p.subpath(0, 4).is_none());
    assert_eq!(p.iter_subpaths().len(), 3);
    assert_eq!(p.next_subpath().unwrap().endpoint().index().val, 1);
}

#[test]
fn two_dimensional_indices_compare_with_the_other_row() {
    let a = Index2D { x: 1, y: 1 };
    let b = Index2D { x: 5, y: 2 };
    assert_eq!(a.partial_cmp(&b), Some(Ordering::Less));
    assert_eq!(a.partial_cmp(&a), Some(Ordering::Equal));
    assert_eq!(Index2D { x: 0, y: 5 }.partial_cmp(&Index2D { x: 3, y: 1 }), None);
    assert_eq!(Index2D { x: 0, y: 3 }.partial_cmp(&Index2D { x: 9, y: 3 }), Some(Ordering::Less));
    assert_eq!(Index2D { x: 4, y: 4 }.partial_cmp(&Index2D { x: 0, y: 2 }), Some(Ordering::Greater));
    assert!(OpenIndex::from((-1, -1)) < OpenIndex::from((3, 0)));
    assert_eq!(OpenIndex::from((2, -5)).partial_cmp(&OpenIndex::from((0, 0))), None);
}

#[test]
fn search_from_fields_collects_the_fields() {
    let board = GridBoard::with_default(2, 2, WrappedOffsetStructure::new());
    assert!(search_from_fields::<GridBoard>(Vec::new()).is_none());
    let fields = vec![
        board.get_field(Index2D::from((1, 1))).unwrap(),
        board.get_field(Index2D::from((0, 1))).unwrap(),
        board.get_field(Index2D::from((1, 1))).unwrap(),
    ];
    let set = search_from_fields(fields).unwrap();
    assert_eq!(set.size(), 2);
    assert!(set.contains(Index2D::from((0, 1))));
    assert!(!set.contains(Index2D::from((0, 0))));
}

#[test]
fn index_order_is_componentwise() {
    let board = MatrixBoard::<usize, ()>::with_default(3, 1, ());
    let inside = Index2D { x: 2, y: 0 };
    assert!(board.contains(inside));
    assert_eq!(inside.partial_cmp(&board.bound()), Some(Ordering::Less));
    assert_eq!(Index2D { x: 1, y: 2 }.partial_cmp(&Index2D { x: 2, y: 1 }), None);
    assert_eq!(Index2D { x: 3, y: 2 }.partial_cmp(&Index2D { x: 2, y: 1 }), Some(Ordering::Greater));
    assert_eq!(OpenIndex::from((2, 0)).partial_cmp(&OpenIndex::from((3, 1))), Some(Ordering::Less));
}

#[test]
fn matrix_board_fields_are_distinct() {
    let mut board = MatrixBoard::<usize, ()>::with_default(2, 3, ());
    assert!(board.contains(Index2D { x: 1, y: 2 }));
    assert_eq!(*board.get(Index2D { x: 1, y: 2 }).unwrap(), 0);
    assert!(board.set(Index2D { x: 1, y: 0 }, 4));
    assert!(board.set(Index2D { x: 0, y: 1 }, 5));
    assert_eq!(*board.get(Index2D { x: 1, y: 0 }).unwrap(), 4);
    assert_eq!(*board.get(Index2D { x: 0, y: 1 }).unwrap(), 5);
    assert!(!board.contains(Index2D { x: 2, y: 0 }));
}

#[test]
fn open_board_overwrite_keeps_size() {
    let mut board = OpenBoard::<bool, ()>::new(());
    board.extend_and_insert(OpenIndex::from((0, 0)), false);
    board.extend_and_insert(OpenIndex::from((0, 0)), true);
    assert_eq!(board.size(), 1);
    assert_eq!(*board.get(OpenIndex::from((0, 0))).unwrap(), true);
    board.extend_and_insert(OpenIndex::from((2, -1)), true);
    assert_eq!(board.size(), 2);
    assert_eq!(board.num_cols(), 3);
    assert_eq!(board.num_rows(), 2);
}
