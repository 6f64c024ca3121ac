use vstd::prelude::*;
use core::marker::PhantomData;
use crate::board::{
    AdjacencyStructure, Board, BoardIdxType, ContiguousBoard, DirectionStructure, NeighborhoodStructure,
};
use crate::board::directions::{DirectionEnumerable, DirectionOffset, OffsetableIndex};

verus! {

/// The indices next to `index` in the given directions that are on the
/// board, in the order of the directions.
pub open spec fn neighbors_in<B: Board, S: DirectionStructure<B>>(
    structure: &S,
    board: &B,
    index: B::Index,
    dirs: Seq<S::Direction>,
) -> Seq<B::Index>
    decreases dirs.len(),
{
    if dirs.len() == 0 {
        Seq::empty()
    } else {
        let prev = neighbors_in(structure, board, index, dirs.drop_last());
        match structure.spec_next(board, index, dirs.last()) {
            Some(n) => if board.spec_get(n) is Some {
                prev.push(n)
            } else {
                prev
            },
            None => prev,
        }
    }
}

/// Some direction leads from `i` to `j`.
pub open spec fn next_in_some<B: Board, S: DirectionStructure<B>>(
    structure: &S,
    board: &B,
    i: B::Index,
    j: B::Index,
    dirs: Seq<S::Direction>,
) -> bool {
    exists|k: int| 0 <= k < dirs.len() && structure.spec_next(board, i, dirs[k]) == Some(j)
}

/// The fields next to a field are those at the offsets of the directions.
pub struct OffsetStructure<I, D> {
    _i: PhantomData<I>,
    _d: PhantomData<D>,
}

impl<I, D> OffsetStructure<I, D> {
    pub fn new() -> Self {
        Self { _i: PhantomData, _d: PhantomData }
    }
}

impl<B: Board, D: DirectionOffset<<B::Index as OffsetableIndex>::Offset>> DirectionStructure<B> for OffsetStructure<
    B::Index,
    D,
> where B::Index: OffsetableIndex {
    type Direction = D;

    /// The index at the offset of the direction, if it is on the board.
    open spec fn spec_next(&self, board: &B, index: B::Index, direction: D) -> Option<B::Index> {
        if !index.spec_offset_fits(direction.offset_value()) {
            None
        } else {
            match <B::Index as OffsetableIndex>::spec_from_offset(index.spec_apply_offset(direction.offset_value())) {
                Some(i) => if board.spec_get(i) is Some {
                    Some(i)
                } else {
                    None
                },
                None => None,
            }
        }
    }

    fn has_next(&self, board: &B, index: B::Index, direction: D) -> (r: bool) {
        self.next(board, index, direction).is_some()
    }

    /// The index at the offset of the direction, if it is on the board.
    fn next(&self, board: &B, index: B::Index, direction: D) -> (r: Option<B::Index>)
        ensures
            r matches Some(i) ==> board.spec_get(i) is Some,
    {
        if !index.offset_fits(direction.offset()) {
            return None;
        }
        match B::Index::from_offset(index.apply_offset(direction.offset())) {
            Some(i) => {
                if board.contains(i) {
                    Some(i)
                } else {
                    None
                }
            },
            None => None,
        }
    }
}

impl<B: Board, D: DirectionOffset<<B::Index as OffsetableIndex>::Offset> + DirectionEnumerable> AdjacencyStructure<
    B,
> for OffsetStructure<B::Index, D> where B::Index: OffsetableIndex {
    /// `j` is next to `i` in some direction.
    open spec fn spec_adjacent(&self, board: &B, i: B::Index, j: B::Index) -> bool {
        next_in_some(self, board, i, j, D::spec_enumeration())
    }

    /// Whether `j` is next to `i` in some direction.
    fn is_adjacent(&self, board: &B, i: B::Index, j: B::Index) -> (r: bool) {
        let directions = D::enumerate_all();
        let mut k: usize = 0;
        while k < directions.len()
            invariant
                k <= directions@.len(),
                directions@ == D::spec_enumeration(),
                forall|a: int| 0 <= a < k ==> self.spec_next(board, i, #[trigger] directions@[a]) != Some(j),
            decreases directions@.len() - k,
        {
            match self.next(board, i, directions[k]) {
                Some(n) => {
                    if n.index_eq(&j) {
                        return true;
                    }
                },
                None => {},
            }
            k += 1;
        }
        false
    }
}

impl<B: Board, D: DirectionOffset<<B::Index as OffsetableIndex>::Offset> + DirectionEnumerable> NeighborhoodStructure<
    B,
> for OffsetStructure<B::Index, D> where B::Index: OffsetableIndex {
    open spec fn spec_neighbors(&self, board: &B, index: B::Index) -> Seq<B::Index> {
        neighbors_in(self, board, index, D::spec_enumeration())
    }

    fn neighbor_count(&self, board: &B, index: B::Index) -> (r: usize) {
        self.neighbors(board, index).len()
    }

    /// The indices next to `index` in the directions, in their order.
    fn neighbors(&self, board: &B, index: B::Index) -> (r: Vec<B::Index>) {
        let directions = D::enumerate_all();
        let mut result: Vec<B::Index> = Vec::new();
        let mut k: usize = 0;
        while k < directions.len()
            invariant
                k <= directions@.len(),
                directions@ == D::spec_enumeration(),
                result@ == neighbors_in(self, board, index, directions@.take(k as int)),
                forall|a: int| 0 <= a < result@.len() ==> board.spec_get(#[trigger] result@[a]) is Some,
            decreases directions@.len() - k,
        {
            proof {
                assert(directions@.take(k + 1).drop_last() =~= directions@.take(k as int));
                assert(directions@.take(k + 1).last() == directions@[k as int]);
            }
            match self.next(board, index, directions[k]) {
                Some(n) => {
                    result.push(n);
                },
                None => {},
            }
            k += 1;
        }
        assert(directions@.take(directions@.len() as int) =~= directions@);
        result
    }
}

/// Like `OffsetStructure`, but offsets wrap around the bounds of the board.
pub struct WrappedOffsetStructure<I, D> {
    _i: PhantomData<I>,
    _d: PhantomData<D>,
}

impl<I, D> WrappedOffsetStructure<I, D> {
    pub fn new() -> Self {
        Self { _i: PhantomData, _d: PhantomData }
    }
}

impl<B: ContiguousBoard, D: DirectionOffset<B::Offset>> DirectionStructure<B> for WrappedOffsetStructure<B::Index, D> where
    B::Index: OffsetableIndex<Offset = B::Offset>,
 {
    type Direction = D;

    /// The index at the offset of the direction, wrapped around the bounds
    /// of the board; none for an empty board.
    open spec fn spec_next(&self, board: &B, index: B::Index, direction: D) -> Option<B::Index> {
        if !board.spec_nonempty() || !index.spec_offset_fits(direction.offset_value()) {
            None
        } else {
            Some(board.spec_wrapped(index.spec_apply_offset(direction.offset_value())))
        }
    }

    fn has_next(&self, board: &B, index: B::Index, direction: D) -> (r: bool) {
        self.next(board, index, direction).is_some()
    }

    /// The index at the offset of the direction, wrapped around the bounds
    /// of the board; none for an empty board.
    fn next(&self, board: &B, index: B::Index, direction: D) -> (r: Option<B::Index>) {
        if !board.is_nonempty() || !index.offset_fits(direction.offset()) {
            return None;
        }
        Some(board.wrapped(index.apply_offset(direction.offset())))
    }
}

impl<B: ContiguousBoard, D: DirectionOffset<B::Offset> + DirectionEnumerable> AdjacencyStructure<B> for WrappedOffsetStructure<
    B::Index,
    D,
> where B::Index: OffsetableIndex<Offset = B::Offset> {
    /// `j` is next to `i` in some direction.
    open spec fn spec_adjacent(&self, board: &B, i: B::Index, j: B::Index) -> bool {
        next_in_some(self, board, i, j, D::spec_enumeration())
    }

    /// Whether `j` is next to `i` in some direction.
    fn is_adjacent(&self, board: &B, i: B::Index, j: B::Index) -> (r: bool) {
        let directions = D::enumerate_all();
        let mut k: usize = 0;
        while k < directions.len()
            invariant
                k <= directions@.len(),
                directions@ == D::spec_enumeration(),
                forall|a: int| 0 <= a < k ==> self.spec_next(board, i, #[trigger] directions@[a]) != Some(j),
            decreases directions@.len() - k,
        {
            match self.next(board, i, directions[k]) {
                Some(n) => {
                    if n.index_eq(&j) {
                        return true;
                    }
                },
                None => {},
            }
            k += 1;
        }
        false
    }
}

impl<B: ContiguousBoard, D: DirectionOffset<B::Offset> + DirectionEnumerable> NeighborhoodStructure<B> for WrappedOffsetStructure<
    B::Index,
    D,
> where B::Index: OffsetableIndex<Offset = B::Offset> {
    open spec fn spec_neighbors(&self, board: &B, index: B::Index) -> Seq<B::Index> {
        neighbors_in(self, board, index, D::spec_enumeration())
    }

    fn neighbor_count(&self, board: &B, index: B::Index) -> (r: usize) {
        self.neighbors(board, index).len()
    }

    /// The indices next to `index` in the directions that are on the board,
    /// in the order of the directions.
    fn neighbors(&self, board: &B, index: B::Index) -> (r: Vec<B::Index>) {
        let directions = D::enumerate_all();
        let mut result: Vec<B::Index> = Vec::new();
        let mut k: usize = 0;
        while k < directions.len()
            invariant
                k <= directions@.len(),
                directions@ == D::spec_enumeration(),
                result@ == neighbors_in(self, board, index, directions@.take(k as int)),
                forall|a: int| 0 <= a < result@.len() ==> board.spec_get(#[trigger] result@[a]) is Some,
            decreases directions@.len() - k,
        {
            proof {
                assert(directions@.take(k + 1).drop_last() =~= directions@.take(k as int));
                assert(directions@.take(k + 1).last() == directions@[k as int]);
            }
            match self.next(board, index, directions[k]) {
                Some(n) => {
                    if board.contains(n) {
                        result.push(n);
                    }
                },
                None => {},
            }
            k += 1;
        }
        assert(directions@.take(directions@.len() as int) =~= directions@);
        result
    }
}

/// Adjacency given by a set of edges.
#[derive(Debug, Clone)]
pub struct AdjacencySet<I> {
    edges: Vec<(I, I)>,
}

impl<I: BoardIdxType> AdjacencySet<I> {
    /// The edges of the set; none occurs twice.
    pub closed spec fn spec_edges(&self) -> Seq<(I, I)> {
        self.edges@
    }

    pub fn new() -> (r: Self)
        ensures
            r.spec_edges().len() == 0,
    {
        Self { edges: Vec::new() }
    }

    /// Whether the edge is in the set.
    fn has_edge(&self, i: I, j: I) -> (r: bool)
        ensures
            r == self.spec_edges().contains((i, j)),
    {
        let mut k: usize = 0;
        while k < self.edges.len()
            invariant
                k <= self.edges@.len(),
                forall|a: int| 0 <= a < k ==> self.edges@[a] != (i, j),
            decreases self.edges@.len() - k,
        {
            if self.edges[k].0.index_eq(&i) && self.edges[k].1.index_eq(&j) {
                assert(self.edges@[k as int] == (i, j));
                return true;
            }
            k += 1;
        }
        false
    }

    pub fn add_directed(&mut self, i: I, j: I)
        ensures
            final(self).spec_edges().to_set() == old(self).spec_edges().to_set().insert((i, j)),
            old(self).spec_edges().no_duplicates() ==> final(self).spec_edges().no_duplicates(),
    {
        if !self.has_edge(i, j) {
            let ghost before = self.edges@;
            self.edges.push((i, j));
            proof {
                assert(self.edges@.to_set() =~= before.to_set().insert((i, j))) by {
                    assert forall|e: (I, I)| self.edges@.contains(e) <==> (before.contains(e) || e == (i, j)) by {
                        if self.edges@.contains(e) {
                            let w = choose|w: int| 0 <= w < self.edges@.len() && self.edges@[w] == e;
                            if w < before.len() {
                                assert(before[w] == e);
                            }
                        }
                        if before.contains(e) {
                            let w = choose|w: int| 0 <= w < before.len() && before[w] == e;
                            assert(self.edges@[w] == e);
                        }
                        if e == (i, j) {
                            assert(self.edges@[before.len() as int] == e);
                        }
                    }
                }
            }
        } else {
            assert(self.edges@.to_set() =~= old(self).edges@.to_set().insert((i, j)));
        }
    }

    pub fn add_undirected(&mut self, i: I, j: I)
        ensures
            final(self).spec_edges().to_set() == old(self).spec_edges().to_set().insert((i, j)).insert((j, i)),
            old(self).spec_edges().no_duplicates() ==> final(self).spec_edges().no_duplicates(),
    {
        self.add_directed(i, j);
        self.add_directed(j, i);
    }

    /// The edges of the set.
    pub fn iter_edges(&self) -> (r: Vec<(I, I)>)
        ensures
            r@ == self.spec_edges(),
    {
        let mut r: Vec<(I, I)> = Vec::new();
        let mut k: usize = 0;
        while k < self.edges.len()
            invariant
                k <= self.edges@.len(),
                r@ == self.edges@.subrange(0, k as int),
            decreases self.edges@.len() - k,
        {
            r.push(self.edges[k]);
            k += 1;
            assert(r@ =~= self.edges@.subrange(0, k as int));
        }
        assert(self.edges@.subrange(0, k as int) =~= self.edges@);
        r
    }
}

impl<B: Board> AdjacencyStructure<B> for AdjacencySet<B::Index> {
    open spec fn spec_adjacent(&self, board: &B, i: B::Index, j: B::Index) -> bool {
        self.spec_edges().contains((i, j))
    }

    /// Whether the edge from `i` to `j` is in the set.
    fn is_adjacent(&self, board: &B, i: B::Index, j: B::Index) -> (r: bool)
        ensures
            r == self.spec_edges().contains((i, j)),
    {
        self.has_edge(i, j)
    }
}

} // verus!
