//! Boards with typed indices: the board traits, fields of a board, the
//! structures that relate fields, directions, concrete boards, maps from
//! indices, hypothetical boards and searches over fields.

use vstd::prelude::*;

pub mod directions;
pub mod vec_board;
pub mod matrix_board;
pub mod open_board;
pub mod index_map;
pub mod structures;
pub mod hypothetical;
pub mod search;
pub mod search_tree;
pub mod index_order;

verus! {

/// The index type of a board: indices can be copied and compared.
pub trait BoardIdxType: Copy + Eq + Sized {
    /// Whether both indices are equal.
    fn index_eq(&self, other: &Self) -> (r: bool)
        ensures
            r == (*self == *other),
    ;
}

impl BoardIdxType for usize {
    fn index_eq(&self, other: &Self) -> (r: bool) {
        *self == *other
    }
}

/// A board that can list its indices.
pub trait BoardIndexable {
    type Index: BoardIdxType;

    /// The listed indices, in their order.
    spec fn spec_all_indices(&self) -> Seq<Self::Index>;

    fn all_indices(&self) -> (r: Vec<Self::Index>)
        ensures
            r@ == self.spec_all_indices(),
    ;
}

/// The contents at the indices of `s` that are on the board, in the order
/// of `s`.
pub open spec fn listed_contents<B: Board>(board: &B, s: Seq<B::Index>) -> Seq<B::Content>
    decreases s.len(),
{
    if s.len() == 0 {
        Seq::empty()
    } else {
        let prev = listed_contents(board, s.drop_last());
        match board.spec_get(s.last()) {
            Some(c) => prev.push(c),
            None => prev,
        }
    }
}

/// The indices of `s` that are on the board, in the order of `s`.
pub open spec fn listed_on_board<B: Board>(board: &B, s: Seq<B::Index>) -> Seq<B::Index>
    decreases s.len(),
{
    if s.len() == 0 {
        Seq::empty()
    } else {
        let prev = listed_on_board(board, s.drop_last());
        if board.spec_get(s.last()) is Some {
            prev.push(s.last())
        } else {
            prev
        }
    }
}

/// A board: a set of fields at indices, each with a content, and a
/// structure that relates the fields.
pub trait Board: BoardIndexable + Sized {
    type Content;
    type Structure;

    /// The content at an index; none for an index that is not on the
    /// board.
    spec fn spec_get(&self, index: Self::Index) -> Option<Self::Content>;

    /// The size of the board, as each kind of board counts it.
    spec fn spec_board_size(&self) -> nat;

    fn size(&self) -> (r: usize)
        ensures
            r == self.spec_board_size(),
    ;

    fn contains(&self, index: Self::Index) -> (r: bool)
        ensures
            r == self.spec_get(index) is Some,
    ;

    /// The structure that relates the fields.
    spec fn spec_board_structure(&self) -> Self::Structure;

    fn structure(&self) -> (r: &Self::Structure)
        ensures
            *r == self.spec_board_structure(),
    ;

    fn get(&self, index: Self::Index) -> (r: Option<&Self::Content>)
        ensures
            r is Some == self.spec_get(index) is Some,
            r matches Some(c) ==> self.spec_get(index) == Some(*c),
    ;
}

/// Access to the fields of a board.
pub trait BoardFields: Board {
    /// The field at an index, if the index is on the board.
    fn get_field(&self, index: Self::Index) -> (r: Option<Field<'_, Self>>)
        ensures
            r is Some == self.spec_get(index) is Some,
            r matches Some(f) ==> f.spec_board() == self && f.spec_index() == index,
    {
        Field::new(self, index)
    }

    /// The field at an index that is on the board.
    fn get_field_unchecked(&self, index: Self::Index) -> (r: Field<'_, Self>)
        requires
            self.spec_get(index) is Some,
        ensures
            r.spec_board() == self && r.spec_index() == index,
    {
        match Field::new(self, index) {
            Some(f) => f,
            None => vstd::pervasive::unreached(),
        }
    }

    /// The fields at the listed indices that are on the board, in the order
    /// of the listing.
    fn iter_fields(&self) -> (r: Vec<Field<'_, Self>>)
        ensures
            r@.len() == listed_on_board(self, self.spec_all_indices()).len(),
            forall|k: int| 0 <= k < r@.len() ==> (#[trigger] r@[k]).spec_board() == self && r@[k].spec_index()
                == listed_on_board(self, self.spec_all_indices())[k],
    {
        let indices = self.all_indices();
        let mut result: Vec<Field<'_, Self>> = Vec::new();
        let mut k: usize = 0;
        while k < indices.len()
            invariant
                k <= indices@.len(),
                indices@ == self.spec_all_indices(),
                result@.len() == listed_on_board(self, indices@.take(k as int)).len(),
                forall|a: int| 0 <= a < result@.len() ==> (#[trigger] result@[a]).spec_board() == self && result@[a].spec_index()
                    == listed_on_board(self, indices@.take(k as int))[a],
            decreases indices@.len() - k,
        {
            assert(indices@.take(k + 1).drop_last() =~= indices@.take(k as int));
            match Field::new(self, indices[k]) {
                Some(f) => {
                    result.push(f);
                },
                None => {},
            }
            k += 1;
        }
        assert(indices@.take(k as int) =~= indices@);
        result
    }

    /// The contents at the listed indices that are on the board, in the
    /// order of the listing.
    fn iter(&self) -> (r: Vec<&Self::Content>)
        ensures
            r@.len() == listed_contents(self, self.spec_all_indices()).len(),
            forall|k: int| 0 <= k < r@.len() ==> *(#[trigger] r@[k]) == listed_contents(self, self.spec_all_indices())[k],
    {
        let indices = self.all_indices();
        let mut result: Vec<&Self::Content> = Vec::new();
        let mut k: usize = 0;
        while k < indices.len()
            invariant
                k <= indices@.len(),
                indices@ == self.spec_all_indices(),
                result@.len() == listed_contents(self, indices@.take(k as int)).len(),
                forall|a: int| 0 <= a < result@.len() ==> *(#[trigger] result@[a]) == listed_contents(self, indices@.take(k as int))[a],
            decreases indices@.len() - k,
        {
            assert(indices@.take(k + 1).drop_last() =~= indices@.take(k as int));
            match self.get(indices[k]) {
                Some(c) => {
                    result.push(c);
                },
                None => {},
            }
            k += 1;
        }
        assert(indices@.take(k as int) =~= indices@);
        result
    }
}


impl<B: Board> BoardFields for B {
}

/// A board whose contents can be changed.
pub trait BoardMut: Board {
    /// Replaces the content at an index that is on the board; returns
    /// whether the index is on the board.
    fn set(&mut self, index: Self::Index, content: Self::Content) -> (r: bool)
        ensures
            r == old(self).spec_get(index) is Some,
            r ==> final(self).spec_get(index) == Some(content),
            !r ==> final(self).spec_get(index) is None,
    ;
}

/// A board whose indices range from the origin to a bound, with offsets
/// that wrap around.
pub trait ContiguousBoard: Board {
    type Offset;

    spec fn spec_nonempty(&self) -> bool;

    fn is_nonempty(&self) -> (r: bool)
        ensures
            r == self.spec_nonempty(),
    ;

    /// A bound of all indices on the board.
    spec fn spec_bound(&self) -> Self::Index;

    fn bound(&self) -> (r: Self::Index)
        ensures
            r == self.spec_bound(),
    ;

    /// The index that an offset wraps around to.
    spec fn spec_wrapped(&self, index: Self::Offset) -> Self::Index;

    /// The index that an offset wraps around to; the board must not be
    /// empty.
    fn wrapped(&self, index: Self::Offset) -> (r: Self::Index)
        requires
            self.spec_nonempty(),
        ensures
            r == self.spec_wrapped(index),
    ;
}

/// The content of a field can be empty.
pub trait Emptyable: Sized + Default {
    /// Whether the content is empty.
    spec fn spec_is_empty(&self) -> bool;

    fn call_field_is_empty(&self) -> (r: bool)
        ensures
            r == self.spec_is_empty(),
    ;

    /// Takes the content out; the default content stays in its place.
    fn call_take_field(&mut self) -> (r: Self)
        ensures
            r == *old(self),
    {
        let mut taken = Self::default();
        std::mem::swap(&mut taken, self);
        taken
    }

    /// Removes the content.
    fn call_clear_field(&mut self) {
        self.call_take_field();
    }
}

impl<T> Emptyable for Option<T> {
    open spec fn spec_is_empty(&self) -> bool {
        self is None
    }

    fn call_field_is_empty(&self) -> (r: bool) {
        self.is_none()
    }

    /// Takes the content out; the field becomes empty.
    fn call_take_field(&mut self) -> (r: Self)
        ensures
            *final(self) is None,
    {
        self.take()
    }

    /// Empties the field.
    fn call_clear_field(&mut self)
        ensures
            *final(self) is None,
    {
        self.take();
    }
}

impl<T> Emptyable for Vec<T> {
    open spec fn spec_is_empty(&self) -> bool {
        self@.len() == 0
    }

    fn call_field_is_empty(&self) -> (r: bool) {
        self.len() == 0
    }

    /// Empties the field.
    fn call_clear_field(&mut self)
        ensures
            final(self)@.len() == 0,
    {
        self.clear()
    }
}

/// Which fields are adjacent.
pub trait AdjacencyStructure<B: Board> {
    /// Field `j` is adjacent to field `i`.
    spec fn spec_adjacent(&self, board: &B, i: B::Index, j: B::Index) -> bool;

    fn is_adjacent(&self, board: &B, i: B::Index, j: B::Index) -> (r: bool)
        ensures
            r == self.spec_adjacent(board, i, j),
    ;
}

/// The neighbors of a field: indices on the board.
pub trait NeighborhoodStructure<B: Board> {
    /// The neighbors of the field at `index`, in their order.
    spec fn spec_neighbors(&self, board: &B, index: B::Index) -> Seq<B::Index>;

    fn neighbor_count(&self, board: &B, index: B::Index) -> (r: usize)
        ensures
            r == self.spec_neighbors(board, index).len(),
    ;

    fn neighbors(&self, board: &B, index: B::Index) -> (r: Vec<B::Index>)
        ensures
            r@ == self.spec_neighbors(board, index),
            forall|k: int| 0 <= k < r@.len() ==> board.spec_get(#[trigger] r@[k]) is Some,
    ;
}

/// The field next to another in a direction.
pub trait DirectionStructure<B: Board> {
    type Direction: Copy + Eq;

    /// The index next to `index` in the direction, if there is one.
    spec fn spec_next(&self, board: &B, index: B::Index, direction: Self::Direction) -> Option<B::Index>;

    fn has_next(&self, board: &B, index: B::Index, direction: Self::Direction) -> (r: bool)
        ensures
            r == self.spec_next(board, index, direction) is Some,
    ;

    fn next(&self, board: &B, index: B::Index, direction: Self::Direction) -> (r: Option<B::Index>)
        ensures
            r == self.spec_next(board, index, direction),
    ;
}

/// The index next to `index` in the direction, by the board's structure.
pub open spec fn structure_next<S: DirectionStructure<B>, B: Board<Structure = S>>(
    board: &B,
    index: B::Index,
    direction: S::Direction,
) -> Option<B::Index> {
    board.spec_board_structure().spec_next(board, index, direction)
}

/// The directions of `dirs`, in their order, that lead from `index` to an
/// index on the board, each with that index.
pub open spec fn neighbors_in_directions<S: DirectionStructure<B>, B: Board<Structure = S>>(
    board: &B,
    index: B::Index,
    dirs: Seq<S::Direction>,
) -> Seq<(S::Direction, B::Index)>
    decreases dirs.len(),
{
    if dirs.len() == 0 {
        Seq::empty()
    } else {
        let prev = neighbors_in_directions(board, index, dirs.drop_last());
        match structure_next(board, index, dirs.last()) {
            Some(i) => if board.spec_get(i) is Some {
                prev.push((dirs.last(), i))
            } else {
                prev
            },
            None => prev,
        }
    }
}

/// A field of a board: an index that is on the board.
pub struct Field<'a, B: Board> {
    board: &'a B,
    index: B::Index,
}

impl<'a, B: Board> Field<'a, B> {
    #[verifier::type_invariant]
    spec fn on_board(self) -> bool {
        self.board.spec_get(self.index) is Some
    }

    pub closed spec fn spec_board(self) -> &'a B {
        self.board
    }

    pub closed spec fn spec_index(self) -> B::Index {
        self.index
    }

    /// The field at an index, if the index is on the board.
    pub fn new(board: &'a B, index: B::Index) -> (r: Option<Self>)
        ensures
            r is Some == board.spec_get(index) is Some,
            r matches Some(f) ==> f.spec_board() == board && f.spec_index() == index,
    {
        if board.contains(index) {
            Some(Self { board, index })
        } else {
            None
        }
    }

    pub fn board(self) -> (r: &'a B)
        ensures
            r == self.spec_board(),
    {
        self.board
    }

    pub fn index(self) -> (r: B::Index)
        ensures
            r == self.spec_index(),
    {
        self.index
    }

    pub fn content(self) -> (r: &'a B::Content)
        ensures
            self.spec_board().spec_get(self.spec_index()) == Some(*r),
    {
        proof {
            use_type_invariant(&self);
        }
        match self.board.get(self.index) {
            Some(c) => c,
            None => vstd::pervasive::unreached(),
        }
    }

    pub fn content_checked(self) -> (r: Option<&'a B::Content>)
        ensures
            r is Some,
            r matches Some(c) ==> self.spec_board().spec_get(self.spec_index()) == Some(*c),
    {
        proof {
            use_type_invariant(&self);
        }
        self.board.get(self.index)
    }
}

impl<'a, B: Board> Clone for Field<'a, B> {
    fn clone(&self) -> (r: Self)
        ensures
            r == *self,
    {
        *self
    }
}

impl<'a, B: Board> Copy for Field<'a, B> {
}

impl<'a, B: Board> Field<'a, B> where B::Content: Emptyable {
    pub fn is_empty(self) -> (r: bool)
        ensures
            self.spec_board().spec_get(self.spec_index()) matches Some(c) && r == c.spec_is_empty(),
    {
        self.content().call_field_is_empty()
    }
}

impl<'a, S: AdjacencyStructure<B>, B: Board<Structure = S>> Field<'a, B> {
    /// Whether the field at `index` is adjacent to this one.
    pub fn is_adjacent(self, index: B::Index) -> (r: bool)
        ensures
            r == self.spec_board().spec_board_structure().spec_adjacent(self.spec_board(), self.spec_index(), index),
    {
        self.board.structure().is_adjacent(self.board, self.index, index)
    }
}

impl<'a, S: NeighborhoodStructure<B>, B: Board<Structure = S>> Field<'a, B> {
    pub fn neighbor_count(self) -> (r: usize)
        ensures
            r == self.spec_board().spec_board_structure().spec_neighbors(self.spec_board(), self.spec_index()).len(),
    {
        self.board.structure().neighbor_count(self.board, self.index)
    }

    /// The neighbors of the field, in the order of the structure.
    pub fn neighbors(self) -> (r: Vec<Field<'a, B>>)
        ensures
            r@.len() == self.spec_board().spec_board_structure().spec_neighbors(self.spec_board(), self.spec_index()).len(),
            forall|k: int| 0 <= k < r@.len() ==> (#[trigger] r@[k]).spec_board() == self.spec_board() && r@[k].spec_index()
                == self.spec_board().spec_board_structure().spec_neighbors(self.spec_board(), self.spec_index())[k],
    {
        let board = self.board;
        let indices = board.structure().neighbors(board, self.index);
        let mut result: Vec<Field<'a, B>> = Vec::new();
        let mut k: usize = 0;
        while k < indices.len()
            invariant
                k <= indices@.len(),
                board == self.spec_board(),
                indices@ == board.spec_board_structure().spec_neighbors(board, self.spec_index()),
                forall|a: int| 0 <= a < indices@.len() ==> board.spec_get(#[trigger] indices@[a]) is Some,
                result@.len() == k,
                forall|a: int| 0 <= a < result@.len() ==> (#[trigger] result@[a]).spec_board() == board && result@[a].spec_index()
                    == indices@[a],
            decreases indices@.len() - k,
        {
            match Self::new(board, indices[k]) {
                Some(f) => {
                    result.push(f);
                },
                None => {},
            }
            k += 1;
        }
        result
    }
}

impl<'a, S: DirectionStructure<B>, B: Board<Structure = S>> Field<'a, B> {
    /// The field next to this one in the direction, if there is one on the
    /// board.
    pub fn next(self, direction: S::Direction) -> (r: Option<Self>)
        ensures
            r is Some == (structure_next(self.spec_board(), self.spec_index(), direction) matches Some(i)
                && self.spec_board().spec_get(i) is Some),
            r matches Some(f) ==> f.spec_board() == self.spec_board() && Some(f.spec_index())
                == structure_next(self.spec_board(), self.spec_index(), direction),
    {
        let board = self.board;
        match board.structure().next(board, self.index, direction) {
            Some(i) => Self::new(board, i),
            None => None,
        }
    }

    pub fn has_next(self, direction: S::Direction) -> (r: bool)
        ensures
            r == structure_next(self.spec_board(), self.spec_index(), direction) is Some,
    {
        let board = self.board;
        board.structure().has_next(board, self.index, direction)
    }
}

impl<'a, D: crate::board::directions::DirectionEnumerable, S: DirectionStructure<B, Direction = D>, B: Board<Structure = S>> Field<'a, B> {
    /// The neighbors in each direction that leads to a field, in the order
    /// of the directions.
    pub fn neighbors_by_direction(self) -> (r: Vec<(D, Field<'a, B>)>)
        ensures
            forall|k: int| 0 <= k < r@.len() ==> (#[trigger] r@[k]).1.spec_board() == self.spec_board(),
            r@.len() == neighbors_in_directions(self.spec_board(), self.spec_index(), D::spec_enumeration()).len(),
            forall|k: int| 0 <= k < r@.len() ==> (#[trigger] r@[k]).0 == neighbors_in_directions(
                self.spec_board(),
                self.spec_index(),
                D::spec_enumeration(),
            )[k].0 && r@[k].1.spec_index() == neighbors_in_directions(
                self.spec_board(),
                self.spec_index(),
                D::spec_enumeration(),
            )[k].1,
    {
        let directions = D::enumerate_all();
        let mut result: Vec<(D, Field<'a, B>)> = Vec::new();
        let mut k: usize = 0;
        while k < directions.len()
            invariant
                k <= directions@.len(),
                directions@ == D::spec_enumeration(),
                forall|a: int| 0 <= a < result@.len() ==> (#[trigger] result@[a]).1.spec_board() == self.spec_board(),
                result@.len() == neighbors_in_directions(self.spec_board(), self.spec_index(), directions@.take(k as int)).len(),
                forall|a: int| 0 <= a < result@.len() ==> (#[trigger] result@[a]).0 == neighbors_in_directions(
                    self.spec_board(),
                    self.spec_index(),
                    directions@.take(k as int),
                )[a].0 && result@[a].1.spec_index() == neighbors_in_directions(
                    self.spec_board(),
                    self.spec_index(),
                    directions@.take(k as int),
                )[a].1,
            decreases directions@.len() - k,
        {
            let d = directions[k];
            assert(directions@.take(k + 1).drop_last() =~= directions@.take(k as int));
            match self.next(d) {
                Some(f) => {
                    result.push((d, f));
                },
                None => {},
            }
            k += 1;
        }
        assert(directions@.take(k as int) =~= directions@);
        result
    }
}

} // verus!
