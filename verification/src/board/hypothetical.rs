use vstd::prelude::*;
use crate::board::{Board, BoardIndexable, BoardMut, ContiguousBoard, Emptyable, Field};
use crate::board::index_map::{BoardToMap, IndexMap, entry_lookup, unique_keys};

verus! {

/// A board that differs from an original board in some fields: the changed
/// contents are kept in a map, the original board stays unchanged.
pub struct Hypothetical<'a, B: Board, M: IndexMap<IndexType = B::Index, Item = B::Content>> {
    board: &'a B,
    map: M,
}

impl<'a, B: Board, M: IndexMap<IndexType = B::Index, Item = B::Content>> Hypothetical<'a, B, M> {
    pub closed spec fn spec_board(&self) -> &'a B {
        self.board
    }

    pub closed spec fn spec_changes(&self) -> Seq<(B::Index, B::Content)> {
        self.map.spec_entries()
    }

    /// No index is changed twice; changes keep this.
    pub open spec fn wf(&self) -> bool {
        unique_keys(self.spec_changes())
    }

    /// A hypothetical board with the changes in `map`.
    pub fn with_index_map(board: &'a B, map: M) -> (r: Self)
        ensures
            r.spec_board() == board,
            r.spec_changes() == map.spec_entries(),
    {
        Self { board, map }
    }

    pub fn original_board(&self) -> (r: &'a B)
        ensures
            r == self.spec_board(),
    {
        self.board
    }

    /// Changes the content of a field of the board.
    pub fn set_field(&mut self, index: B::Index, el: B::Content)
        requires
            old(self).spec_board().spec_get(index) is Some,
        ensures
            old(self).wf() ==> final(self).wf(),
            final(self).spec_board() == old(self).spec_board(),
            final(self).spec_get(index) == Some(el),
            forall|i: B::Index| i != index ==> final(self).spec_get(i) == old(self).spec_get(i),
    {
        self.map.insert(index, el);
    }

    /// Changes the content of a field of the board (see `set_field`).
    pub fn replace(&mut self, index: B::Index, el: B::Content)
        requires
            old(self).spec_board().spec_get(index) is Some,
        ensures
            old(self).wf() ==> final(self).wf(),
            final(self).spec_board() == old(self).spec_board(),
            final(self).spec_get(index) == Some(el),
            forall|i: B::Index| i != index ==> final(self).spec_get(i) == old(self).spec_get(i),
    {
        self.set_field(index, el)
    }

    /// Drops all changes.
    pub fn clear(&mut self)
        ensures
            final(self).wf(),
            final(self).spec_board() == old(self).spec_board(),
            forall|i: B::Index| #[trigger] final(self).spec_get(i) == old(self).spec_board().spec_get(i),
    {
        self.map.clear();
    }
}

impl<'a, T, B: BoardToMap<T, Content = T>> Hypothetical<'a, B, B::Map> {
    /// A hypothetical board without changes.
    pub fn from_board(board: &'a B) -> (r: Self)
        ensures
            r.wf(),
            r.spec_board() == board,
            r.spec_changes().len() == 0,
    {
        Self::with_index_map(board, board.get_index_map())
    }

    /// A hypothetical board without changes for the board of the field.
    pub fn from_field(field: Field<'a, B>) -> (r: Self)
        ensures
            r.wf(),
            r.spec_board() == field.spec_board(),
            r.spec_changes().len() == 0,
    {
        Self::from_board(field.board())
    }
}

impl<'a, B: Board, M: IndexMap<IndexType = B::Index, Item = B::Content>> Hypothetical<'a, B, M> where
    B::Content: Emptyable + Default,
 {
    /// Sets the field to the default, empty content.
    pub fn clear_field(&mut self, index: B::Index)
        requires
            old(self).spec_board().spec_get(index) is Some,
        ensures
            old(self).wf() ==> final(self).wf(),
            final(self).spec_board() == old(self).spec_board(),
            final(self).spec_get(index) is Some,
            forall|i: B::Index| i != index ==> final(self).spec_get(i) == old(self).spec_get(i),
            final(self).spec_get(index) matches Some(v) && call_ensures(B::Content::default, (), v),
    {
        let d = B::Content::default();
        self.map.insert(index, d);
    }

    /// Moves the content of `from` to `to`; `from` gets the default, empty
    /// content.
    pub fn apply_move(&mut self, from: B::Index, to: B::Index)
        where
            B::Content: Clone,
        requires
            old(self).spec_board().spec_get(from) is Some,
            old(self).spec_board().spec_get(to) is Some,
        ensures
            old(self).wf() ==> final(self).wf(),
            final(self).spec_board() == old(self).spec_board(),
            final(self).spec_get(to) is Some,
            from != to ==> final(self).spec_get(from) is Some,
            from != to ==> call_ensures(B::Content::default, (), final(self).spec_get(from)->Some_0),
            forall|i: B::Index| i != from && i != to ==> final(self).spec_get(i) == old(self).spec_get(i),
            entry_lookup(old(self).spec_changes(), from) matches Some(v) ==> final(self).spec_get(to) == Some(v),
            entry_lookup(old(self).spec_changes(), from) is None ==> vstd::pervasive::cloned(
                old(self).spec_board().spec_get(from)->Some_0,
                final(self).spec_get(to)->Some_0,
            ),
    {
        let value = match self.map.insert(from, B::Content::default()) {
            Some(v) => v,
            None => {
                match self.board.get(from) {
                    Some(c) => c.clone(),
                    None => vstd::pervasive::unreached(),
                }
            },
        };
        self.map.insert(to, value);
    }
}

impl<'a, B: Board, M: IndexMap<IndexType = B::Index, Item = B::Content>> BoardIndexable for Hypothetical<'a, B, M> {
    type Index = B::Index;

    /// The indices of the original board.
    open spec fn spec_all_indices(&self) -> Seq<B::Index> {
        self.spec_board().spec_all_indices()
    }

    fn all_indices(&self) -> (r: Vec<B::Index>) {
        self.board.all_indices()
    }
}

impl<'a, B: Board, M: IndexMap<IndexType = B::Index, Item = B::Content>> Board for Hypothetical<'a, B, M> {
    type Content = B::Content;
    type Structure = B::Structure;

    /// The changed content, or else the content of the original board, for
    /// the indices of the original board.
    open spec fn spec_get(&self, index: B::Index) -> Option<B::Content> {
        if self.spec_board().spec_get(index) is None {
            None
        } else {
            match entry_lookup(self.spec_changes(), index) {
                Some(v) => Some(v),
                None => self.spec_board().spec_get(index),
            }
        }
    }

    /// The size of the original board.
    open spec fn spec_board_size(&self) -> nat {
        self.spec_board().spec_board_size()
    }

    fn size(&self) -> (r: usize) {
        self.board.size()
    }

    fn contains(&self, index: B::Index) -> (r: bool) {
        self.board.contains(index)
    }

    open spec fn spec_board_structure(&self) -> B::Structure {
        self.spec_board().spec_board_structure()
    }

    fn structure(&self) -> (r: &B::Structure) {
        self.board.structure()
    }

    fn get(&self, index: B::Index) -> (r: Option<&B::Content>) {
        if !self.board.contains(index) {
            return None;
        }
        match self.map.get(index) {
            Some(v) => Some(v),
            None => self.board.get(index),
        }
    }
}

impl<'a, B: Board, M: IndexMap<IndexType = B::Index, Item = B::Content>> BoardMut for Hypothetical<'a, B, M> {
    fn set(&mut self, index: B::Index, content: B::Content) -> (r: bool)
        ensures
            forall|i: B::Index| i != index ==> final(self).spec_get(i) == old(self).spec_get(i),
    {
        if self.board.contains(index) {
            self.map.insert(index, content);
            true
        } else {
            false
        }
    }
}

impl<'a, B: ContiguousBoard, M: IndexMap<IndexType = B::Index, Item = B::Content>> ContiguousBoard for Hypothetical<
    'a,
    B,
    M,
> {
    type Offset = B::Offset;

    open spec fn spec_nonempty(&self) -> bool {
        self.spec_board().spec_nonempty()
    }

    fn is_nonempty(&self) -> (r: bool) {
        self.board.is_nonempty()
    }

    open spec fn spec_bound(&self) -> B::Index {
        self.spec_board().spec_bound()
    }

    fn bound(&self) -> (r: B::Index) {
        self.board.bound()
    }

    open spec fn spec_wrapped(&self, index: B::Offset) -> B::Index {
        self.spec_board().spec_wrapped(index)
    }

    fn wrapped(&self, index: B::Offset) -> (r: B::Index) {
        self.board.wrapped(index)
    }
}

impl<'a, E, B: BoardToMap<E>, M: IndexMap<IndexType = B::Index, Item = B::Content>> BoardToMap<E> for Hypothetical<'a, B, M> {
    type Map = <B as BoardToMap<E>>::Map;

    fn get_index_map(&self) -> (r: Self::Map) {
        self.board.get_index_map()
    }
}

impl<'a, B: Board, M: IndexMap<IndexType = B::Index, Item = B::Content>> Field<'a, Hypothetical<'a, B, M>> {
    /// The field with the same index on the original board.
    pub fn original_field<'b>(&self, board: &'b B) -> (r: Field<'b, B>)
        requires
            board.spec_get(self.spec_index()) is Some,
        ensures
            r.spec_board() == board && r.spec_index() == self.spec_index(),
    {
        match Field::new(board, self.index()) {
            Some(f) => f,
            None => vstd::pervasive::unreached(),
        }
    }
}

} // verus!
