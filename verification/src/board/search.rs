use vstd::prelude::*;
use crate::board::{Board, BoardFields, BoardIndexable, DirectionStructure, Field, NeighborhoodStructure, structure_next};
use crate::board::directions::DirectionReversable;
use crate::board::index_map::{BoardToMap, IndexMap, entry_keys, entry_lookup, lemma_key_found};

verus! {

/// A set of indices kept in an index map.
pub struct SetWrapper<M: IndexMap<Item = ()>> {
    map: M,
}

impl<M: IndexMap<Item = ()>> SetWrapper<M> {
    /// The indices in the order of their insertion.
    pub closed spec fn spec_indices(&self) -> Seq<M::IndexType> {
        entry_keys(self.map.spec_entries())
    }

    /// The index is in the set.
    pub closed spec fn spec_contains(&self, i: M::IndexType) -> bool {
        entry_lookup(self.map.spec_entries(), i) is Some
    }

    pub fn from_map(map: M) -> (r: Self)
        ensures
            r.spec_indices() == entry_keys(map.spec_entries()),
            forall|j: M::IndexType| #[trigger] r.spec_contains(j) == (entry_lookup(map.spec_entries(), j) is Some),
    {
        Self { map }
    }

    pub fn size(&self) -> (r: usize)
        ensures
            r == self.spec_indices().len(),
    {
        self.map.size()
    }

    pub fn contains(&self, i: M::IndexType) -> (r: bool)
        ensures
            r == self.spec_contains(i),
    {
        self.map.contains(i)
    }

    /// Adds the index; returns whether it was new.
    pub fn insert(&mut self, i: M::IndexType) -> (r: bool)
        ensures
            r == !old(self).spec_contains(i),
            final(self).spec_contains(i),
            forall|j: M::IndexType| j != i ==> final(self).spec_contains(j) == old(self).spec_contains(j),
            r ==> final(self).spec_indices() == old(self).spec_indices().push(i),
            !r ==> final(self).spec_indices() == old(self).spec_indices(),
    {
        self.map.insert(i, ()).is_none()
    }

    /// The indices in the order of their insertion.
    pub fn iter(&self) -> (r: Vec<M::IndexType>)
        ensures
            r@ == self.spec_indices(),
    {
        self.map.iter_indices()
    }

    pub fn clear(&mut self)
        ensures
            final(self).spec_indices().len() == 0,
            forall|j: M::IndexType| !final(self).spec_contains(j),
    {
        self.map.clear();
    }

    pub fn into_map(self) -> (r: M)
        ensures
            entry_keys(r.spec_entries()) == self.spec_indices(),
    {
        self.map
    }
}

/// The indices that a search step yields.
#[derive(Debug, Clone)]
pub struct FieldSearchResult<I> {
    data: Vec<I>,
}

impl<I: Copy> FieldSearchResult<I> {
    pub closed spec fn spec_data(&self) -> Seq<I> {
        self.data@
    }

    pub fn from_vec(data: Vec<I>) -> (r: Self)
        ensures
            r.spec_data() == data@,
    {
        Self { data }
    }

    /// The indices.
    pub fn data(&self) -> (r: &Vec<I>)
        ensures
            r@ == self.spec_data(),
    {
        &self.data
    }
}

impl<I> From<Vec<I>> for FieldSearchResult<I> {
    fn from(data: Vec<I>) -> (r: Self) {
        Self { data }
    }
}

impl<I> vstd::std_specs::convert::FromSpecImpl<Vec<I>> for FieldSearchResult<I> {
    open spec fn obeys_from_spec() -> bool {
        true
    }

    closed spec fn from_spec(v: Vec<I>) -> Self {
        FieldSearchResult { data: v }
    }
}

/// All indices of the result are on the board.
pub open spec fn on_board<B: Board>(board: &B, data: Seq<B::Index>) -> bool {
    forall|k: int| 0 <= k < data.len() ==> board.spec_get(#[trigger] data[k]) is Some
}

/// A line in the direction stops after the field at `index`: the next
/// index is missing, not on the board, or `visited`.
pub open spec fn line_stops<M: DirectionStructure<B>, B: Board<Structure = M>>(
    board: &B,
    index: B::Index,
    direction: M::Direction,
    visited: spec_fn(B::Index) -> bool,
) -> bool {
    match structure_next(board, index, direction) {
        Some(n) => board.spec_get(n) is None || visited(n),
        None => true,
    }
}

/// The indices of the results, one result after the other.
pub open spec fn joined_data<I: Copy>(rs: Seq<FieldSearchResult<I>>) -> Seq<I>
    decreases rs.len(),
{
    if rs.len() == 0 {
        Seq::empty()
    } else {
        joined_data(rs.drop_last()) + rs.last().spec_data()
    }
}

/// `fields` are the fields of the board at `indices`, in order.
pub open spec fn fields_at<'a, B: Board>(fields: Seq<Field<'a, B>>, board: &'a B, indices: Seq<B::Index>) -> bool {
    &&& fields.len() == indices.len()
    &&& forall|k: int| 0 <= k < fields.len() ==> (#[trigger] fields[k]).spec_board() == board && fields[k].spec_index()
        == indices[k]
}

/// `data` holds, one after the other, results that `map_fields` gives for
/// the fields.
pub open spec fn mapped_from<'a, B: Board, F: Fn(Field<'a, B>) -> FieldSearchResult<B::Index>>(
    map_fields: &F,
    fields: Seq<Field<'a, B>>,
    data: Seq<B::Index>,
) -> bool {
    exists|rs: Seq<FieldSearchResult<B::Index>>| #[trigger] joined_data(rs) == data && rs.len() == fields.len() && forall|
        k: int,
    | 0 <= k < fields.len() ==> map_fields.ensures((fields[k],), #[trigger] rs[k])
}

/// `x` is a neighbor of a field at `indices` that the predicate accepted.
pub open spec fn accepted_neighbor<'a, S: NeighborhoodStructure<B>, B: Board<Structure = S>, F: Fn(Field<'a, B>) -> bool>(
    predicate: &F,
    board: &'a B,
    indices: Seq<B::Index>,
    x: B::Index,
) -> bool {
    exists|k: int, f: Field<'a, B>| #![trigger indices[k], predicate.ensures((f,), true)] 0 <= k < indices.len()
        && board.spec_board_structure().spec_neighbors(board, indices[k]).contains(x) && f.spec_board() == board
        && f.spec_index() == x && predicate.ensures((f,), true)
}

/// `data` holds neighbors of the fields at `indices` that the predicate
/// accepted, and each neighbor that the predicate can only accept.
pub open spec fn grown_from<'a, S: NeighborhoodStructure<B>, B: Board<Structure = S>, F: Fn(Field<'a, B>) -> bool>(
    predicate: &F,
    board: &'a B,
    indices: Seq<B::Index>,
    data: Seq<B::Index>,
) -> bool {
    &&& forall|a: int| 0 <= a < data.len() ==> accepted_neighbor(predicate, board, indices, #[trigger] data[a])
    &&& forall|k: int, m: int| 0 <= k < indices.len() && 0 <= m < board.spec_board_structure().spec_neighbors(board, indices[k]).len()
        && (forall|f: Field<'a, B>, b: bool| f.spec_board() == board && f.spec_index()
        == board.spec_board_structure().spec_neighbors(board, indices[k])[m] && #[trigger] predicate.ensures((f,), b) ==> b)
        ==> data.contains(#[trigger] board.spec_board_structure().spec_neighbors(board, indices[k])[m])
}

/// Growing by a borrowed predicate is growing by the predicate.
proof fn lemma_grown_by_ref<'a, S: NeighborhoodStructure<B>, B: Board<Structure = S>, F: Fn(Field<'a, B>) -> bool>(
    predicate: &F,
    board: &'a B,
    indices: Seq<B::Index>,
    data: Seq<B::Index>,
)
    requires
        grown_from(&predicate, board, indices, data),
    ensures
        grown_from(predicate, board, indices, data),
{
    assert(forall|f: Field<'a, B>, b: bool| (&predicate).ensures((f,), b) == predicate.ensures((f,), b));
    assert forall|a: int| 0 <= a < data.len() implies accepted_neighbor(predicate, board, indices, #[trigger] data[a]) by {
        assert(accepted_neighbor(&predicate, board, indices, data[a]));
        let (k, f) = choose|k: int, f: Field<'a, B>| #![trigger indices[k], (&predicate).ensures((f,), true)] 0 <= k < indices.len()
            && board.spec_board_structure().spec_neighbors(board, indices[k]).contains(data[a]) && f.spec_board() == board
            && f.spec_index() == data[a] && (&predicate).ensures((f,), true);
        assert(predicate.ensures((f,), true));
    }
}

/// A set of fields of a board that a search grows step by step.
pub struct SearchingSet<'a, M: IndexMap<Item = ()>, B: Board<Index = M::IndexType>> {
    base_set: SetWrapper<M>,
    board: &'a B,
}

impl<'a, M: IndexMap<Item = ()>, B: Board<Index = M::IndexType>> SearchingSet<'a, M, B> {
    pub closed spec fn spec_board(&self) -> &'a B {
        self.board
    }

    /// The indices of the fields in the order of their insertion.
    pub closed spec fn spec_indices(&self) -> Seq<B::Index> {
        self.base_set.spec_indices()
    }

    pub closed spec fn spec_contains(&self, i: B::Index) -> bool {
        self.base_set.spec_contains(i)
    }

    /// All fields of the set are on the board.
    pub open spec fn wf(&self) -> bool {
        on_board(self.spec_board(), self.spec_indices())
    }

    /// Every listed index is in the set.
    proof fn lemma_listed_contained(&self, k: int)
        requires
            0 <= k < self.spec_indices().len(),
        ensures
            self.spec_contains(self.spec_indices()[k]),
    {
        lemma_key_found(self.base_set.map.spec_entries(), k);
    }

    /// An empty set of fields of the board.
    pub fn new(board: &'a B) -> (r: Self)
        where
            B: BoardToMap<(), Map = M>,
        ensures
            r.wf(),
            r.spec_board() == board,
            r.spec_indices().len() == 0,
    {
        Self { base_set: SetWrapper::from_map(board.get_index_map()), board }
    }

    /// The set of the fields in the map.
    pub fn from_map(map: M, board: &'a B) -> (r: Self)
        ensures
            r.spec_board() == board,
            r.spec_indices() == entry_keys(map.spec_entries()),
    {
        Self { base_set: SetWrapper::from_map(map), board }
    }

    /// The set of the fields in the map (see `from_map`).
    pub fn with_map(map: M, board: &'a B) -> (r: Self)
        ensures
            r.spec_board() == board,
            r.spec_indices() == entry_keys(map.spec_entries()),
    {
        Self::from_map(map, board)
    }

    pub fn board(&self) -> (r: &'a B)
        ensures
            r == self.spec_board(),
    {
        self.board
    }

    /// The number of fields in the set.
    pub fn size(&self) -> (r: usize)
        ensures
            r == self.spec_indices().len(),
    {
        self.base_set.size()
    }

    pub fn contains(&self, el: B::Index) -> (r: bool)
        ensures
            r == self.spec_contains(el),
    {
        self.base_set.contains(el)
    }

    /// Adds the field at the index; returns whether it was new.
    pub fn insert(&mut self, el: B::Index) -> (r: bool)
        requires
            old(self).wf(),
            old(self).spec_board().spec_get(el) is Some,
        ensures
            final(self).wf(),
            final(self).spec_board() == old(self).spec_board(),
            r == !old(self).spec_contains(el),
            final(self).spec_contains(el),
            forall|j: B::Index| j != el ==> final(self).spec_contains(j) == old(self).spec_contains(j),
            r ==> final(self).spec_indices() == old(self).spec_indices().push(el),
            !r ==> final(self).spec_indices() == old(self).spec_indices(),
    {
        self.base_insert(el)
    }

    fn base_insert(&mut self, i: B::Index) -> (r: bool)
        requires
            old(self).wf(),
            old(self).spec_board().spec_get(i) is Some,
        ensures
            final(self).wf(),
            final(self).spec_board() == old(self).spec_board(),
            r == !old(self).spec_contains(i),
            final(self).spec_contains(i),
            forall|j: B::Index| j != i ==> final(self).spec_contains(j) == old(self).spec_contains(j),
            r ==> final(self).spec_indices() == old(self).spec_indices().push(i),
            !r ==> final(self).spec_indices() == old(self).spec_indices(),
    {
        let r = self.base_set.insert(i);
        proof {
            if r {
                let s = self.spec_indices();
                assert forall|k: int| 0 <= k < s.len() implies self.board.spec_get(#[trigger] s[k]) is Some by {
                    if k < s.len() - 1 {
                        assert(s[k] == old(self).spec_indices()[k]);
                    }
                }
            }
        }
        r
    }

    /// The fields of the set, in the order of their insertion.
    pub fn iter(&self) -> (r: Vec<Field<'a, B>>)
        requires
            self.wf(),
        ensures
            r@.len() == self.spec_indices().len(),
            forall|k: int| 0 <= k < r@.len() ==> (#[trigger] r@[k]).spec_board() == self.spec_board() && r@[k].spec_index()
                == self.spec_indices()[k],
    {
        let indices = self.base_set.iter();
        let mut result: Vec<Field<'a, B>> = Vec::new();
        let mut k: usize = 0;
        while k < indices.len()
            invariant
                indices@ == self.spec_indices(),
                on_board(self.board, indices@),
                k <= indices@.len(),
                result@.len() == k,
                forall|a: int| 0 <= a < k ==> (#[trigger] result@[a]).spec_board() == self.board && result@[a].spec_index()
                    == indices@[a],
            decreases indices@.len() - k,
        {
            match Field::new(self.board, indices[k]) {
                Some(f) => {
                    result.push(f);
                },
                None => {
                    assert(self.board.spec_get(indices@[k as int]) is Some);
                },
            }
            k += 1;
        }
        result
    }

    pub fn clear(&mut self)
        ensures
            final(self).wf(),
            final(self).spec_board() == old(self).spec_board(),
            final(self).spec_indices().len() == 0,
    {
        self.base_set.clear()
    }

    /// Adds the fields at the given indices; returns whether one was new.
    fn extend_helper(&mut self, fields: FieldSearchResult<B::Index>) -> (r: bool)
        requires
            old(self).wf(),
            on_board(old(self).spec_board(), fields.spec_data()),
        ensures
            final(self).wf(),
            final(self).spec_board() == old(self).spec_board(),
            forall|k: int| 0 <= k < fields.spec_data().len() ==> final(self).spec_contains(#[trigger] fields.spec_data()[k]),
            forall|j: B::Index| old(self).spec_contains(j) ==> final(self).spec_contains(j),
            r == (final(self).spec_indices().len() > old(self).spec_indices().len()),
            final(self).spec_indices().len() >= old(self).spec_indices().len(),
            forall|j: B::Index| #[trigger] final(self).spec_contains(j) == (old(self).spec_contains(j)
                || fields.spec_data().contains(j)),
            !r ==> forall|j: B::Index| #[trigger] final(self).spec_contains(j) == old(self).spec_contains(j),
            !r ==> final(self).spec_indices() == old(self).spec_indices(),
    {
        let data = fields.data();
        let mut success = false;
        let mut k: usize = 0;
        while k < data.len()
            invariant
                self.wf(),
                self.spec_board() == old(self).spec_board(),
                data@ == fields.spec_data(),
                on_board(self.board, data@),
                k <= data@.len(),
                forall|a: int| 0 <= a < k ==> self.spec_contains(#[trigger] data@[a]),
                forall|j: B::Index| old(self).spec_contains(j) ==> self.spec_contains(j),
                success == (self.spec_indices().len() > old(self).spec_indices().len()),
                self.spec_indices().len() >= old(self).spec_indices().len(),
                forall|j: B::Index| #[trigger] self.spec_contains(j) == (old(self).spec_contains(j)
                    || data@.take(k as int).contains(j)),
                !success ==> forall|j: B::Index| #[trigger] self.spec_contains(j) == old(self).spec_contains(j),
                !success ==> self.spec_indices() == old(self).spec_indices(),
            decreases data@.len() - k,
        {
            if self.base_insert(data[k]) {
                success = true;
            }
            k += 1;
            proof {
                assert forall|j: B::Index| #[trigger] self.spec_contains(j) == (old(self).spec_contains(j)
                    || data@.take(k as int).contains(j)) by {
                    if data@.take(k as int).contains(j) && !data@.take(k - 1).contains(j) {
                        let a = choose|a: int| 0 <= a < k && #[trigger] data@.take(k as int)[a] == j;
                        if a < k - 1 {
                            assert(data@.take(k - 1)[a] == j);
                        }
                    }
                    if data@.take(k - 1).contains(j) {
                        let a = choose|a: int| 0 <= a < k - 1 && #[trigger] data@.take(k - 1)[a] == j;
                        assert(data@.take(k as int)[a] == j);
                    }
                    if j == data@[k - 1] {
                        assert(data@.take(k as int)[k - 1] == j);
                    }
                }
            }
        }
        assert(data@.take(k as int) =~= data@);
        success
    }

    /// Replaces the set by the fields at the given indices.
    fn replace_helper(&mut self, fields: FieldSearchResult<B::Index>)
        requires
            old(self).wf(),
            on_board(old(self).spec_board(), fields.spec_data()),
        ensures
            final(self).wf(),
            final(self).spec_board() == old(self).spec_board(),
            forall|k: int| 0 <= k < fields.spec_data().len() ==> final(self).spec_contains(#[trigger] fields.spec_data()[k]),
            forall|j: B::Index| #[trigger] final(self).spec_contains(j) == fields.spec_data().contains(j),
    {
        self.base_set.clear();
        self.extend_helper(fields);
    }

    /// The indices that `map_fields` yields for the fields, in order.
    fn apply_mapping<F>(fields: &Vec<Field<'a, B>>, map_fields: &F, board: &'a B) -> (r: FieldSearchResult<B::Index>)
        where
            F: Fn(Field<'a, B>) -> FieldSearchResult<B::Index>,
        requires
            forall|f: Field<'a, B>| #[trigger] map_fields.requires((f,)),
            forall|f: Field<'a, B>, res: FieldSearchResult<B::Index>| #[trigger] map_fields.ensures((f,), res) ==> on_board(
                board,
                res.spec_data(),
            ),
        ensures
            on_board(board, r.spec_data()),
            mapped_from(map_fields, fields@, r.spec_data()),
    {
        let mut data: Vec<B::Index> = Vec::new();
        let ghost mut rs: Seq<FieldSearchResult<B::Index>> = Seq::empty();
        let mut k: usize = 0;
        while k < fields.len()
            invariant
                k <= fields@.len(),
                on_board(board, data@),
                rs.len() == k,
                data@ == joined_data(rs),
                forall|a: int| 0 <= a < k ==> map_fields.ensures((fields@[a],), #[trigger] rs[a]),
                forall|f: Field<'a, B>| #[trigger] map_fields.requires((f,)),
                forall|f: Field<'a, B>, res: FieldSearchResult<B::Index>| #[trigger] map_fields.ensures((f,), res)
                    ==> on_board(board, res.spec_data()),
            decreases fields@.len() - k,
        {
            let found = map_fields(fields[k]);
            let found_data = found.data();
            let ghost before = data@;
            let mut j: usize = 0;
            while j < found_data.len()
                invariant
                    j <= found_data@.len(),
                    found_data@ == found.spec_data(),
                    on_board(board, found_data@),
                    on_board(board, data@),
                    data@ == before + found_data@.take(j as int),
                decreases found_data@.len() - j,
            {
                data.push(found_data[j]);
                j += 1;
                assert(data@ =~= before + found_data@.take(j as int));
            }
            proof {
                assert(found_data@.take(j as int) =~= found_data@);
                let nrs = rs.push(found);
                assert(nrs.drop_last() =~= rs);
                assert(data@ == joined_data(nrs));
                assert forall|a: int| 0 <= a < k + 1 implies map_fields.ensures((fields@[a],), #[trigger] nrs[a]) by {
                    if a < k {
                        assert(nrs[a] == rs[a]);
                    }
                }
                rs = nrs;
            }
            k += 1;
        }
        let r = FieldSearchResult { data };
        assert(r.spec_data() == joined_data(rs));
        r
    }

    /// Adds the fields that `map_fields` yields for the fields of the set;
    /// returns whether one was new.
    pub fn extend<F>(&mut self, map_fields: F) -> (r: bool)
        where
            F: Fn(Field<'a, B>) -> FieldSearchResult<B::Index>,
        requires
            old(self).wf(),
            forall|f: Field<'a, B>| #[trigger] map_fields.requires((f,)),
            forall|f: Field<'a, B>, res: FieldSearchResult<B::Index>| #[trigger] map_fields.ensures((f,), res) ==> on_board(
                old(self).spec_board(),
                res.spec_data(),
            ),
        ensures
            final(self).wf(),
            final(self).spec_board() == old(self).spec_board(),
            forall|j: B::Index| old(self).spec_contains(j) ==> final(self).spec_contains(j),
            r == (final(self).spec_indices().len() > old(self).spec_indices().len()),
            final(self).spec_indices().len() >= old(self).spec_indices().len(),
            exists|fields: Seq<Field<'a, B>>, data: Seq<B::Index>| #[trigger] mapped_from(&map_fields, fields, data)
                && fields_at(fields, old(self).spec_board(), old(self).spec_indices()) && forall|j: B::Index| #[trigger]
                final(self).spec_contains(j) == (old(self).spec_contains(j) || data.contains(j)),
    {
        let fields = self.iter();
        let found = Self::apply_mapping(&fields, &map_fields, self.board);
        proof {
            assert(fields_at(fields@, old(self).spec_board(), old(self).spec_indices()));
        }
        let r = self.extend_helper(found);
        proof {
            assert(mapped_from(&map_fields, fields@, found.spec_data()));
        }
        r
    }

    /// Repeats `extend` with the fields added in the last step until no new
    /// field is added; returns whether one was added.  The number of steps
    /// is bounded by the number of indices of the board.
    pub fn extend_repeated<F>(&mut self, map_fields: F) -> (r: bool)
        where
            F: Fn(Field<'a, B>) -> FieldSearchResult<B::Index>,
        requires
            old(self).wf(),
            forall|f: Field<'a, B>| #[trigger] map_fields.requires((f,)),
            forall|f: Field<'a, B>, res: FieldSearchResult<B::Index>| #[trigger] map_fields.ensures((f,), res) ==> on_board(
                old(self).spec_board(),
                res.spec_data(),
            ),
        ensures
            final(self).wf(),
            final(self).spec_board() == old(self).spec_board(),
            forall|j: B::Index| old(self).spec_contains(j) ==> final(self).spec_contains(j),
            r == (final(self).spec_indices().len() > old(self).spec_indices().len()),
            final(self).spec_indices().len() >= old(self).spec_indices().len(),
            old(self).spec_board().spec_all_indices().len() > 0 ==> exists|fields: Seq<Field<'a, B>>, data: Seq<B::Index>|
                #[trigger] mapped_from(&map_fields, fields, data) && fields_at(
                fields,
                old(self).spec_board(),
                old(self).spec_indices(),
            ) && forall|j: B::Index| data.contains(j) ==> #[trigger] final(self).spec_contains(j),
            final(self).spec_indices().len() < old(self).spec_indices().len() + old(self).spec_board().spec_all_indices().len()
                ==> exists|fields: Seq<Field<'a, B>>, data: Seq<B::Index>| #[trigger] mapped_from(&map_fields, fields, data)
                && (forall|k: int| 0 <= k < fields.len() ==> (#[trigger] fields[k]).spec_board() == old(self).spec_board()
                && final(self).spec_contains(fields[k].spec_index())) && forall|j: B::Index| data.contains(j)
                ==> #[trigger] final(self).spec_contains(j),
    {
        let bound = self.board.all_indices().len();
        let fields = self.iter();
        let mut result = Self::apply_mapping(&fields, &map_fields, self.board);
        let ghost mut qf: Seq<Field<'a, B>> = fields@;
        proof {
            assert(fields_at(fields@, old(self).spec_board(), old(self).spec_indices()));
            assert forall|k: int| 0 <= k < qf.len() implies (#[trigger] qf[k]).spec_board() == old(self).spec_board()
                && self.spec_contains(qf[k].spec_index()) by {
                self.lemma_listed_contained(k);
            }
        }
        let mut success = false;
        let mut round: usize = 0;
        while round < bound
            invariant
                self.wf(),
                self.spec_board() == old(self).spec_board(),
                on_board(self.board, result.spec_data()),
                forall|j: B::Index| old(self).spec_contains(j) ==> self.spec_contains(j),
                success == (self.spec_indices().len() > old(self).spec_indices().len()),
                self.spec_indices().len() >= old(self).spec_indices().len() + round,
                bound == old(self).spec_board().spec_all_indices().len(),
                forall|f: Field<'a, B>| #[trigger] map_fields.requires((f,)),
                forall|f: Field<'a, B>, res: FieldSearchResult<B::Index>| #[trigger] map_fields.ensures((f,), res)
                    ==> on_board(self.board, res.spec_data()),
                mapped_from(&map_fields, qf, result.spec_data()),
                forall|k: int| 0 <= k < qf.len() ==> (#[trigger] qf[k]).spec_board() == old(self).spec_board()
                    && self.spec_contains(qf[k].spec_index()),
                round == 0 ==> fields_at(qf, old(self).spec_board(), old(self).spec_indices()),
                round > 0 ==> exists|fs: Seq<Field<'a, B>>, data: Seq<B::Index>| #[trigger] mapped_from(&map_fields, fs, data)
                    && fields_at(fs, old(self).spec_board(), old(self).spec_indices()) && forall|j: B::Index| data.contains(j)
                    ==> #[trigger] self.spec_contains(j),
            decreases bound - round,
        {
            let data = result.data();
            let ghost start = *self;
            let mut queued: Vec<Field<'a, B>> = Vec::new();
            let mut k: usize = 0;
            while k < data.len()
                invariant
                    self.wf(),
                    self.spec_board() == old(self).spec_board(),
                    data@ == result.spec_data(),
                    on_board(self.board, data@),
                    k <= data@.len(),
                    forall|a: int| 0 <= a < queued@.len() ==> (#[trigger] queued@[a]).spec_board() == self.board
                        && self.spec_contains(queued@[a].spec_index()),
                    forall|j: B::Index| old(self).spec_contains(j) ==> self.spec_contains(j),
                    forall|j: B::Index| start.spec_contains(j) ==> self.spec_contains(j),
                    forall|a: int| 0 <= a < k ==> self.spec_contains(#[trigger] data@[a]),
                    (success || queued@.len() > 0) == (self.spec_indices().len() > old(self).spec_indices().len()),
                    self.spec_indices().len() >= start.spec_indices().len() + (if queued@.len() > 0 { 1int } else { 0int }),
                    start.spec_indices().len() >= old(self).spec_indices().len() + round,
                decreases data@.len() - k,
            {
                let i = data[k];
                if self.base_insert(i) {
                    match Field::new(self.board, i) {
                        Some(f) => {
                            queued.push(f);
                        },
                        None => {},
                    }
                }
                k += 1;
            }
            proof {
                assert forall|j: B::Index| result.spec_data().contains(j) implies #[trigger] self.spec_contains(j) by {
                    let a = choose|a: int| 0 <= a < data@.len() && data@[a] == j;
                }
                assert(forall|k2: int| 0 <= k2 < qf.len() ==> (#[trigger] qf[k2]).spec_board() == old(self).spec_board()
                    && self.spec_contains(qf[k2].spec_index()));
                if round == 0 {
                    assert(mapped_from(&map_fields, qf, result.spec_data()));
                    assert(fields_at(qf, old(self).spec_board(), old(self).spec_indices()));
                } else {
                    let (fs, d) = choose|fs: Seq<Field<'a, B>>, d: Seq<B::Index>| #[trigger] mapped_from(&map_fields, fs, d)
                        && fields_at(fs, old(self).spec_board(), old(self).spec_indices()) && forall|j: B::Index| d.contains(j)
                        ==> #[trigger] start.spec_contains(j);
                    assert forall|j: B::Index| d.contains(j) implies #[trigger] self.spec_contains(j) by {
                        assert(start.spec_contains(j));
                    }
                }
            }
            if queued.len() == 0 {
                return success;
            }
            success = true;
            result = Self::apply_mapping(&queued, &map_fields, self.board);
            proof {
                qf = queued@;
            }
            round += 1;
        }
        success
    }

    /// Adds the fields that `collect` yields for the set; returns whether one
    /// was new.
    pub fn extend_with<F>(&mut self, collect: F) -> (r: bool)
        where
            F: FnOnce(&Self) -> FieldSearchResult<B::Index>,
        requires
            old(self).wf(),
            collect.requires((&*old(self),)),
            forall|res: FieldSearchResult<B::Index>| #[trigger] collect.ensures((&*old(self),), res) ==> on_board(
                old(self).spec_board(),
                res.spec_data(),
            ),
        ensures
            final(self).wf(),
            final(self).spec_board() == old(self).spec_board(),
            forall|j: B::Index| old(self).spec_contains(j) ==> final(self).spec_contains(j),
            r == (final(self).spec_indices().len() > old(self).spec_indices().len()),
            final(self).spec_indices().len() >= old(self).spec_indices().len(),
            exists|res: FieldSearchResult<B::Index>| #[trigger] collect.ensures((&*old(self),), res) && forall|j: B::Index|
                #[trigger] final(self).spec_contains(j) == (old(self).spec_contains(j) || res.spec_data().contains(j)),
    {
        let found = collect(&*self);
        self.extend_helper(found)
    }

    /// Repeats `extend_with` while it adds fields; returns whether one was
    /// added.  The number of steps is bounded by the number of indices of
    /// the board.
    pub fn extend_with_repeated<F>(&mut self, collect: F) -> (r: bool)
        where
            F: Fn(&Self) -> FieldSearchResult<B::Index>,
        requires
            old(self).wf(),
            forall|s: &Self| #[trigger] collect.requires((s,)),
            forall|s: &Self, res: FieldSearchResult<B::Index>| #[trigger] collect.ensures((s,), res) ==> on_board(
                s.spec_board(),
                res.spec_data(),
            ),
        ensures
            final(self).wf(),
            final(self).spec_board() == old(self).spec_board(),
            forall|j: B::Index| old(self).spec_contains(j) ==> final(self).spec_contains(j),
            r == (final(self).spec_indices().len() > old(self).spec_indices().len()),
            final(self).spec_indices().len() >= old(self).spec_indices().len(),
            old(self).spec_board().spec_all_indices().len() > 0 ==> exists|res: FieldSearchResult<B::Index>| #[trigger] collect.ensures(
                (&*old(self),),
                res,
            ) && forall|j: B::Index| res.spec_data().contains(j) ==> #[trigger] final(self).spec_contains(j),
            final(self).spec_indices().len() < old(self).spec_indices().len() + old(self).spec_board().spec_all_indices().len()
                ==> exists|s: Self, res: FieldSearchResult<B::Index>| #[trigger] collect.ensures((&s,), res) && s.spec_board()
                == final(self).spec_board() && s.spec_indices() == final(self).spec_indices() && forall|j: B::Index|
                res.spec_data().contains(j) ==> #[trigger] final(self).spec_contains(j),
    {
        let bound = self.board.all_indices().len();
        let mut success = false;
        let mut round: usize = 0;
        while round < bound
            invariant
                self.wf(),
                self.spec_board() == old(self).spec_board(),
                forall|j: B::Index| old(self).spec_contains(j) ==> self.spec_contains(j),
                success == (self.spec_indices().len() > old(self).spec_indices().len()),
                self.spec_indices().len() >= old(self).spec_indices().len() + round,
                bound == old(self).spec_board().spec_all_indices().len(),
                forall|s: &Self| #[trigger] collect.requires((s,)),
                forall|s: &Self, res: FieldSearchResult<B::Index>| #[trigger] collect.ensures((s,), res) ==> on_board(
                    s.spec_board(),
                    res.spec_data(),
                ),
                round > 0 ==> exists|res: FieldSearchResult<B::Index>| #[trigger] collect.ensures((&*old(self),), res)
                    && forall|j: B::Index| res.spec_data().contains(j) ==> #[trigger] self.spec_contains(j),
                round == 0 ==> *self == *old(self),
            decreases bound - round,
        {
            let ghost before = *self;
            let found = collect(&*self);
            let grew = self.extend_helper(found);
            proof {
                assert(forall|j: B::Index| found.spec_data().contains(j) ==> #[trigger] self.spec_contains(j));
                if round > 0 {
                    let r0 = choose|r0: FieldSearchResult<B::Index>| #[trigger] collect.ensures((&*old(self),), r0)
                        && forall|j: B::Index| r0.spec_data().contains(j) ==> #[trigger] before.spec_contains(j);
                    assert(forall|j: B::Index| r0.spec_data().contains(j) ==> #[trigger] self.spec_contains(j));
                } else {
                    assert(collect.ensures((&*old(self),), found));
                }
                if !grew {
                    assert(collect.ensures((&before,), found));
                }
            }
            if !grew {
                return success;
            }
            success = true;
            round += 1;
        }
        success
    }

    /// Replaces the set by the fields that `map_fields` yields for its
    /// fields.
    pub fn replace<F>(&mut self, map_fields: F)
        where
            F: Fn(Field<'a, B>) -> FieldSearchResult<B::Index>,
        requires
            old(self).wf(),
            forall|f: Field<'a, B>| #[trigger] map_fields.requires((f,)),
            forall|f: Field<'a, B>, res: FieldSearchResult<B::Index>| #[trigger] map_fields.ensures((f,), res) ==> on_board(
                old(self).spec_board(),
                res.spec_data(),
            ),
        ensures
            final(self).wf(),
            final(self).spec_board() == old(self).spec_board(),
            exists|fields: Seq<Field<'a, B>>, data: Seq<B::Index>| #[trigger] mapped_from(&map_fields, fields, data)
                && fields_at(fields, old(self).spec_board(), old(self).spec_indices()) && forall|j: B::Index| #[trigger]
                final(self).spec_contains(j) == data.contains(j),
    {
        let fields = self.iter();
        let found = Self::apply_mapping(&fields, &map_fields, self.board);
        proof {
            assert(fields_at(fields@, old(self).spec_board(), old(self).spec_indices()));
        }
        self.replace_helper(found);
        proof {
            assert(mapped_from(&map_fields, fields@, found.spec_data()));
        }
    }

    /// Replaces the set by the fields that `collect` yields for it.
    pub fn replace_with<F>(&mut self, collect: F)
        where
            F: FnOnce(&Self) -> FieldSearchResult<B::Index>,
        requires
            old(self).wf(),
            collect.requires((&*old(self),)),
            forall|res: FieldSearchResult<B::Index>| #[trigger] collect.ensures((&*old(self),), res) ==> on_board(
                old(self).spec_board(),
                res.spec_data(),
            ),
        ensures
            final(self).wf(),
            final(self).spec_board() == old(self).spec_board(),
            exists|res: FieldSearchResult<B::Index>| #[trigger] collect.ensures((&*old(self),), res) && forall|j: B::Index|
                #[trigger] final(self).spec_contains(j) == res.spec_data().contains(j),
    {
        let found = collect(&*self);
        self.replace_helper(found)
    }
}

impl<'a, M: IndexMap<Item = ()>, S: NeighborhoodStructure<B>, B: Board<Index = M::IndexType, Structure = S>> SearchingSet<'a, M, B> {
    /// The neighbors of the fields of the set that satisfy the predicate.
    fn apply_growth<F>(&self, predicate: &F) -> (r: FieldSearchResult<B::Index>)
        where
            F: Fn(Field<'a, B>) -> bool,
        requires
            self.wf(),
            forall|f: Field<'a, B>| #[trigger] predicate.requires((f,)),
        ensures
            on_board(self.spec_board(), r.spec_data()),
            grown_from(predicate, self.spec_board(), self.spec_indices(), r.spec_data()),
    {
        let fields = self.iter();
        let ghost board = self.board;
        let ghost indices = self.spec_indices();
        let mut data: Vec<B::Index> = Vec::new();
        let mut k: usize = 0;
        while k < fields.len()
            invariant
                k <= fields@.len(),
                board == self.board,
                indices == self.spec_indices(),
                fields@.len() == indices.len(),
                forall|a: int| 0 <= a < fields@.len() ==> (#[trigger] fields@[a]).spec_board() == self.board
                    && fields@[a].spec_index() == indices[a],
                on_board(self.board, data@),
                forall|f: Field<'a, B>| #[trigger] predicate.requires((f,)),
                forall|a: int| 0 <= a < data@.len() ==> accepted_neighbor(predicate, board, indices, #[trigger] data@[a]),
                forall|kk: int, m: int| 0 <= kk < k && 0 <= m < board.spec_board_structure().spec_neighbors(board, indices[kk]).len()
                    && (forall|f: Field<'a, B>, b: bool| f.spec_board() == board && f.spec_index()
                    == board.spec_board_structure().spec_neighbors(board, indices[kk])[m] && #[trigger] predicate.ensures((f,), b)
                    ==> b) ==> data@.contains(#[trigger] board.spec_board_structure().spec_neighbors(board, indices[kk])[m]),
            decreases fields@.len() - k,
        {
            let neighbors = fields[k].neighbors();
            let ghost nb = board.spec_board_structure().spec_neighbors(board, indices[k as int]);
            let mut j: usize = 0;
            while j < neighbors.len()
                invariant
                    j <= neighbors@.len(),
                    k < indices.len(),
                    neighbors@.len() == nb.len(),
                    nb == board.spec_board_structure().spec_neighbors(board, indices[k as int]),
                    forall|a: int| 0 <= a < neighbors@.len() ==> (#[trigger] neighbors@[a]).spec_board() == self.board
                        && neighbors@[a].spec_index() == nb[a],
                    board == self.board,
                    on_board(self.board, data@),
                    forall|f: Field<'a, B>| #[trigger] predicate.requires((f,)),
                    forall|a: int| 0 <= a < data@.len() ==> accepted_neighbor(predicate, board, indices, #[trigger] data@[a]),
                    forall|kk: int, m: int| 0 <= kk < k && 0 <= m < board.spec_board_structure().spec_neighbors(board, indices[kk]).len()
                        && (forall|f: Field<'a, B>, b: bool| f.spec_board() == board && f.spec_index()
                        == board.spec_board_structure().spec_neighbors(board, indices[kk])[m] && #[trigger] predicate.ensures((f,), b)
                        ==> b) ==> data@.contains(#[trigger] board.spec_board_structure().spec_neighbors(board, indices[kk])[m]),
                    forall|m: int| 0 <= m < j && (forall|f: Field<'a, B>, b: bool| f.spec_board() == board && f.spec_index()
                        == nb[m] && #[trigger] predicate.ensures((f,), b) ==> b) ==> data@.contains(#[trigger] nb[m]),
                decreases neighbors@.len() - j,
            {
                let n = neighbors[j];
                let ghost before = data@;
                let accepted = predicate(n);
                if accepted {
                    let content = n.content_checked();
                    data.push(n.index());
                }
                proof {
                    assert forall|y: B::Index| before.contains(y) implies data@.contains(y) by {
                        let a = choose|a: int| 0 <= a < before.len() && before[a] == y;
                        assert(data@[a] == y);
                    }
                    if accepted {
                        assert(data@[data@.len() - 1] == nb[j as int]);
                        assert(nb.contains(nb[j as int]));
                    }
                    assert forall|a: int| 0 <= a < data@.len() implies accepted_neighbor(predicate, board, indices, #[trigger] data@[a]) by {
                        if a < before.len() {
                            assert(data@[a] == before[a]);
                        } else {
                            assert(indices[k as int] == indices[k as int]);
                            assert(predicate.ensures((n,), true));
                            assert(nb.contains(data@[a]));
                        }
                    }
                    assert forall|m: int| 0 <= m < j + 1 && (forall|f: Field<'a, B>, b: bool| f.spec_board() == board && f.spec_index()
                        == nb[m] && #[trigger] predicate.ensures((f,), b) ==> b) implies data@.contains(#[trigger] nb[m]) by {
                        if m == j {
                            assert(predicate.ensures((n,), accepted));
                            assert(data@[data@.len() - 1] == nb[m]);
                        } else {
                            assert(before.contains(nb[m]));
                        }
                    }
                    assert forall|kk: int, m: int| 0 <= kk < k && 0 <= m < board.spec_board_structure().spec_neighbors(board, indices[kk]).len()
                        && (forall|f: Field<'a, B>, b: bool| f.spec_board() == board && f.spec_index()
                        == board.spec_board_structure().spec_neighbors(board, indices[kk])[m] && #[trigger] predicate.ensures((f,), b)
                        ==> b) implies data@.contains(#[trigger] board.spec_board_structure().spec_neighbors(board, indices[kk])[m]) by {
                        assert(before.contains(board.spec_board_structure().spec_neighbors(board, indices[kk])[m]));
                    }
                }
                j += 1;
            }
            proof {
                assert forall|kk: int, m: int| 0 <= kk < k + 1 && 0 <= m < board.spec_board_structure().spec_neighbors(board, indices[kk]).len()
                    && (forall|f: Field<'a, B>, b: bool| f.spec_board() == board && f.spec_index()
                    == board.spec_board_structure().spec_neighbors(board, indices[kk])[m] && #[trigger] predicate.ensures((f,), b)
                    ==> b) implies data@.contains(#[trigger] board.spec_board_structure().spec_neighbors(board, indices[kk])[m]) by {
                    if kk == k {
                        assert(nb[m] == board.spec_board_structure().spec_neighbors(board, indices[kk])[m]);
                    }
                }
            }
            k += 1;
        }
        FieldSearchResult { data }
    }

    /// Adds the neighbors of the fields that satisfy the predicate; returns
    /// whether one was new.
    pub fn grow<F>(&mut self, predicate: F) -> (r: bool)
        where
            F: Fn(Field<'a, B>) -> bool,
        requires
            old(self).wf(),
            forall|f: Field<'a, B>| #[trigger] predicate.requires((f,)),
        ensures
            final(self).wf(),
            final(self).spec_board() == old(self).spec_board(),
            forall|j: B::Index| old(self).spec_contains(j) ==> final(self).spec_contains(j),
            r == (final(self).spec_indices().len() > old(self).spec_indices().len()),
            final(self).spec_indices().len() >= old(self).spec_indices().len(),
            exists|data: Seq<B::Index>| #[trigger] grown_from(&predicate, old(self).spec_board(), old(self).spec_indices(), data)
                && forall|j: B::Index| #[trigger] final(self).spec_contains(j) == (old(self).spec_contains(j) || data.contains(j)),
            !r ==> forall|j: B::Index| #[trigger] final(self).spec_contains(j) == old(self).spec_contains(j),
            !r ==> final(self).spec_indices() == old(self).spec_indices(),
    {
        let found = self.apply_growth(&predicate);
        self.extend_helper(found)
    }

    /// Repeats `grow` until no field is added; returns whether one was
    /// added.  The number of steps is bounded by the number of indices of
    /// the board.
    pub fn grow_repeated<F>(&mut self, predicate: F) -> (r: bool)
        where
            F: Fn(Field<'a, B>) -> bool,
        requires
            old(self).wf(),
            forall|f: Field<'a, B>| #[trigger] predicate.requires((f,)),
        ensures
            final(self).wf(),
            final(self).spec_board() == old(self).spec_board(),
            forall|j: B::Index| old(self).spec_contains(j) ==> final(self).spec_contains(j),
            r == (final(self).spec_indices().len() > old(self).spec_indices().len()),
            final(self).spec_indices().len() >= old(self).spec_indices().len(),
            old(self).spec_board().spec_all_indices().len() > 0 ==> exists|data: Seq<B::Index>| #[trigger] grown_from(
                &predicate,
                old(self).spec_board(),
                old(self).spec_indices(),
                data,
            ) && forall|j: B::Index| data.contains(j) ==> #[trigger] final(self).spec_contains(j),
            final(self).spec_indices().len() < old(self).spec_indices().len() + old(self).spec_board().spec_all_indices().len()
                ==> exists|data: Seq<B::Index>| #[trigger] grown_from(
                &predicate,
                final(self).spec_board(),
                final(self).spec_indices(),
                data,
            ) && forall|j: B::Index| data.contains(j) ==> #[trigger] final(self).spec_contains(j),
    {
        let bound = self.board.all_indices().len();
        let mut success = false;
        let mut round: usize = 0;
        while round < bound
            invariant
                self.wf(),
                self.spec_board() == old(self).spec_board(),
                forall|j: B::Index| old(self).spec_contains(j) ==> self.spec_contains(j),
                success == (self.spec_indices().len() > old(self).spec_indices().len()),
                self.spec_indices().len() >= old(self).spec_indices().len() + round,
                bound == old(self).spec_board().spec_all_indices().len(),
                forall|f: Field<'a, B>| #[trigger] predicate.requires((f,)),
                round > 0 ==> exists|data: Seq<B::Index>| #[trigger] grown_from(
                    &predicate,
                    old(self).spec_board(),
                    old(self).spec_indices(),
                    data,
                ) && forall|j: B::Index| data.contains(j) ==> #[trigger] self.spec_contains(j),
                round == 0 ==> *self == *old(self),
            decreases bound - round,
        {
            let ghost before = *self;
            let grew = self.grow(&predicate);
            proof {
                let data = choose|data: Seq<B::Index>| #[trigger] grown_from(&&predicate, before.spec_board(), before.spec_indices(), data)
                    && forall|j: B::Index| #[trigger] self.spec_contains(j) == (before.spec_contains(j) || data.contains(j));
                lemma_grown_by_ref(&predicate, before.spec_board(), before.spec_indices(), data);
                assert(forall|j: B::Index| data.contains(j) ==> #[trigger] self.spec_contains(j));
                if round > 0 {
                    let d0 = choose|d0: Seq<B::Index>| #[trigger] grown_from(
                        &predicate,
                        old(self).spec_board(),
                        old(self).spec_indices(),
                        d0,
                    ) && forall|j: B::Index| d0.contains(j) ==> #[trigger] before.spec_contains(j);
                    assert(forall|j: B::Index| d0.contains(j) ==> #[trigger] self.spec_contains(j));
                }
                if !grew {
                    assert(forall|j: B::Index| data.contains(j) ==> #[trigger] self.spec_contains(j));
                    assert(self.spec_indices() == before.spec_indices());
                    assert(grown_from(&predicate, self.spec_board(), self.spec_indices(), data));
                    if round == 0 {
                        assert(grown_from(&predicate, old(self).spec_board(), old(self).spec_indices(), data));
                    }
                }
            }
            if !grew {
                return success;
            }
            success = true;
            round += 1;
        }
        success
    }

    /// Replaces the set by the neighbors of its fields that satisfy the
    /// predicate.
    pub fn step<F>(&mut self, predicate: F)
        where
            F: Fn(Field<'a, B>) -> bool,
        requires
            old(self).wf(),
            forall|f: Field<'a, B>| #[trigger] predicate.requires((f,)),
        ensures
            final(self).wf(),
            final(self).spec_board() == old(self).spec_board(),
            exists|data: Seq<B::Index>| #[trigger] grown_from(&predicate, old(self).spec_board(), old(self).spec_indices(), data)
                && forall|j: B::Index| #[trigger] final(self).spec_contains(j) == data.contains(j),
    {
        let found = self.apply_growth(&predicate);
        self.replace_helper(found)
    }
}

impl<'a, B: BoardToMap<()>> Field<'a, B> {
    /// A search that starts with this field.
    pub fn search(self) -> (r: SearchingSet<'a, B::Map, B>)
        ensures
            r.wf(),
            r.spec_board() == self.spec_board(),
            r.spec_indices() == seq![self.spec_index()],
    {
        let mut set = SearchingSet::new(self.board());
        let content = self.content_checked();
        set.insert(self.index());
        set
    }
}

impl<'a, M: DirectionStructure<B>, B: BoardToMap<(), Structure = M>> Field<'a, B> {
    /// The next field in the direction, if it is on the board and not yet in
    /// the set; it is added to the set.
    fn get_successor(self, direction: M::Direction, set: &mut SetWrapper<B::Map>) -> (r: Option<Self>)
        ensures
            r matches Some(f) ==> f.spec_board() == self.spec_board() && !old(set).spec_contains(f.spec_index())
                && final(set).spec_indices() == old(set).spec_indices().push(f.spec_index())
                && Some(f.spec_index()) == structure_next(self.spec_board(), self.spec_index(), direction),
            r is None ==> line_stops(self.spec_board(), self.spec_index(), direction, |j: B::Index| old(set).spec_contains(j)),
            r matches Some(f) ==> forall|j: B::Index| #[trigger] final(set).spec_contains(j) == (old(set).spec_contains(j) || j
                == f.spec_index()),
            r is None ==> final(set).spec_indices().len() == old(set).spec_indices().len(),
            r is None ==> forall|j: B::Index| #[trigger] final(set).spec_contains(j) == old(set).spec_contains(j),
    {
        match self.next(direction) {
            Some(field) => {
                if set.insert(field.index()) {
                    Some(field)
                } else {
                    None
                }
            },
            None => None,
        }
    }

    /// The fields along the line in the direction, starting with this one;
    /// no field comes twice.  The line ends before a field that is not on
    /// the board or that came already, and is at most as long as the board
    /// has listed indices.
    pub fn iter_line(&self, direction: M::Direction) -> (r: Vec<Field<'a, B>>)
        ensures
            r@.len() >= 1,
            r@[0] == *self,
            forall|k: int| 0 <= k < r@.len() ==> (#[trigger] r@[k]).spec_board() == self.spec_board(),
            forall|a: int, b: int| 0 <= a < b < r@.len() ==> (#[trigger] r@[a]).spec_index() != (#[trigger] r@[b]).spec_index(),
            forall|k: int| 0 <= k < r@.len() - 1 ==> Some((#[trigger] r@[k + 1]).spec_index()) == structure_next(
                self.spec_board(),
                r@[k].spec_index(),
                direction,
            ),
            r@.len() < self.spec_board().spec_all_indices().len() ==> line_stops(
                self.spec_board(),
                r@.last().spec_index(),
                direction,
                |j: B::Index| exists|k: int| 0 <= k < r@.len() && (#[trigger] r@[k]).spec_index() == j,
            ),
    {
        let board = self.board();
        let bound = board.all_indices().len();
        let map = board.get_index_map();
        let mut set: SetWrapper<B::Map> = SetWrapper::from_map(map);
        assert(forall|j: B::Index| !set.spec_contains(j));
        set.insert(self.index());
        let mut result: Vec<Field<'a, B>> = Vec::new();
        result.push(*self);
        let mut current = *self;
        while result.len() < bound
            invariant
                result@.len() >= 1,
                result@[0] == *self,
                current == result@[result@.len() - 1],
                forall|k: int| 0 <= k < result@.len() ==> (#[trigger] result@[k]).spec_board() == self.spec_board(),
                forall|k: int| 0 <= k < result@.len() ==> set.spec_contains(#[trigger] result@[k].spec_index()),
                forall|j: B::Index| #[trigger] set.spec_contains(j) ==> exists|k: int| 0 <= k < result@.len() && (#[trigger] result@[k]).spec_index() == j,
                forall|a: int, b: int| 0 <= a < b < result@.len() ==> (#[trigger] result@[a]).spec_index() != (
                #[trigger] result@[b]).spec_index(),
                forall|k: int| 0 <= k < result@.len() - 1 ==> Some((#[trigger] result@[k + 1]).spec_index()) == structure_next(
                    self.spec_board(),
                    result@[k].spec_index(),
                    direction,
                ),
                bound == self.spec_board().spec_all_indices().len(),
            ensures
                result@.len() >= 1,
                result@[0] == *self,
                forall|k: int| 0 <= k < result@.len() ==> (#[trigger] result@[k]).spec_board() == self.spec_board(),
                forall|a: int, b: int| 0 <= a < b < result@.len() ==> (#[trigger] result@[a]).spec_index() != (
                #[trigger] result@[b]).spec_index(),
                forall|k: int| 0 <= k < result@.len() - 1 ==> Some((#[trigger] result@[k + 1]).spec_index()) == structure_next(
                    self.spec_board(),
                    result@[k].spec_index(),
                    direction,
                ),
                result@.len() < bound ==> line_stops(
                    self.spec_board(),
                    result@.last().spec_index(),
                    direction,
                    |j: B::Index| exists|k: int| 0 <= k < result@.len() && (#[trigger] result@[k]).spec_index() == j,
                ),
            decreases bound - result@.len(),
        {
            let ghost before = result@;
            let ghost set_before = set;
            match current.get_successor(direction, &mut set) {
                Some(f) => {
                    result.push(f);
                    current = f;
                    proof {
                        assert(result@[result@.len() - 1] == f);
                        assert forall|j: B::Index| #[trigger] set.spec_contains(j) implies exists|k: int|
                            0 <= k < result@.len() && (#[trigger] result@[k]).spec_index() == j by {
                            if j == f.spec_index() {
                                assert(result@[result@.len() - 1].spec_index() == j);
                            } else {
                                let k = choose|k: int| 0 <= k < before.len() && (#[trigger] before[k]).spec_index() == j;
                                assert(result@[k] == before[k]);
                            }
                        }
                    }
                },
                None => {
                    proof {
                        if let Some(n) = structure_next(self.spec_board(), current.spec_index(), direction) {
                            if self.spec_board().spec_get(n) is Some {
                                assert(set_before.spec_contains(n));
                            }
                        }
                    }
                    break ;
                },
            }
        }
        result
    }
}

impl<'a, M: DirectionStructure<B>, B: BoardToMap<(), Structure = M>> Field<'a, B> where M::Direction: DirectionReversable {
    /// The fields along the line in the direction while the predicate
    /// accepts them, then along the line in the reverse direction; this field
    /// comes first if the predicate accepts it.  No field comes twice.
    pub fn iter_bidirectional<P>(&self, direction: M::Direction, predicate: P) -> (r: Bidirectional<'a, M, B, P>)
        where
            P: Fn(Field<'a, B>) -> bool,
        requires
            forall|f: Field<'a, B>| #[trigger] predicate.requires((f,)),
        ensures
            r.wf(),
            r.spec_board() == self.spec_board(),
            r.spec_predicate() == predicate,
            forall|j: B::Index| !r.spec_visited(j),
            r.spec_root() == Some(*self),
            r.spec_current() == Some(*self),
            r.spec_direction() == direction,
    {
        Bidirectional::new(*self, direction, predicate)
    }
}

/// The fields along a line through a root field in both directions, while a
/// predicate accepts them.
#[verifier::reject_recursive_types(M)]
#[verifier::reject_recursive_types(B)]
pub struct Bidirectional<'a, M: DirectionStructure<B>, B: Board<Structure = M> + BoardToMap<()>, P> {
    board: &'a B,
    root: Option<Field<'a, B>>,
    previous: Option<Field<'a, B>>,
    direction: M::Direction,
    set: SetWrapper<B::Map>,
    predicate: P,
}

impl<'a, M: DirectionStructure<B>, B: Board<Structure = M> + BoardToMap<()>, P: Fn(Field<'a, B>) -> bool> Bidirectional<'a, M, B, P> where M::Direction: DirectionReversable {
    pub closed spec fn spec_board(&self) -> &'a B {
        self.board
    }

    pub closed spec fn spec_predicate(&self) -> P {
        self.predicate
    }

    /// The field at the index was already visited.
    pub closed spec fn spec_visited(&self, i: B::Index) -> bool {
        self.set.spec_contains(i)
    }

    /// The root, while the line in the reverse direction is still to come.
    pub closed spec fn spec_root(&self) -> Option<Field<'a, B>> {
        self.root
    }

    /// The direction of the current line.
    pub closed spec fn spec_direction(&self) -> M::Direction {
        self.direction
    }

    /// No field has been handed out yet.
    pub closed spec fn spec_fresh(&self) -> bool {
        self.previous is None
    }

    /// The current line ends after the field at `index`: the next field in
    /// the direction is not on the board or came already (the field at
    /// `extra` counting as come), or the predicate rejected it.
    pub open spec fn spec_run_ends(&self, index: B::Index, extra: B::Index) -> bool {
        ||| line_stops(self.spec_board(), index, self.spec_direction(), |j: B::Index| self.spec_visited(j) || j == extra)
        ||| exists|f: Field<'a, B>| #[trigger] self.spec_predicate().ensures((f,), false) && f.spec_board()
            == self.spec_board() && Some(f.spec_index()) == structure_next(self.spec_board(), index, self.spec_direction())
    }

    /// The field from which the current line goes on: the last field of the
    /// line, or the root before the first step.
    pub closed spec fn spec_current(&self) -> Option<Field<'a, B>> {
        match self.previous {
            Some(p) => Some(p),
            None => self.root,
        }
    }

    pub closed spec fn wf(&self) -> bool {
        &&& forall|f: Field<'a, B>| #[trigger] self.predicate.requires((f,))
        &&& self.previous is None ==> (self.root matches Some(f) && !self.set.spec_contains(f.spec_index()))
        &&& self.root matches Some(f) ==> f.spec_board() == self.board
        &&& self.previous matches Some(f) ==> f.spec_board() == self.board
    }

    pub fn new(root: Field<'a, B>, direction: M::Direction, predicate: P) -> (r: Self)
        requires
            forall|f: Field<'a, B>| #[trigger] predicate.requires((f,)),
        ensures
            r.wf(),
            r.spec_board() == root.spec_board(),
            r.spec_predicate() == predicate,
            forall|j: B::Index| !r.spec_visited(j),
            r.spec_root() == Some(root),
            r.spec_current() == Some(root),
            r.spec_direction() == direction,
    {
        let board = root.board();
        let map = board.get_index_map();
        let set = SetWrapper::from_map(map);
        assert(forall|j: B::Index| !set.spec_contains(j));
        Self { board, root: Some(root), previous: None, direction, set, predicate }
    }

    /// One step along the current line from the previous field.
    fn step_line(&mut self) -> (r: Option<Field<'a, B>>)
        requires
            old(self).wf(),
            old(self).previous is Some,
        ensures
            final(self).wf(),
            final(self).board == old(self).board,
            final(self).predicate == old(self).predicate,
            final(self).root == old(self).root,
            final(self).direction == old(self).direction,
            r matches Some(f) ==> f.spec_board() == old(self).board && !old(self).spec_visited(f.spec_index())
                && final(self).previous == Some(f) && old(self).predicate.ensures((f,), true) && final(self).spec_visited(
                f.spec_index()),
            r matches Some(f) ==> Some(f.spec_index()) == structure_next(
                old(self).board,
                old(self).previous->Some_0.spec_index(),
                old(self).direction,
            ),
            (old(self).previous matches Some(p) && structure_next(old(self).board, p.spec_index(), old(self).direction)
                matches Some(i) && old(self).board.spec_get(i) is Some && !old(self).spec_visited(i) && forall|
                f: Field<'a, B>,
                b: bool,
            | f.spec_board() == old(self).board && f.spec_index() == i && #[trigger] old(self).predicate.ensures((f,), b)
                ==> b) ==> r is Some,
            forall|j: B::Index| old(self).spec_visited(j) ==> #[trigger] final(self).spec_visited(j),
            forall|j: B::Index| #[trigger] final(self).spec_visited(j) ==> old(self).spec_visited(j) || (r matches Some(
                f) && j == f.spec_index()) || r is None,
            r is None ==> (old(self).previous matches Some(p) && old(self).spec_run_ends(p.spec_index(), p.spec_index())),
    {
        let field = match self.previous {
            Some(f) => f,
            None => {
                return None;
            },
        };
        let ghost before = *self;
        match field.get_successor(self.direction, &mut self.set) {
            Some(f) => {
                let accepted = (self.predicate)(f);
                if accepted {
                    self.previous = Some(f);
                    Some(f)
                } else {
                    proof {
                        assert(before.spec_predicate().ensures((f,), false));
                    }
                    None
                }
            },
            None => {
                proof {
                    let p = field.spec_index();
                    assert(line_stops(before.board, p, before.direction, |j: B::Index| before.set.spec_contains(j)));
                    match structure_next(before.board, p, before.direction) {
                        Some(n) => {
                            assert(before.board.spec_get(n) is None || before.spec_visited(n));
                        },
                        None => {},
                    }
                    assert(line_stops(before.spec_board(), p, before.spec_direction(), |j: B::Index| before.spec_visited(j) || j == p));
                }
                None
            },
        }
    }

    /// The next field: first along the line in the direction, then along the
    /// line in the reverse direction from the root.
    pub fn next(&mut self) -> (r: Option<Field<'a, B>>)
        requires
            old(self).wf(),
        ensures
            final(self).wf(),
            final(self).spec_board() == old(self).spec_board(),
            final(self).spec_predicate() == old(self).spec_predicate(),
            r matches Some(f) ==> f.spec_board() == old(self).spec_board(),
            r matches Some(f) ==> !old(self).spec_visited(f.spec_index()) && final(self).spec_visited(f.spec_index()),
            r matches Some(f) ==> old(self).spec_predicate().ensures((f,), true),
            forall|j: B::Index| old(self).spec_visited(j) ==> #[trigger] final(self).spec_visited(j),
            r matches Some(f) ==> {
                ||| old(self).spec_current() == Some(f) && old(self).spec_root() == Some(f)
                ||| old(self).spec_current() matches Some(c) && Some(f.spec_index()) == structure_next(
                    old(self).spec_board(),
                    c.spec_index(),
                    old(self).spec_direction(),
                )
                ||| old(self).spec_root() matches Some(r0) && Some(f.spec_index()) == structure_next(
                    old(self).spec_board(),
                    r0.spec_index(),
                    old(self).spec_direction().reversal(),
                )
            },
            r is None ==> final(self).spec_root() is None,
            final(self).spec_root() is Some ==> final(self).spec_root() == old(self).spec_root()
                && final(self).spec_direction() == old(self).spec_direction(),
            (old(self).spec_current() matches Some(c) && structure_next(
                old(self).spec_board(),
                c.spec_index(),
                old(self).spec_direction(),
            ) matches Some(i) && old(self).spec_board().spec_get(i) is Some && !old(self).spec_visited(i) && forall|
                f: Field<'a, B>,
                b: bool,
            | f.spec_board() == old(self).spec_board() && f.spec_index() == i && #[trigger] old(self).spec_predicate().ensures(
                (f,),
                b,
            ) ==> b) ==> r is Some,
            old(self).spec_fresh() ==> (old(self).spec_root() matches Some(rt) && ((r == Some(rt)
                && old(self).spec_predicate().ensures((rt,), true)) || (r != Some(rt) && old(self).spec_predicate().ensures(
                (rt,),
                false,
            )))),
            old(self).spec_root() is Some && final(self).spec_root() is Some ==> (r matches Some(f) && ((
            old(self).spec_fresh() && r == old(self).spec_root()) || (old(self).spec_current() matches Some(c) && Some(
                f.spec_index(),
            ) == structure_next(old(self).spec_board(), c.spec_index(), old(self).spec_direction())))),
            old(self).spec_root() is Some && final(self).spec_root() is None ==> (old(self).spec_current() matches Some(c)
                && old(self).spec_run_ends(c.spec_index(), c.spec_index())),
    {
        if self.previous.is_none() {
            let root = match self.root {
                Some(f) => f,
                None => {
                    return None;
                },
            };
            self.set.insert(root.index());
            self.previous = Some(root);
            let accepted = (self.predicate)(root);
            if accepted {
                return Some(root);
            }
            proof {
                assert(old(self).predicate.ensures((root,), false));
            }
        }
        let ghost first = *self;
        proof {
            assert(old(self).spec_board() == old(self).board && old(self).spec_direction() == old(self).direction
                && old(self).spec_predicate() == old(self).predicate);
            let old_premise = old(self).spec_current() matches Some(c) && structure_next(
                old(self).spec_board(),
                c.spec_index(),
                old(self).spec_direction(),
            ) matches Some(i) && old(self).spec_board().spec_get(i) is Some && !old(self).spec_visited(i) && forall|
                f: Field<'a, B>,
                b: bool,
            | f.spec_board() == old(self).spec_board() && f.spec_index() == i && #[trigger] old(self).spec_predicate().ensures(
                (f,),
                b,
            ) ==> b;
            let first_premise = first.previous matches Some(p) && structure_next(first.board, p.spec_index(), first.direction)
                matches Some(j) && first.board.spec_get(j) is Some && !first.spec_visited(j) && forall|
                f: Field<'a, B>,
                b: bool,
            | f.spec_board() == first.board && f.spec_index() == j && #[trigger] first.predicate.ensures((f,), b) ==> b;
            assert(old_premise ==> first_premise) by {
                if old_premise {
                    let c = old(self).spec_current()->Some_0;
                    let i = structure_next(old(self).board, c.spec_index(), old(self).direction)->Some_0;
                    assert(first.previous == Some(c));
                    if old(self).previous is None {
                        assert(c.spec_board() == old(self).board);
                        assert(i != c.spec_index());
                    }
                    assert(!first.spec_visited(i));
                }
            }
        }
        assert(forall|j: B::Index| old(self).spec_visited(j) ==> #[trigger] first.spec_visited(j));
        match self.step_line() {
            Some(f) => {
                return Some(f);
            },
            None => {},
        }
        let ghost after_first = *self;
        assert(forall|j: B::Index| old(self).spec_visited(j) ==> #[trigger] after_first.spec_visited(j));
        match self.root {
            Some(root) => {
                self.root = None;
                self.previous = Some(root);
                self.direction = self.direction.reversed();
            },
            None => {
                return None;
            },
        }
        let ghost second = *self;
        assert forall|j: B::Index| old(self).spec_visited(j) implies #[trigger] second.spec_visited(j) by {
            assert(after_first.spec_visited(j));
        }
        let r = self.step_line();
        assert(forall|j: B::Index| old(self).spec_visited(j) ==> #[trigger] self.spec_visited(j));
        r
    }
}

/// What a search can start from: a board or a field of it.
pub trait Searchable<'a> {
    type Map: IndexMap<Item = ()>;
    type SearchBoard: Board<Index = <Self::Map as IndexMap>::IndexType>;

    /// A search that starts with the fields of this value.
    fn search(self) -> (r: SearchingSet<'a, Self::Map, Self::SearchBoard>)
        ensures
            r.wf(),
    ;
}

impl<'a, B: BoardToMap<()>> Searchable<'a> for &'a B {
    type Map = B::Map;
    type SearchBoard = B;

    /// An empty search over the board.
    fn search(self) -> (r: SearchingSet<'a, B::Map, B>)
        ensures
            r.spec_board() == self,
            r.spec_indices().len() == 0,
    {
        SearchingSet::new(self)
    }
}

impl<'a, B: BoardToMap<()>> Searchable<'a> for Field<'a, B> {
    type Map = B::Map;
    type SearchBoard = B;

    /// A search that starts with the field.
    fn search(self) -> (r: SearchingSet<'a, B::Map, B>)
        ensures
            r.spec_board() == self.spec_board(),
            r.spec_indices() == seq![self.spec_index()],
    {
        Field::search(self)
    }
}

/// A search that starts with the given fields, or none if there is no
/// field; the board is that of the first field.
pub fn search_from_fields<'a, B: BoardToMap<()>>(fields: Vec<Field<'a, B>>) -> (r: Option<SearchingSet<'a, B::Map, B>>)
    requires
        forall|k: int| 0 <= k < fields@.len() ==> (#[trigger] fields@[k]).spec_board() == fields@[0].spec_board(),
    ensures
        r is Some == (fields@.len() > 0),
        r matches Some(s) ==> s.wf() && s.spec_board() == fields@[0].spec_board() && (forall|k: int|
            0 <= k < fields@.len() ==> s.spec_contains(#[trigger] fields@[k].spec_index())) && (forall|j: B::Index|
            s.spec_contains(j) ==> exists|k: int| 0 <= k < fields@.len() && fields@[k].spec_index() == j),
{
    if fields.len() == 0 {
        return None;
    }
    let first = fields[0];
    let board = first.board();
    let mut set = SearchingSet::new(board);
    let mut k: usize = 0;
    while k < fields.len()
        invariant
            set.wf(),
            set.spec_board() == board,
            board == fields@[0].spec_board(),
            k <= fields@.len(),
            forall|a: int| 0 <= a < fields@.len() ==> (#[trigger] fields@[a]).spec_board() == fields@[0].spec_board(),
            forall|a: int| 0 <= a < k ==> set.spec_contains(#[trigger] fields@[a].spec_index()),
            forall|j: B::Index| set.spec_contains(j) ==> exists|a: int| 0 <= a < k && fields@[a].spec_index() == j,
        decreases fields@.len() - k,
    {
        let f = fields[k];
        proof {
            use_type_invariant(&f);
        }
        let ghost before = set;
        set.insert(f.index());
        proof {
            assert forall|j: B::Index| set.spec_contains(j) implies exists|a: int| 0 <= a < k + 1 && fields@[a].spec_index()
                == j by {
                if j != f.spec_index() {
                    assert(before.spec_contains(j));
                    let a = choose|a: int| 0 <= a < k && fields@[a].spec_index() == j;
                    assert(0 <= a < k + 1 && fields@[a].spec_index() == j);
                } else {
                    assert(fields@[k as int].spec_index() == j);
                }
            }
        }
        k += 1;
    }
    Some(set)
}

} // verus!
