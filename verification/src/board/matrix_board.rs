use vstd::prelude::*;
use crate::board::{Board, BoardIdxType, BoardIndexable, BoardMut, ContiguousBoard};
use crate::board::directions::{Offset, OffsetableIndex};
use crate::board::index_map::{BoardToMap, HashIndexMap, IndexMap};
use crate::board::vec_board::wrap_offset;

verus! {

/// A two-dimensional board.  The fields are stored in one vector; the
/// field at `(x, y)` is stored at position `y * num_cols + x`.
#[derive(Debug, Clone)]
pub struct MatrixBoard<T, S> {
    content: Vec<T>,
    num_cols: usize,
    num_rows: usize,
    structure: S,
}

/// The index of a field of a `MatrixBoard`: column and row.
#[derive(Debug, Clone, Copy, PartialEq, Eq, Structural, Hash)]
pub struct Index2D {
    pub x: usize,
    pub y: usize,
}

impl Index2D {
    pub fn from_pair(pair: (usize, usize)) -> (r: Self)
        ensures
            r.x == pair.0 && r.y == pair.1,
    {
        Self { x: pair.0, y: pair.1 }
    }
}

impl From<(usize, usize)> for Index2D {
    fn from(pair: (usize, usize)) -> (r: Self) {
        Self { x: pair.0, y: pair.1 }
    }
}

impl vstd::std_specs::convert::FromSpecImpl<(usize, usize)> for Index2D {
    open spec fn obeys_from_spec() -> bool {
        true
    }

    open spec fn from_spec(pair: (usize, usize)) -> Self {
        Index2D { x: pair.0, y: pair.1 }
    }
}

impl BoardIdxType for Index2D {
    fn index_eq(&self, other: &Self) -> (r: bool) {
        self.x == other.x && self.y == other.y
    }
}

impl OffsetableIndex for Index2D {
    type Offset = (Offset, Offset);

    open spec fn spec_offset_fits(&self, offset: (Offset, Offset)) -> bool {
        &&& isize::MIN <= self.x + offset.0.0 <= isize::MAX
        &&& isize::MIN <= self.y + offset.1.0 <= isize::MAX
    }

    open spec fn spec_apply_offset(&self, offset: (Offset, Offset)) -> (Offset, Offset) {
        (Offset((self.x + offset.0.0) as isize), Offset((self.y + offset.1.0) as isize))
    }

    open spec fn spec_from_offset(index: (Offset, Offset)) -> Option<Self> {
        if index.0.0 >= 0 && index.1.0 >= 0 {
            Some(Index2D { x: index.0.0 as usize, y: index.1.0 as usize })
        } else {
            None
        }
    }

    fn offset_fits(&self, offset: (Offset, Offset)) -> (r: bool) {
        let x = (self.x as i128) + (offset.0.0 as i128);
        let y = (self.y as i128) + (offset.1.0 as i128);
        isize::MIN as i128 <= x && x <= isize::MAX as i128 && isize::MIN as i128 <= y && y <= isize::MAX as i128
    }

    fn apply_offset(&self, offset: (Offset, Offset)) -> (r: (Offset, Offset))
        ensures
            r.0.0 == self.x + offset.0.0,
            r.1.0 == self.y + offset.1.0,
    {
        (
            Offset(((self.x as i128) + (offset.0.0 as i128)) as isize),
            Offset(((self.y as i128) + (offset.1.0 as i128)) as isize),
        )
    }

    fn from_offset(index: (Offset, Offset)) -> (r: Option<Self>)
        ensures
            index.0.0 >= 0 && index.1.0 >= 0 ==> r == Some(Index2D { x: index.0.0 as usize, y: index.1.0 as usize }),
            index.0.0 < 0 || index.1.0 < 0 ==> r is None,
    {
        if index.0.0 >= 0 && index.1.0 >= 0 {
            Some(Index2D { x: index.0.0 as usize, y: index.1.0 as usize })
        } else {
            None
        }
    }
}

/// The position at which a field is stored, if the index lies within the
/// columns and rows.
pub open spec fn matrix_position(index: Index2D, num_cols: int, num_rows: int) -> Option<int> {
    if index.x < num_cols && index.y < num_rows {
        Some(index.y * num_cols + index.x)
    } else {
        None
    }
}

impl<T, S> MatrixBoard<T, S> {
    pub closed spec fn spec_content(&self) -> Seq<T> {
        self.content@
    }

    pub closed spec fn spec_num_cols(&self) -> usize {
        self.num_cols
    }

    pub closed spec fn spec_num_rows(&self) -> usize {
        self.num_rows
    }

    pub closed spec fn spec_structure(&self) -> S {
        self.structure
    }

    fn calculate_index(&self, index: Index2D) -> (r: Option<usize>)
        ensures
            r matches Some(p) ==> matrix_position(index, self.num_cols as int, self.num_rows as int) == Some(p as int),
            r is None ==> matrix_position(index, self.num_cols as int, self.num_rows as int) is None
                || matrix_position(index, self.num_cols as int, self.num_rows as int)->Some_0 > usize::MAX,
    {
        if index.x < self.num_cols && index.y < self.num_rows {
            match index.y.checked_mul(self.num_cols) {
                Some(p) => p.checked_add(index.x),
                None => None,
            }
        } else {
            None
        }
    }

    pub fn num_cols(&self) -> (r: usize)
        ensures
            r == self.spec_num_cols(),
    {
        self.num_cols
    }

    pub fn num_rows(&self) -> (r: usize)
        ensures
            r == self.spec_num_rows(),
    {
        self.num_rows
    }

    /// A board of `num_cols` columns and `num_rows` rows whose fields hold
    /// copies of `val`.
    pub fn from_value(num_cols: usize, num_rows: usize, val: T, structure: S) -> (r: Self)
        where
            T: Clone,
        requires
            num_cols * num_rows <= usize::MAX,
        ensures
            r.spec_num_cols() == num_cols,
            r.spec_num_rows() == num_rows,
            r.spec_content().len() == num_cols * num_rows,
            forall|k: int| 0 <= k < num_cols * num_rows ==> vstd::pervasive::cloned(val, #[trigger] r.spec_content()[k]),
            r.spec_structure() == structure,
    {
        let count = num_cols * num_rows;
        let mut content: Vec<T> = Vec::new();
        let mut k: usize = 0;
        while k < count
            invariant
                k <= count,
                content@.len() == k,
                forall|a: int| 0 <= a < k ==> vstd::pervasive::cloned(val, #[trigger] content@[a]),
            decreases count - k,
        {
            content.push(val.clone());
            k += 1;
        }
        Self { content, num_cols, num_rows, structure }
    }

    /// A board of `num_cols` columns and `num_rows` rows whose fields hold
    /// the default content.
    pub fn with_default(num_cols: usize, num_rows: usize, structure: S) -> (r: Self)
        where
            T: Default,
        requires
            num_cols * num_rows <= usize::MAX,
        ensures
            r.spec_num_cols() == num_cols,
            r.spec_num_rows() == num_rows,
            r.spec_content().len() == num_cols * num_rows,
            r.spec_structure() == structure,
            forall|k: int| 0 <= k < r.spec_content().len() ==> call_ensures(T::default, (), #[trigger] r.spec_content()[k]),
    {
        let count = num_cols * num_rows;
        let mut content: Vec<T> = Vec::new();
        let mut k: usize = 0;
        while k < count
            invariant
                k <= count,
                content@.len() == k,
                forall|a: int| 0 <= a < k ==> call_ensures(T::default, (), #[trigger] content@[a]),
            decreases count - k,
        {
            content.push(T::default());
            k += 1;
        }
        Self { content, num_cols, num_rows, structure }
    }
}

impl<T, S> BoardIndexable for MatrixBoard<T, S> {
    type Index = Index2D;

    /// The indices column by column.
    open spec fn spec_all_indices(&self) -> Seq<Index2D> {
        matrix_indices(self.spec_num_cols() as nat, self.spec_num_rows() as nat)
    }

    fn all_indices(&self) -> (r: Vec<Index2D>) {
        let mut r: Vec<Index2D> = Vec::new();
        let mut x: usize = 0;
        while x < self.num_cols
            invariant
                x <= self.num_cols,
                r@ == matrix_indices(x as nat, self.num_rows as nat),
            decreases self.num_cols - x,
        {
            let ghost before = r@;
            let mut y: usize = 0;
            while y < self.num_rows
                invariant
                    x < self.num_cols,
                    y <= self.num_rows,
                    r@ == before + matrix_column(x as nat, y as nat),
                decreases self.num_rows - y,
            {
                r.push(Index2D { x, y });
                y += 1;
                assert(r@ =~= before + matrix_column(x as nat, y as nat));
            }
            x += 1;
        }
        r
    }
}

/// The indices of column `x` in the first `rows` rows.
pub open spec fn matrix_column(x: nat, rows: nat) -> Seq<Index2D> {
    Seq::new(rows, |y: int| Index2D { x: x as usize, y: y as usize })
}

/// The indices of the first `cols` columns, column by column.
pub open spec fn matrix_indices(cols: nat, rows: nat) -> Seq<Index2D>
    decreases cols,
{
    if cols == 0 {
        Seq::empty()
    } else {
        matrix_indices((cols - 1) as nat, rows) + matrix_column((cols - 1) as nat, rows)
    }
}

impl<T, S> Board for MatrixBoard<T, S> {
    type Content = T;
    type Structure = S;

    open spec fn spec_get(&self, index: Index2D) -> Option<T> {
        match matrix_position(index, self.spec_num_cols() as int, self.spec_num_rows() as int) {
            Some(p) => if 0 <= p < self.spec_content().len() {
                Some(self.spec_content()[p])
            } else {
                None
            },
            None => None,
        }
    }

    /// The number of fields.
    open spec fn spec_board_size(&self) -> nat {
        self.spec_content().len()
    }

    fn size(&self) -> (r: usize) {
        self.content.len()
    }

    open spec fn spec_board_structure(&self) -> S {
        self.spec_structure()
    }

    fn structure(&self) -> (r: &S) {
        &self.structure
    }

    fn contains(&self, index: Index2D) -> (r: bool) {
        let len = self.content.len();
        match self.calculate_index(index) {
            Some(p) => p < self.content.len(),
            None => false,
        }
    }

    fn get(&self, index: Index2D) -> (r: Option<&T>) {
        let len = self.content.len();
        match self.calculate_index(index) {
            Some(p) => {
                if p < self.content.len() {
                    Some(&self.content[p])
                } else {
                    None
                }
            },
            None => None,
        }
    }
}

impl<T, S> BoardMut for MatrixBoard<T, S> {
    fn set(&mut self, index: Index2D, content: T) -> (r: bool)
        ensures
            final(self).spec_num_cols() == old(self).spec_num_cols(),
            final(self).spec_num_rows() == old(self).spec_num_rows(),
            forall|i: Index2D| matrix_position(i, old(self).spec_num_cols() as int, old(self).spec_num_rows() as int)
                != matrix_position(index, old(self).spec_num_cols() as int, old(self).spec_num_rows() as int)
                ==> final(self).spec_get(i) == old(self).spec_get(i),
    {
        let len = self.content.len();
        match self.calculate_index(index) {
            Some(p) => {
                if p < self.content.len() {
                    self.content.set(p, content);
                    true
                } else {
                    false
                }
            },
            None => false,
        }
    }
}

impl<T, S> ContiguousBoard for MatrixBoard<T, S> {
    type Offset = (Offset, Offset);

    open spec fn spec_nonempty(&self) -> bool {
        &&& 0 < self.spec_num_cols() <= isize::MAX
        &&& 0 < self.spec_num_rows() <= isize::MAX
    }

    fn is_nonempty(&self) -> (r: bool) {
        0 < self.num_cols && self.num_cols <= isize::MAX as usize && 0 < self.num_rows && self.num_rows
            <= isize::MAX as usize
    }

    /// The number of columns and rows.
    open spec fn spec_bound(&self) -> Index2D {
        Index2D { x: self.spec_num_cols(), y: self.spec_num_rows() }
    }

    fn bound(&self) -> (r: Index2D) {
        Index2D { x: self.num_cols, y: self.num_rows }
    }

    open spec fn spec_wrapped(&self, index: (Offset, Offset)) -> Index2D {
        Index2D {
            x: ((index.0.0 as int) % (self.spec_num_cols() as int)) as usize,
            y: ((index.1.0 as int) % (self.spec_num_rows() as int)) as usize,
        }
    }

    fn wrapped(&self, index: (Offset, Offset)) -> (r: Index2D)
        ensures
            r.x == (index.0.0 as int) % (self.spec_num_cols() as int),
            r.y == (index.1.0 as int) % (self.spec_num_rows() as int),
    {
        Index2D { x: wrap_offset(index.0.0, self.num_cols), y: wrap_offset(index.1.0, self.num_rows) }
    }
}

impl<T, S, E> BoardToMap<E> for MatrixBoard<T, S> {
    type Map = HashIndexMap<Index2D, E>;

    fn get_index_map(&self) -> (r: HashIndexMap<Index2D, E>) {
        HashIndexMap::new()
    }
}

} // verus!
