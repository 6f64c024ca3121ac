use vstd::prelude::*;
use crate::board::{Board, BoardIdxType, BoardIndexable, BoardMut};
use crate::board::directions::{Offset, OffsetableIndex};
use crate::board::index_map::{BoardToMap, HashIndexMap, IndexMap};

verus! {

/// A two-dimensional board that grows as needed.  Single fields can be
/// inserted; the offset is added to all indices to find the position of a
/// field.
#[derive(Debug, Clone)]
pub struct OpenBoard<T, S> {
    columns: Vec<Vec<Option<T>>>,
    num_rows: usize,
    size: usize,
    offset_x: isize,
    offset_y: isize,
    structure: S,
}

/// The index of a field of an `OpenBoard`; it may be negative.
#[derive(Debug, Clone, Copy, PartialEq, Eq, Structural, Hash)]
pub struct OpenIndex {
    pub x: isize,
    pub y: isize,
}

impl OpenIndex {
    pub fn from_pair(pair: (isize, isize)) -> (r: Self)
        ensures
            r.x == pair.0 && r.y == pair.1,
    {
        Self { x: pair.0, y: pair.1 }
    }
}

impl From<(isize, isize)> for OpenIndex {
    fn from(pair: (isize, isize)) -> (r: Self) {
        Self { x: pair.0, y: pair.1 }
    }
}

impl vstd::std_specs::convert::FromSpecImpl<(isize, isize)> for OpenIndex {
    open spec fn obeys_from_spec() -> bool {
        true
    }

    open spec fn from_spec(pair: (isize, isize)) -> Self {
        OpenIndex { x: pair.0, y: pair.1 }
    }
}

impl BoardIdxType for OpenIndex {
    fn index_eq(&self, other: &Self) -> (r: bool) {
        self.x == other.x && self.y == other.y
    }
}

impl OffsetableIndex for OpenIndex {
    type Offset = (Offset, Offset);

    open spec fn spec_offset_fits(&self, offset: (Offset, Offset)) -> bool {
        &&& isize::MIN <= self.x + offset.0.0 <= isize::MAX
        &&& isize::MIN <= self.y + offset.1.0 <= isize::MAX
    }

    open spec fn spec_apply_offset(&self, offset: (Offset, Offset)) -> (Offset, Offset) {
        (Offset((self.x + offset.0.0) as isize), Offset((self.y + offset.1.0) as isize))
    }

    open spec fn spec_from_offset(index: (Offset, Offset)) -> Option<Self> {
        Some(OpenIndex { x: index.0.0, y: index.1.0 })
    }

    fn offset_fits(&self, offset: (Offset, Offset)) -> (r: bool) {
        let x = (self.x as i128) + (offset.0.0 as i128);
        let y = (self.y as i128) + (offset.1.0 as i128);
        isize::MIN as i128 <= x && x <= isize::MAX as i128 && isize::MIN as i128 <= y && y <= isize::MAX as i128
    }

    fn apply_offset(&self, offset: (Offset, Offset)) -> (r: (Offset, Offset))
        ensures
            r.0.0 == self.x + offset.0.0,
            r.1.0 == self.y + offset.1.0,
    {
        (Offset(self.x + offset.0.0), Offset(self.y + offset.1.0))
    }

    fn from_offset(index: (Offset, Offset)) -> (r: Option<Self>)
        ensures
            r == Some(OpenIndex { x: index.0.0, y: index.1.0 }),
    {
        Some(OpenIndex { x: index.0.0, y: index.1.0 })
    }
}

/// The position of an index in the columns, if it is not negative.
pub open spec fn open_position(index: OpenIndex, offset: (isize, isize)) -> Option<(int, int)> {
    let x = index.x + offset.0;
    let y = index.y + offset.1;
    if 0 <= x <= isize::MAX && 0 <= y <= isize::MAX {
        Some((x, y))
    } else {
        None
    }
}

/// The content at a position of the columns.
pub open spec fn column_content<T>(columns: Seq<Seq<Option<T>>>, x: int, y: int) -> Option<T> {
    if 0 <= x < columns.len() && 0 <= y < columns[x].len() {
        columns[x][y]
    } else {
        None
    }
}

impl<T, S> OpenBoard<T, S> {
    pub closed spec fn spec_columns(&self) -> Seq<Seq<Option<T>>> {
        Seq::new(self.columns@.len(), |x: int| self.columns@[x]@)
    }

    pub closed spec fn spec_num_rows(&self) -> usize {
        self.num_rows
    }

    pub closed spec fn spec_size(&self) -> usize {
        self.size
    }

    pub closed spec fn spec_offset(&self) -> (isize, isize) {
        (self.offset_x, self.offset_y)
    }

    pub closed spec fn spec_structure(&self) -> S {
        self.structure
    }

    /// The offsets are not negative and no column is longer than the
    /// number of rows.
    pub closed spec fn wf(&self) -> bool {
        &&& self.offset_x >= 0
        &&& self.offset_y >= 0
        &&& self.columns@.len() <= isize::MAX
        &&& self.num_rows <= isize::MAX
        &&& forall|x: int| 0 <= x < self.columns@.len() ==> (#[trigger] self.columns@[x])@.len() <= self.num_rows
    }

    fn calculate_index(&self, index: OpenIndex) -> (r: Option<(usize, usize)>)
        ensures
            r matches Some(p) ==> open_position(index, (self.offset_x, self.offset_y)) == Some((p.0 as int, p.1 as int)),
            r is None ==> open_position(index, (self.offset_x, self.offset_y)) is None,
    {
        match (index.x.checked_add(self.offset_x), index.y.checked_add(self.offset_y)) {
            (Some(x), Some(y)) => {
                if x >= 0 && y >= 0 {
                    Some((x as usize, y as usize))
                } else {
                    None
                }
            },
            _ => None,
        }
    }

    pub fn new(structure: S) -> (r: Self)
        ensures
            r.wf(),
            r.spec_columns().len() == 0,
            r.spec_num_rows() == 0,
            r.spec_size() == 0,
            r.spec_offset() == (0isize, 0isize),
            r.spec_structure() == structure,
    {
        Self { columns: Vec::new(), num_rows: 0, size: 0, offset_x: 0, offset_y: 0, structure }
    }

    pub fn num_cols(&self) -> (r: usize)
        ensures
            r == self.spec_columns().len(),
    {
        self.columns.len()
    }

    pub fn num_rows(&self) -> (r: usize)
        ensures
            r == self.spec_num_rows(),
    {
        self.num_rows
    }

    /// Sets the field at the index, if the index lies within the columns and
    /// rows; returns whether it does.  The size counts the fields that hold
    /// a value.
    pub fn insert(&mut self, index: OpenIndex, val: T) -> (r: bool)
        requires
            old(self).wf(),
            old(self).spec_size() < usize::MAX,
        ensures
            final(self).wf(),
            r == (open_position(index, old(self).spec_offset()) matches Some(p) && p.0 < old(self).spec_columns().len()
                && p.1 < old(self).spec_num_rows()),
            r ==> final(self).spec_get(index) == Some(val),
            final(self).spec_size() == old(self).spec_size() + (if r && old(self).spec_get(index) is None { 1int } else { 0int }),
            final(self).spec_offset() == old(self).spec_offset(),
            final(self).spec_num_rows() == old(self).spec_num_rows(),
            final(self).spec_columns().len() == old(self).spec_columns().len(),
            forall|i: OpenIndex| open_position(i, old(self).spec_offset()) != open_position(index, old(self).spec_offset())
                ==> final(self).spec_get(i) == old(self).spec_get(i),
    {
        let ghost old_cols = self.spec_columns();
        match self.calculate_index(index) {
            Some((x, y)) => {
                if y < self.num_rows && x < self.columns.len() {
                    let mut column: Vec<Option<T>> = Vec::new();
                    std::mem::swap(&mut column, &mut self.columns[x]);
                    let ghost old_column = column@;
                    while y >= column.len()
                        invariant
                            y < self.num_rows,
                            column@.len() <= self.num_rows,
                            column@.len() >= old_column.len(),
                            forall|k: int| 0 <= k < old_column.len() ==> column@[k] == old_column[k],
                            forall|k: int| old_column.len() <= k < column@.len() ==> column@[k] is None,
                        decreases self.num_rows - column@.len(),
                    {
                        column.push(None);
                    }
                    let was_empty = column[y].is_none();
                    column.set(y, Some(val));
                    self.columns.set(x, column);
                    if was_empty {
                        self.size = self.size + 1;
                    }
                    proof {
                        assert forall|i: OpenIndex| open_position(i, (self.offset_x, self.offset_y)) != open_position(index, (self.offset_x, self.offset_y))
                            implies self.spec_get(i) == old(self).spec_get(i) by {
                            match open_position(i, (self.offset_x, self.offset_y)) {
                                Some(p) => {
                                    if p.0 == x {
                                        assert(p.1 != y);
                                        assert(self.spec_columns()[p.0] == self.columns@[p.0]@);
                                        assert(old_cols[p.0] == old(self).columns@[p.0]@);
                                    } else if 0 <= p.0 < self.columns@.len() {
                                        assert(self.spec_columns()[p.0] == old_cols[p.0]);
                                    }
                                },
                                None => {},
                            }
                        }
                        assert(self.spec_columns()[x as int] == self.columns@[x as int]@);
                    }
                    true
                } else {
                    false
                }
            },
            None => false,
        }
    }

    fn insert_row(&mut self, top: bool)
        requires
            old(self).wf(),
            old(self).spec_num_rows() < isize::MAX,
            old(self).spec_offset().1 < isize::MAX,
        ensures
            final(self).wf(),
            final(self).spec_num_rows() == old(self).spec_num_rows() + 1,
            final(self).spec_columns().len() == old(self).spec_columns().len(),
            final(self).spec_offset().0 == old(self).spec_offset().0,
            final(self).spec_offset().1 == old(self).spec_offset().1 + (if top { 0int } else { 1int }),
            final(self).spec_size() == old(self).spec_size(),
            forall|i: OpenIndex| #[trigger] final(self).spec_get(i) == old(self).spec_get(i),
    {
        self.num_rows = self.num_rows + 1;
        if !top {
            self.offset_y = self.offset_y + 1;
            let n = self.columns.len();
            let ghost old_cols = old(self).spec_columns();
            let mut x: usize = 0;
            while x < n
                invariant
                    n == self.columns@.len(),
                    x <= n,
                    self.num_rows == old(self).num_rows + 1,
                    self.offset_x == old(self).offset_x,
                    self.offset_y == old(self).offset_y + 1,
                    self.size == old(self).size,
                    self.structure == old(self).structure,
                    old(self).wf(),
                    forall|c: int| 0 <= c < x ==> (#[trigger] self.columns@[c])@ == seq![None::<T>] + old_cols[c],
                    forall|c: int| x <= c < n ==> (#[trigger] self.columns@[c])@ == old_cols[c],
                    forall|c: int| 0 <= c < n ==> old_cols[c] == old(self).columns@[c]@,
                    forall|c: int| 0 <= c < n ==> (#[trigger] old(self).columns@[c])@.len() <= old(self).num_rows,
                decreases n - x,
            {
                let mut column: Vec<Option<T>> = Vec::new();
                std::mem::swap(&mut column, &mut self.columns[x]);
                let ghost before = column@;
                column.insert(0, None);
                assert(column@ =~= seq![None::<T>] + before);
                self.columns.set(x, column);
                x += 1;
            }
            proof {
                assert forall|i: OpenIndex| #[trigger] self.spec_get(i) == old(self).spec_get(i) by {
                    match open_position(i, (old(self).offset_x, old(self).offset_y)) {
                        Some(p) => {
                            if 0 <= p.0 < n {
                                assert(self.spec_columns()[p.0] == seq![None::<T>] + old_cols[p.0]);
                                if p.1 < old_cols[p.0].len() {
                                    assert(self.spec_columns()[p.0][p.1 + 1] == old_cols[p.0][p.1]);
                                }
                            }
                        },
                        None => {
                            match open_position(i, (self.offset_x, self.offset_y)) {
                                Some(q) => {
                                    if 0 <= q.0 < n {
                                        assert(self.spec_columns()[q.0] == seq![None::<T>] + old_cols[q.0]);
                                        assert(q.1 == 0);
                                    }
                                },
                                None => {},
                            }
                        },
                    }
                }
            }
        } else {
            proof {
                assert(self.spec_columns() =~= old(self).spec_columns());
            }
        }
    }

    fn insert_column(&mut self, right: bool)
        requires
            old(self).wf(),
            old(self).spec_offset().0 < isize::MAX,
            old(self).spec_columns().len() < isize::MAX,
        ensures
            final(self).wf(),
            final(self).spec_num_rows() == old(self).spec_num_rows(),
            final(self).spec_columns().len() == old(self).spec_columns().len() + 1,
            final(self).spec_offset().0 == old(self).spec_offset().0 + (if right { 0int } else { 1int }),
            final(self).spec_offset().1 == old(self).spec_offset().1,
            final(self).spec_size() == old(self).spec_size(),
            forall|i: OpenIndex| #[trigger] final(self).spec_get(i) == old(self).spec_get(i),
    {
        let ghost old_cols = old(self).spec_columns();
        if !right {
            self.offset_x = self.offset_x + 1;
            self.columns.insert(0, Vec::new());
            proof {
                assert forall|i: OpenIndex| #[trigger] self.spec_get(i) == old(self).spec_get(i) by {
                    match open_position(i, (old(self).offset_x, old(self).offset_y)) {
                        Some(p) => {
                            if 0 <= p.0 < old_cols.len() {
                                assert(self.spec_columns()[p.0 + 1] == old_cols[p.0]);
                            }
                        },
                        None => {
                            match open_position(i, (self.offset_x, self.offset_y)) {
                                Some(q) => {
                                    assert(q.0 == 0);
                                    assert(self.spec_columns()[0].len() == 0);
                                },
                                None => {},
                            }
                        },
                    }
                }
            }
        } else {
            self.columns.push(Vec::new());
            proof {
                assert forall|i: OpenIndex| #[trigger] self.spec_get(i) == old(self).spec_get(i) by {
                    match open_position(i, (self.offset_x, self.offset_y)) {
                        Some(p) => {
                            if 0 <= p.0 < old_cols.len() {
                                assert(self.spec_columns()[p.0] == old_cols[p.0]);
                            }
                        },
                        None => {},
                    }
                }
            }
        }
    }

    /// Adds columns and rows until the index lies within them.
    #[verifier::loop_isolation(false)]
    fn extend_to_index(&mut self, index: OpenIndex)
        requires
            old(self).wf(),
            index.x > isize::MIN + 2,
            index.y > isize::MIN + 2,
            old(self).spec_columns().len() - index.x < isize::MAX - 1,
            old(self).spec_num_rows() - index.y < isize::MAX - 1,
            old(self).spec_columns().len() < isize::MAX,
            old(self).spec_num_rows() < isize::MAX,
            index.x + old(self).spec_offset().0 < isize::MAX - 1,
            index.y + old(self).spec_offset().1 < isize::MAX - 1,
            old(self).spec_offset().0 < isize::MAX - 1,
            old(self).spec_offset().1 < isize::MAX - 1,
            old(self).spec_columns().len() + index.x + old(self).spec_offset().0 < isize::MAX - 1,
            old(self).spec_num_rows() + index.y + old(self).spec_offset().1 < isize::MAX - 1,
        ensures
            final(self).wf(),
            final(self).spec_size() == old(self).spec_size(),
            forall|i: OpenIndex| #[trigger] final(self).spec_get(i) == old(self).spec_get(i),
            open_position(index, final(self).spec_offset()) matches Some(p) && p.0 < final(self).spec_columns().len()
                && p.1 < final(self).spec_num_rows(),
            final(self).spec_offset().0 == (if -index.x > old(self).spec_offset().0 { -index.x } else { old(self).spec_offset().0 as int }),
            final(self).spec_offset().1 == (if -index.y > old(self).spec_offset().1 { -index.y } else { old(self).spec_offset().1 as int }),
            final(self).spec_columns().len() - final(self).spec_offset().0 == (if index.x + 1 > old(self).spec_columns().len()
                - old(self).spec_offset().0 { index.x + 1 } else { old(self).spec_columns().len() - old(self).spec_offset().0 }),
            final(self).spec_num_rows() - final(self).spec_offset().1 == (if index.y + 1 > old(self).spec_num_rows()
                - old(self).spec_offset().1 { index.y + 1 } else { old(self).spec_num_rows() - old(self).spec_offset().1 }),
    {
        let left: i128 = if (index.x as i128) < -(self.offset_x as i128) {
            -(index.x as i128) - (self.offset_x as i128)
        } else {
            0
        };
        let mut k: i128 = 0;
        while k < left
            invariant
                self.wf(),
                0 <= k <= left,
                left == (if index.x < -old(self).offset_x { -index.x - old(self).offset_x } else { 0int }),
                self.spec_size() == old(self).spec_size(),
                forall|i: OpenIndex| #[trigger] self.spec_get(i) == old(self).spec_get(i),
                self.offset_x == old(self).offset_x + k,
                self.offset_y == old(self).offset_y,
                self.columns@.len() == old(self).columns@.len() + k,
                self.num_rows == old(self).num_rows,
            decreases left - k,
        {
            self.insert_column(false);
            k = k + 1;
        }
        let right: i128 = (index.x as i128) + (self.offset_x as i128) + 1 - (self.columns.len() as i128);
        let mut k: i128 = 0;
        while k < right
            invariant
                self.wf(),
                0 <= k,
                k <= right || right < 0,
                right < 0 ==> k == 0,
                right == index.x + self.offset_x + 1 - (self.columns@.len() - k),
                index.x + self.offset_x >= 0,
                self.offset_x < isize::MAX - 1,
                self.spec_size() == old(self).spec_size(),
                forall|i: OpenIndex| #[trigger] self.spec_get(i) == old(self).spec_get(i),
                self.offset_x == old(self).offset_x + left,
                self.offset_y == old(self).offset_y,
                self.columns@.len() == old(self).columns@.len() + left + k,
                self.num_rows == old(self).num_rows,
            decreases right - k,
        {
            self.insert_column(true);
            k = k + 1;
        }
        let down: i128 = if (index.y as i128) < -(self.offset_y as i128) {
            -(index.y as i128) - (self.offset_y as i128)
        } else {
            0
        };
        let ghost cols = self.columns@.len();
        let ghost ox = self.offset_x;
        let mut k: i128 = 0;
        while k < down
            invariant
                self.wf(),
                0 <= k <= down,
                down == (if index.y < -old(self).offset_y { -index.y - old(self).offset_y } else { 0int }),
                self.spec_size() == old(self).spec_size(),
                forall|i: OpenIndex| #[trigger] self.spec_get(i) == old(self).spec_get(i),
                self.offset_x == ox,
                self.columns@.len() == cols,
                0 <= index.x + ox < cols,
                self.offset_y == old(self).offset_y + k,
                self.num_rows == old(self).num_rows + k,
            decreases down - k,
        {
            self.insert_row(false);
            k = k + 1;
        }
        let up: i128 = (index.y as i128) + (self.offset_y as i128) + 1 - (self.num_rows as i128);
        let mut k: i128 = 0;
        while k < up
            invariant
                self.wf(),
                0 <= k,
                k <= up || up < 0,
                up < 0 ==> k == 0,
                up == index.y + self.offset_y + 1 - (self.num_rows - k),
                index.y + self.offset_y >= 0,
                self.offset_y < isize::MAX - 1,
                self.spec_size() == old(self).spec_size(),
                forall|i: OpenIndex| #[trigger] self.spec_get(i) == old(self).spec_get(i),
                self.offset_x == ox,
                self.columns@.len() == cols,
                0 <= index.x + ox < cols,
                self.offset_y == old(self).offset_y + down,
                self.num_rows == old(self).num_rows + down + k,
            decreases up - k,
        {
            self.insert_row(true);
            k = k + 1;
        }
    }

    /// Adds columns and rows as needed and sets the field at the index.
    pub fn extend_and_insert(&mut self, index: OpenIndex, val: T)
        requires
            old(self).wf(),
            old(self).spec_size() < usize::MAX,
            index.x > isize::MIN + 2,
            index.y > isize::MIN + 2,
            old(self).spec_columns().len() - index.x < isize::MAX - 1,
            old(self).spec_num_rows() - index.y < isize::MAX - 1,
            old(self).spec_columns().len() < isize::MAX,
            old(self).spec_num_rows() < isize::MAX,
            index.x + old(self).spec_offset().0 < isize::MAX - 1,
            index.y + old(self).spec_offset().1 < isize::MAX - 1,
            old(self).spec_offset().0 < isize::MAX - 1,
            old(self).spec_offset().1 < isize::MAX - 1,
            old(self).spec_columns().len() + index.x + old(self).spec_offset().0 < isize::MAX - 1,
            old(self).spec_num_rows() + index.y + old(self).spec_offset().1 < isize::MAX - 1,
        ensures
            final(self).wf(),
            final(self).spec_get(index) == Some(val),
            final(self).spec_size() == old(self).spec_size() + if old(self).spec_get(index) is None { 1int } else { 0 },
            final(self).spec_offset().0 == (if -index.x > old(self).spec_offset().0 { -index.x } else { old(self).spec_offset().0 as int }),
            final(self).spec_offset().1 == (if -index.y > old(self).spec_offset().1 { -index.y } else { old(self).spec_offset().1 as int }),
            final(self).spec_columns().len() - final(self).spec_offset().0 == (if index.x + 1 > old(self).spec_columns().len()
                - old(self).spec_offset().0 { index.x + 1 } else { old(self).spec_columns().len() - old(self).spec_offset().0 }),
            final(self).spec_num_rows() - final(self).spec_offset().1 == (if index.y + 1 > old(self).spec_num_rows()
                - old(self).spec_offset().1 { index.y + 1 } else { old(self).spec_num_rows() - old(self).spec_offset().1 }),

            forall|i: OpenIndex| i != index ==> #[trigger] final(self).spec_get(i) == old(self).spec_get(i),
    {
        self.extend_to_index(index);
        let ghost mid = *self;
        let inserted = self.insert(index, val);
        proof {
            assert(inserted);
            assert forall|i: OpenIndex| i != index implies #[trigger] self.spec_get(i) == old(self).spec_get(i) by {
                assert(mid.spec_get(i) == old(self).spec_get(i));
                if open_position(i, (mid.offset_x, mid.offset_y)) == open_position(index, (mid.offset_x, mid.offset_y)) {
                    assert(i.x == index.x && i.y == index.y);
                }
            }
        }
    }
}

impl<T, S> BoardIndexable for OpenBoard<T, S> {
    type Index = OpenIndex;

    /// The indices of all positions, column by column.
    open spec fn spec_all_indices(&self) -> Seq<OpenIndex> {
        open_indices(self.spec_columns().len(), self.spec_num_rows() as nat, self.spec_offset())
    }

    fn all_indices(&self) -> (r: Vec<OpenIndex>) {
        let mut r: Vec<OpenIndex> = Vec::new();
        let cols = self.columns.len();
        let mut x: usize = 0;
        while x < cols
            invariant
                x <= cols,
                cols == self.columns@.len(),
                r@ == open_indices(x as nat, self.num_rows as nat, (self.offset_x, self.offset_y)),
            decreases cols - x,
        {
            let ghost before = r@;
            let mut y: usize = 0;
            while y < self.num_rows
                invariant
                    x < cols,
                    y <= self.num_rows,
                    r@ == before + open_column(x as int, y as nat, (self.offset_x, self.offset_y)),
                decreases self.num_rows - y,
            {
                let ix = (x as i128) - (self.offset_x as i128);
                let iy = (y as i128) - (self.offset_y as i128);
                if isize::MIN as i128 <= ix && ix <= isize::MAX as i128 && isize::MIN as i128 <= iy && iy <= isize::MAX as i128 {
                    r.push(OpenIndex { x: ix as isize, y: iy as isize });
                } else {
                    r.push(OpenIndex { x: 0, y: 0 });
                }
                y += 1;
                assert(r@ =~= before + open_column(x as int, y as nat, (self.offset_x, self.offset_y)));
            }
            x += 1;
        }
        assert(self.spec_columns().len() == cols);
        r
    }
}

/// The index of the position `(x, y)` of the columns; the origin where it
/// does not fit in an index.
pub open spec fn open_index_at(x: int, y: int, offset: (isize, isize)) -> OpenIndex {
    let ix = x - offset.0;
    let iy = y - offset.1;
    if isize::MIN <= ix <= isize::MAX && isize::MIN <= iy <= isize::MAX {
        OpenIndex { x: ix as isize, y: iy as isize }
    } else {
        OpenIndex { x: 0, y: 0 }
    }
}

/// The indices of column `x` in the first `rows` rows.
pub open spec fn open_column(x: int, rows: nat, offset: (isize, isize)) -> Seq<OpenIndex> {
    Seq::new(rows, |y: int| open_index_at(x, y, offset))
}

/// The indices of the first `cols` columns, column by column.
pub open spec fn open_indices(cols: nat, rows: nat, offset: (isize, isize)) -> Seq<OpenIndex>
    decreases cols,
{
    if cols == 0 {
        Seq::empty()
    } else {
        open_indices((cols - 1) as nat, rows, offset) + open_column(cols - 1, rows, offset)
    }
}

impl<T, S> Board for OpenBoard<T, S> {
    type Content = T;
    type Structure = S;

    open spec fn spec_get(&self, index: OpenIndex) -> Option<T> {
        match open_position(index, self.spec_offset()) {
            Some(p) => column_content(self.spec_columns(), p.0, p.1),
            None => None,
        }
    }

    /// The number of fields that hold a value.
    open spec fn spec_board_size(&self) -> nat {
        self.spec_size() as nat
    }

    fn size(&self) -> (r: usize) {
        self.size
    }

    open spec fn spec_board_structure(&self) -> S {
        self.spec_structure()
    }

    fn structure(&self) -> (r: &S) {
        &self.structure
    }

    fn contains(&self, index: OpenIndex) -> (r: bool) {
        self.get(index).is_some()
    }

    fn get(&self, index: OpenIndex) -> (r: Option<&T>) {
        match (index.x.checked_add(self.offset_x), index.y.checked_add(self.offset_y)) {
            (Some(x), Some(y)) => {
                if x >= 0 && y >= 0 && (x as usize) < self.columns.len() {
                    let column = &self.columns[x as usize];
                    assert(self.spec_columns()[x as int] == column@);
                    if (y as usize) < column.len() {
                        match &column[y as usize] {
                            Some(v) => Some(v),
                            None => None,
                        }
                    } else {
                        None
                    }
                } else {
                    None
                }
            },
            _ => None,
        }
    }
}

impl<T, S, E> BoardToMap<E> for OpenBoard<T, S> {
    type Map = HashIndexMap<OpenIndex, E>;

    fn get_index_map(&self) -> (r: HashIndexMap<OpenIndex, E>) {
        HashIndexMap::new()
    }
}

} // verus!
