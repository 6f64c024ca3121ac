use vstd::prelude::*;
use crate::board::{Board, BoardIdxType, BoardIndexable, BoardMut, ContiguousBoard};
use crate::board::directions::{Offset, OffsetableIndex};
use crate::board::index_map::{BoardToMap, HashIndexMap, IndexMap};

verus! {

/// A one-dimensional board.
#[derive(Debug, Clone)]
pub struct VecBoard<T, S> {
    content: Vec<T>,
    structure: S,
}

/// The index of a field of a `VecBoard`.
#[derive(Debug, Clone, Copy, PartialEq, Eq, Structural, PartialOrd, Ord, Hash)]
pub struct Index1D {
    pub val: usize,
}

impl Index1D {
    pub fn from_usize(val: usize) -> (r: Self)
        ensures
            r.val == val,
    {
        Self { val }
    }
}

impl From<usize> for Index1D {
    fn from(val: usize) -> (r: Self) {
        Self { val }
    }
}

impl vstd::std_specs::convert::FromSpecImpl<usize> for Index1D {
    open spec fn obeys_from_spec() -> bool {
        true
    }

    open spec fn from_spec(val: usize) -> Self {
        Index1D { val }
    }
}

impl BoardIdxType for Index1D {
    fn index_eq(&self, other: &Self) -> (r: bool) {
        self.val == other.val
    }
}

impl OffsetableIndex for Index1D {
    type Offset = Offset;

    open spec fn spec_offset_fits(&self, offset: Offset) -> bool {
        isize::MIN <= self.val + offset.0 <= isize::MAX
    }

    open spec fn spec_apply_offset(&self, offset: Offset) -> Offset {
        Offset((self.val + offset.0) as isize)
    }

    open spec fn spec_from_offset(index: Offset) -> Option<Self> {
        if index.0 >= 0 {
            Some(Index1D { val: index.0 as usize })
        } else {
            None
        }
    }

    fn offset_fits(&self, offset: Offset) -> (r: bool) {
        let sum = (self.val as i128) + (offset.0 as i128);
        isize::MIN as i128 <= sum && sum <= isize::MAX as i128
    }

    fn apply_offset(&self, offset: Offset) -> (r: Offset)
        ensures
            r.0 == self.val + offset.0,
    {
        Offset(((self.val as i128) + (offset.0 as i128)) as isize)
    }

    fn from_offset(index: Offset) -> (r: Option<Self>)
        ensures
            index.0 >= 0 ==> r == Some(Index1D { val: index.0 as usize }),
            index.0 < 0 ==> r is None,
    {
        if index.0 >= 0 {
            Some(Index1D { val: index.0 as usize })
        } else {
            None
        }
    }
}

impl<T, S> VecBoard<T, S> {
    pub closed spec fn spec_content(&self) -> Seq<T> {
        self.content@
    }

    pub closed spec fn spec_structure(&self) -> S {
        self.structure
    }

    /// A board with `count` fields that hold copies of `val`.
    pub fn from_value(count: usize, val: T, structure: S) -> (r: Self)
        where
            T: Clone,
        ensures
            r.spec_content().len() == count,
            forall|k: int| 0 <= k < count ==> vstd::pervasive::cloned(val, #[trigger] r.spec_content()[k]),
            r.spec_structure() == structure,
    {
        let mut content: Vec<T> = Vec::new();
        let mut k: usize = 0;
        while k < count
            invariant
                k <= count,
                content@.len() == k,
                forall|a: int| 0 <= a < k ==> vstd::pervasive::cloned(val, #[trigger] content@[a]),
            decreases count - k,
        {
            content.push(val.clone());
            k += 1;
        }
        Self { content, structure }
    }

    /// A board with `count` fields that hold the default content.
    pub fn with_default(count: usize, structure: S) -> (r: Self)
        where
            T: Default,
        ensures
            r.spec_content().len() == count,
            r.spec_structure() == structure,
    {
        let mut content: Vec<T> = Vec::new();
        let mut k: usize = 0;
        while k < count
            invariant
                k <= count,
                content@.len() == k,
            decreases count - k,
        {
            content.push(T::default());
            k += 1;
        }
        Self { content, structure }
    }
}

impl<T, S> BoardIndexable for VecBoard<T, S> {
    type Index = Index1D;

    /// The indices from the first field to the last.
    open spec fn spec_all_indices(&self) -> Seq<Index1D> {
        Seq::new(self.spec_content().len(), |k: int| Index1D { val: k as usize })
    }

    fn all_indices(&self) -> (r: Vec<Index1D>) {
        let mut r: Vec<Index1D> = Vec::new();
        let mut k: usize = 0;
        while k < self.content.len()
            invariant
                k <= self.content@.len(),
                r@.len() == k,
                forall|a: int| 0 <= a < k ==> (#[trigger] r@[a]).val == a,
            decreases self.content@.len() - k,
        {
            r.push(Index1D { val: k });
            k += 1;
        }
        assert(r@ =~= self.spec_all_indices());
        r
    }
}

impl<T, S> Board for VecBoard<T, S> {
    type Content = T;
    type Structure = S;

    open spec fn spec_get(&self, index: Index1D) -> Option<T> {
        if index.val < self.spec_content().len() {
            Some(self.spec_content()[index.val as int])
        } else {
            None
        }
    }

    /// The number of fields.
    open spec fn spec_board_size(&self) -> nat {
        self.spec_content().len()
    }

    fn size(&self) -> (r: usize) {
        self.content.len()
    }

    open spec fn spec_board_structure(&self) -> S {
        self.spec_structure()
    }

    fn structure(&self) -> (r: &S) {
        &self.structure
    }

    fn contains(&self, index: Index1D) -> (r: bool) {
        index.val < self.content.len()
    }

    fn get(&self, index: Index1D) -> (r: Option<&T>) {
        if index.val < self.content.len() {
            Some(&self.content[index.val])
        } else {
            None
        }
    }
}

impl<T, S> BoardMut for VecBoard<T, S> {
    fn set(&mut self, index: Index1D, content: T) -> (r: bool)
        ensures
            forall|i: Index1D| i != index ==> final(self).spec_get(i) == old(self).spec_get(i),
    {
        if index.val < self.content.len() {
            self.content.set(index.val, content);
            true
        } else {
            false
        }
    }
}

/// The remainder of `x` divided by `n`, between 0 and `n`.
pub fn wrap_offset(x: isize, n: usize) -> (r: usize)
    requires
        0 < n <= isize::MAX,
    ensures
        r == (x as int) % (n as int),
{
    match x.checked_rem_euclid(n as isize) {
        Some(m) => m as usize,
        None => vstd::pervasive::unreached(),
    }
}

impl<T, S> ContiguousBoard for VecBoard<T, S> {
    type Offset = Offset;

    open spec fn spec_nonempty(&self) -> bool {
        0 < self.spec_content().len() <= isize::MAX
    }

    fn is_nonempty(&self) -> (r: bool) {
        0 < self.content.len() && self.content.len() <= isize::MAX as usize
    }

    /// The index past the last field.
    open spec fn spec_bound(&self) -> Index1D {
        Index1D { val: self.spec_content().len() as usize }
    }

    fn bound(&self) -> (r: Index1D) {
        Index1D { val: self.content.len() }
    }

    open spec fn spec_wrapped(&self, index: Offset) -> Index1D {
        Index1D { val: ((index.0 as int) % (self.spec_content().len() as int)) as usize }
    }

    fn wrapped(&self, index: Offset) -> (r: Index1D)
        ensures
            r.val == (index.0 as int) % (self.spec_content().len() as int),
            r.val < self.spec_content().len(),
    {
        Index1D { val: wrap_offset(index.0, self.content.len()) }
    }
}

impl<T, S, E> BoardToMap<E> for VecBoard<T, S> {
    type Map = HashIndexMap<Index1D, E>;

    fn get_index_map(&self) -> (r: HashIndexMap<Index1D, E>) {
        HashIndexMap::new()
    }
}

} // verus!
