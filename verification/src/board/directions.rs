use vstd::prelude::*;
use crate::board::BoardIdxType;

verus! {

/// A direction that corresponds to an offset of indices.
pub trait DirectionOffset<O>: Copy + Eq + Sized {
    /// The offset of the direction.
    spec fn offset_value(&self) -> O;

    fn offset(&self) -> (r: O)
        ensures
            r == self.offset_value(),
    ;

    /// The direction with the given offset, if any.
    fn from_offset(offset: O) -> (r: Option<Self>)
        ensures
            r matches Some(d) ==> d.offset_value() == offset,
            (exists|d: Self| d.offset_value() == offset) ==> r is Some,
    ;
}

/// A direction with an opposite direction.
pub trait DirectionReversable: Copy + Eq + Sized {
    /// The opposite direction.
    spec fn reversal(&self) -> Self;

    fn reversed(&self) -> (r: Self)
        ensures
            r == self.reversal(),
    ;
}

/// Directions that can be listed; each direction has a successor and a
/// predecessor in the list, which wraps around.
pub trait DirectionEnumerable: Copy + Eq + Sized {
    /// All directions, in the order of the enumeration.
    spec fn spec_enumeration() -> Seq<Self>;

    fn enumerate_all() -> (r: Vec<Self>)
        ensures
            r@ == Self::spec_enumeration(),
    ;

    /// The direction after this one in the enumeration.
    spec fn following(&self) -> Self;

    /// The direction before this one in the enumeration.
    spec fn preceding(&self) -> Self;

    fn next_direction(&self) -> (r: Self)
        ensures
            r == self.following(),
    ;

    fn prev_direction(&self) -> (r: Self)
        ensures
            r == self.preceding(),
    ;
}

/// An offset along one dimension.
#[derive(Debug, Clone, Copy, PartialEq, Eq, Structural, PartialOrd, Ord, Default)]
pub struct Offset(pub isize);

/// An index to which offsets can be applied.
pub trait OffsetableIndex: BoardIdxType {
    type Offset;

    /// The offset can be added to the index without leaving the range of
    /// the offset type.
    spec fn spec_offset_fits(&self, offset: Self::Offset) -> bool;

    fn offset_fits(&self, offset: Self::Offset) -> (r: bool)
        ensures
            r == self.spec_offset_fits(offset),
    ;

    /// The index moved by the offset, as an offset from the origin.
    spec fn spec_apply_offset(&self, offset: Self::Offset) -> Self::Offset;

    /// The index at the given offset from the origin, if there is one.
    spec fn spec_from_offset(index: Self::Offset) -> Option<Self>;

    fn apply_offset(&self, offset: Self::Offset) -> (r: Self::Offset)
        requires
            self.spec_offset_fits(offset),
        ensures
            r == self.spec_apply_offset(offset),
    ;

    fn from_offset(index: Self::Offset) -> (r: Option<Self>)
        ensures
            r == Self::spec_from_offset(index),
    ;
}

/// A direction with two possibilities: forward and backward.
#[derive(Debug, Clone, Copy, PartialEq, Eq, Structural, PartialOrd, Ord)]
pub enum BinaryDirection {
    Forward,
    Backward,
}

impl BinaryDirection {
    pub open spec fn spec_offset(self) -> int {
        match self {
            BinaryDirection::Forward => 1,
            BinaryDirection::Backward => -1,
        }
    }

    pub open spec fn spec_reversed(self) -> Self {
        match self {
            BinaryDirection::Forward => BinaryDirection::Backward,
            BinaryDirection::Backward => BinaryDirection::Forward,
        }
    }

    /// The position of the direction in the enumeration.
    pub open spec fn spec_index(self) -> int {
        match self {
            BinaryDirection::Forward => 0,
            BinaryDirection::Backward => 1,
        }
    }

    pub open spec fn spec_all() -> Seq<Self> {
        seq![BinaryDirection::Forward, BinaryDirection::Backward]
    }
}

impl DirectionOffset<Offset> for BinaryDirection {
    open spec fn offset_value(&self) -> Offset {
        Offset(self.spec_offset() as isize)
    }

    fn offset(&self) -> (r: Offset)
        ensures
            r.0 == self.spec_offset(),
    {
        match self {
            BinaryDirection::Forward => Offset(1),
            BinaryDirection::Backward => Offset(-1),
        }
    }

    fn from_offset(offset: Offset) -> (r: Option<Self>)
        ensures
            r matches Some(d) ==> d.spec_offset() == offset.0,
            (exists|d: Self| d.spec_offset() == offset.0) ==> r is Some,
    {
        if offset.0 == 1 {
            Some(BinaryDirection::Forward)
        } else if offset.0 == -1 {
            Some(BinaryDirection::Backward)
        } else {
            None
        }
    }
}

impl DirectionReversable for BinaryDirection {
    open spec fn reversal(&self) -> Self {
        self.spec_reversed()
    }

    fn reversed(&self) -> (r: Self) {
        match self {
            BinaryDirection::Forward => BinaryDirection::Backward,
            BinaryDirection::Backward => BinaryDirection::Forward,
        }
    }
}

impl DirectionEnumerable for BinaryDirection {
    open spec fn spec_enumeration() -> Seq<Self> {
        Self::spec_all()
    }

    fn enumerate_all() -> (r: Vec<Self>)
        ensures
            r@ == Self::spec_all(),
    {
        vec![BinaryDirection::Forward, BinaryDirection::Backward]
    }

    open spec fn following(&self) -> Self {
        Self::spec_all()[(self.spec_index() + 1) % 2]
    }

    open spec fn preceding(&self) -> Self {
        Self::spec_all()[(self.spec_index() + 1) % 2]
    }

    fn next_direction(&self) -> (r: Self) {
        match self {
            BinaryDirection::Forward => BinaryDirection::Backward,
            BinaryDirection::Backward => BinaryDirection::Forward,
        }
    }

    fn prev_direction(&self) -> (r: Self) {
        match self {
            BinaryDirection::Forward => BinaryDirection::Backward,
            BinaryDirection::Backward => BinaryDirection::Forward,
        }
    }
}

/// Reversing a binary direction twice gives the direction back, the
/// reversed direction has the negated offset, every direction is found
/// again from its offset, and each direction stands once in the
/// enumeration, at its position.
pub proof fn lemma_binary_direction_laws(d: BinaryDirection)
    ensures
        d.spec_reversed().spec_reversed() == d,
        d.spec_reversed().spec_offset() == -d.spec_offset(),
        BinaryDirection::spec_all().len() == 2,
        BinaryDirection::spec_all()[d.spec_index()] == d,
        0 <= d.spec_index() < 2,
        forall|e: BinaryDirection| e.spec_offset() == d.spec_offset() ==> e == d,
{
}

/// The directions in a grid, without diagonals.
#[derive(Debug, Clone, Copy, PartialEq, Eq, Structural, PartialOrd, Ord)]
pub enum GridDirection {
    Up,
    Right,
    Down,
    Left,
}

impl GridDirection {
    pub open spec fn spec_offset(self) -> (int, int) {
        match self {
            GridDirection::Up => (0, 1),
            GridDirection::Right => (1, 0),
            GridDirection::Down => (0, -1),
            GridDirection::Left => (-1, 0),
        }
    }

    pub open spec fn spec_reversed(self) -> Self {
        match self {
            GridDirection::Up => GridDirection::Down,
            GridDirection::Right => GridDirection::Left,
            GridDirection::Down => GridDirection::Up,
            GridDirection::Left => GridDirection::Right,
        }
    }

    pub open spec fn spec_index(self) -> int {
        match self {
            GridDirection::Up => 0,
            GridDirection::Right => 1,
            GridDirection::Down => 2,
            GridDirection::Left => 3,
        }
    }

    pub open spec fn spec_all() -> Seq<Self> {
        seq![GridDirection::Up, GridDirection::Right, GridDirection::Down, GridDirection::Left]
    }
}

impl DirectionOffset<(Offset, Offset)> for GridDirection {
    open spec fn offset_value(&self) -> (Offset, Offset) {
        (Offset(self.spec_offset().0 as isize), Offset(self.spec_offset().1 as isize))
    }

    fn offset(&self) -> (r: (Offset, Offset))
        ensures
            (r.0.0 as int, r.1.0 as int) == self.spec_offset(),
    {
        match self {
            GridDirection::Up => (Offset(0), Offset(1)),
            GridDirection::Right => (Offset(1), Offset(0)),
            GridDirection::Down => (Offset(0), Offset(-1)),
            GridDirection::Left => (Offset(-1), Offset(0)),
        }
    }

    fn from_offset(offset: (Offset, Offset)) -> (r: Option<Self>)
        ensures
            r matches Some(d) ==> d.spec_offset() == (offset.0.0 as int, offset.1.0 as int),
            (exists|d: Self| d.spec_offset() == (offset.0.0 as int, offset.1.0 as int)) ==> r is Some,
    {
        let (Offset(x), Offset(y)) = offset;
        if x == 0 && y == 1 {
            Some(GridDirection::Up)
        } else if x == 1 && y == 0 {
            Some(GridDirection::Right)
        } else if x == 0 && y == -1 {
            Some(GridDirection::Down)
        } else if x == -1 && y == 0 {
            Some(GridDirection::Left)
        } else {
            None
        }
    }
}

impl DirectionReversable for GridDirection {
    open spec fn reversal(&self) -> Self {
        self.spec_reversed()
    }

    fn reversed(&self) -> (r: Self) {
        match self {
            GridDirection::Up => GridDirection::Down,
            GridDirection::Right => GridDirection::Left,
            GridDirection::Down => GridDirection::Up,
            GridDirection::Left => GridDirection::Right,
        }
    }
}

impl DirectionEnumerable for GridDirection {
    open spec fn spec_enumeration() -> Seq<Self> {
        Self::spec_all()
    }

    fn enumerate_all() -> (r: Vec<Self>)
        ensures
            r@ == Self::spec_all(),
    {
        vec![GridDirection::Up, GridDirection::Right, GridDirection::Down, GridDirection::Left]
    }

    open spec fn following(&self) -> Self {
        Self::spec_all()[(self.spec_index() + 1) % 4]
    }

    open spec fn preceding(&self) -> Self {
        Self::spec_all()[(self.spec_index() + 3) % 4]
    }

    fn next_direction(&self) -> (r: Self) {
        match self {
            GridDirection::Up => GridDirection::Right,
            GridDirection::Right => GridDirection::Down,
            GridDirection::Down => GridDirection::Left,
            GridDirection::Left => GridDirection::Up,
        }
    }

    fn prev_direction(&self) -> (r: Self) {
        match self {
            GridDirection::Up => GridDirection::Left,
            GridDirection::Right => GridDirection::Up,
            GridDirection::Down => GridDirection::Right,
            GridDirection::Left => GridDirection::Down,
        }
    }
}

/// Reversing a grid direction twice gives the direction back, the reversed
/// direction has the negated offset, offsets tell directions apart, each
/// direction stands once in the enumeration at its position, and the next
/// and the previous direction undo each other.
pub proof fn lemma_grid_direction_laws(d: GridDirection)
    ensures
        d.spec_reversed().spec_reversed() == d,
        d.spec_reversed().spec_offset() == (-d.spec_offset().0, -d.spec_offset().1),
        GridDirection::spec_all().len() == 4,
        0 <= d.spec_index() < 4,
        GridDirection::spec_all()[d.spec_index()] == d,
        forall|e: GridDirection| e.spec_offset() == d.spec_offset() ==> e == d,
        GridDirection::spec_all()[(GridDirection::spec_all()[(d.spec_index() + 1) % 4].spec_index() + 3) % 4] == d,
{
}

/// The directions in a grid, including diagonals.
#[derive(Debug, Clone, Copy, PartialEq, Eq, Structural, PartialOrd, Ord)]
pub enum GridDiagDirection {
    Up,
    UpRight,
    Right,
    DownRight,
    Down,
    DownLeft,
    Left,
    UpLeft,
}

impl GridDiagDirection {
    pub open spec fn spec_offset(self) -> (int, int) {
        match self {
            GridDiagDirection::Up => (0, 1),
            GridDiagDirection::UpRight => (1, 1),
            GridDiagDirection::Right => (1, 0),
            GridDiagDirection::DownRight => (1, -1),
            GridDiagDirection::Down => (0, -1),
            GridDiagDirection::DownLeft => (-1, -1),
            GridDiagDirection::Left => (-1, 0),
            GridDiagDirection::UpLeft => (-1, 1),
        }
    }

    pub open spec fn spec_reversed(self) -> Self {
        match self {
            GridDiagDirection::Up => GridDiagDirection::Down,
            GridDiagDirection::UpRight => GridDiagDirection::DownLeft,
            GridDiagDirection::Right => GridDiagDirection::Left,
            GridDiagDirection::DownRight => GridDiagDirection::UpLeft,
            GridDiagDirection::Down => GridDiagDirection::Up,
            GridDiagDirection::DownLeft => GridDiagDirection::UpRight,
            GridDiagDirection::Left => GridDiagDirection::Right,
            GridDiagDirection::UpLeft => GridDiagDirection::DownRight,
        }
    }

    pub open spec fn spec_index(self) -> int {
        match self {
            GridDiagDirection::Up => 0,
            GridDiagDirection::UpRight => 1,
            GridDiagDirection::Right => 2,
            GridDiagDirection::DownRight => 3,
            GridDiagDirection::Down => 4,
            GridDiagDirection::DownLeft => 5,
            GridDiagDirection::Left => 6,
            GridDiagDirection::UpLeft => 7,
        }
    }

    pub open spec fn spec_all() -> Seq<Self> {
        seq![
            GridDiagDirection::Up,
            GridDiagDirection::UpRight,
            GridDiagDirection::Right,
            GridDiagDirection::DownRight,
            GridDiagDirection::Down,
            GridDiagDirection::DownLeft,
            GridDiagDirection::Left,
            GridDiagDirection::UpLeft,
        ]
    }
}

impl DirectionOffset<(Offset, Offset)> for GridDiagDirection {
    open spec fn offset_value(&self) -> (Offset, Offset) {
        (Offset(self.spec_offset().0 as isize), Offset(self.spec_offset().1 as isize))
    }

    fn offset(&self) -> (r: (Offset, Offset))
        ensures
            (r.0.0 as int, r.1.0 as int) == self.spec_offset(),
    {
        match self {
            GridDiagDirection::Up => (Offset(0), Offset(1)),
            GridDiagDirection::UpRight => (Offset(1), Offset(1)),
            GridDiagDirection::Right => (Offset(1), Offset(0)),
            GridDiagDirection::DownRight => (Offset(1), Offset(-1)),
            GridDiagDirection::Down => (Offset(0), Offset(-1)),
            GridDiagDirection::DownLeft => (Offset(-1), Offset(-1)),
            GridDiagDirection::Left => (Offset(-1), Offset(0)),
            GridDiagDirection::UpLeft => (Offset(-1), Offset(1)),
        }
    }

    fn from_offset(offset: (Offset, Offset)) -> (r: Option<Self>)
        ensures
            r matches Some(d) ==> d.spec_offset() == (offset.0.0 as int, offset.1.0 as int),
            (exists|d: Self| d.spec_offset() == (offset.0.0 as int, offset.1.0 as int)) ==> r is Some,
    {
        let (Offset(x), Offset(y)) = offset;
        if x == 0 && y == 1 {
            Some(GridDiagDirection::Up)
        } else if x == 1 && y == 1 {
            Some(GridDiagDirection::UpRight)
        } else if x == 1 && y == 0 {
            Some(GridDiagDirection::Right)
        } else if x == 1 && y == -1 {
            Some(GridDiagDirection::DownRight)
        } else if x == 0 && y == -1 {
            Some(GridDiagDirection::Down)
        } else if x == -1 && y == -1 {
            Some(GridDiagDirection::DownLeft)
        } else if x == -1 && y == 0 {
            Some(GridDiagDirection::Left)
        } else if x == -1 && y == 1 {
            Some(GridDiagDirection::UpLeft)
        } else {
            None
        }
    }
}

impl DirectionReversable for GridDiagDirection {
    open spec fn reversal(&self) -> Self {
        self.spec_reversed()
    }

    fn reversed(&self) -> (r: Self) {
        match self {
            GridDiagDirection::Up => GridDiagDirection::Down,
            GridDiagDirection::UpRight => GridDiagDirection::DownLeft,
            GridDiagDirection::Right => GridDiagDirection::Left,
            GridDiagDirection::DownRight => GridDiagDirection::UpLeft,
            GridDiagDirection::Down => GridDiagDirection::Up,
            GridDiagDirection::DownLeft => GridDiagDirection::UpRight,
            GridDiagDirection::Left => GridDiagDirection::Right,
            GridDiagDirection::UpLeft => GridDiagDirection::DownRight,
        }
    }
}

impl DirectionEnumerable for GridDiagDirection {
    open spec fn spec_enumeration() -> Seq<Self> {
        Self::spec_all()
    }

    fn enumerate_all() -> (r: Vec<Self>)
        ensures
            r@ == Self::spec_all(),
    {
        vec![
            GridDiagDirection::Up,
            GridDiagDirection::UpRight,
            GridDiagDirection::Right,
            GridDiagDirection::DownRight,
            GridDiagDirection::Down,
            GridDiagDirection::DownLeft,
            GridDiagDirection::Left,
            GridDiagDirection::UpLeft,
        ]
    }

    open spec fn following(&self) -> Self {
        Self::spec_all()[(self.spec_index() + 1) % 8]
    }

    open spec fn preceding(&self) -> Self {
        Self::spec_all()[(self.spec_index() + 7) % 8]
    }

    fn next_direction(&self) -> (r: Self) {
        match self {
            GridDiagDirection::Up => GridDiagDirection::UpRight,
            GridDiagDirection::UpRight => GridDiagDirection::Right,
            GridDiagDirection::Right => GridDiagDirection::DownRight,
            GridDiagDirection::DownRight => GridDiagDirection::Down,
            GridDiagDirection::Down => GridDiagDirection::DownLeft,
            GridDiagDirection::DownLeft => GridDiagDirection::Left,
            GridDiagDirection::Left => GridDiagDirection::UpLeft,
            GridDiagDirection::UpLeft => GridDiagDirection::Up,
        }
    }

    fn prev_direction(&self) -> (r: Self) {
        match self {
            GridDiagDirection::Up => GridDiagDirection::UpLeft,
            GridDiagDirection::UpRight => GridDiagDirection::Up,
            GridDiagDirection::Right => GridDiagDirection::UpRight,
            GridDiagDirection::DownRight => GridDiagDirection::Right,
            GridDiagDirection::Down => GridDiagDirection::DownRight,
            GridDiagDirection::DownLeft => GridDiagDirection::Down,
            GridDiagDirection::Left => GridDiagDirection::DownLeft,
            GridDiagDirection::UpLeft => GridDiagDirection::Left,
        }
    }
}

/// The laws of `lemma_grid_direction_laws` for grid directions with
/// diagonals.
pub proof fn lemma_grid_diag_direction_laws(d: GridDiagDirection)
    ensures
        d.spec_reversed().spec_reversed() == d,
        d.spec_reversed().spec_offset() == (-d.spec_offset().0, -d.spec_offset().1),
        GridDiagDirection::spec_all().len() == 8,
        0 <= d.spec_index() < 8,
        GridDiagDirection::spec_all()[d.spec_index()] == d,
        forall|e: GridDiagDirection| e.spec_offset() == d.spec_offset() ==> e == d,
        GridDiagDirection::spec_all()[(GridDiagDirection::spec_all()[(d.spec_index() + 1) % 8].spec_index() + 7) % 8] == d,
{
}

/// The directions of a hexagonal board.
/// <pre>
///  ___
/// /0/2\___
/// \___/1/2\___
/// /0/1\___/2/2\
/// \___/1/1\___/
/// /0/0\___/2/1\
/// \___/1/0\___/
///     \___/2/0\
///         \___/
/// </pre>
#[derive(Debug, Clone, Copy, PartialEq, Eq, Structural, PartialOrd, Ord)]
pub enum HexaDirection {
    Up,
    UpRight,
    DownRight,
    Down,
    DownLeft,
    UpLeft,
}

impl HexaDirection {
    pub open spec fn spec_offset(self) -> (int, int) {
        match self {
            HexaDirection::Up => (0, 1),
            HexaDirection::UpRight => (1, 1),
            HexaDirection::DownRight => (1, 0),
            HexaDirection::Down => (0, -1),
            HexaDirection::DownLeft => (-1, -1),
            HexaDirection::UpLeft => (-1, 0),
        }
    }

    pub open spec fn spec_reversed(self) -> Self {
        match self {
            HexaDirection::Up => HexaDirection::Down,
            HexaDirection::UpRight => HexaDirection::DownLeft,
            HexaDirection::DownRight => HexaDirection::UpLeft,
            HexaDirection::Down => HexaDirection::Up,
            HexaDirection::DownLeft => HexaDirection::UpRight,
            HexaDirection::UpLeft => HexaDirection::DownRight,
        }
    }

    pub open spec fn spec_index(self) -> int {
        match self {
            HexaDirection::Up => 0,
            HexaDirection::UpRight => 1,
            HexaDirection::DownRight => 2,
            HexaDirection::Down => 3,
            HexaDirection::DownLeft => 4,
            HexaDirection::UpLeft => 5,
        }
    }

    pub open spec fn spec_all() -> Seq<Self> {
        seq![
            HexaDirection::Up,
            HexaDirection::UpRight,
            HexaDirection::DownRight,
            HexaDirection::Down,
            HexaDirection::DownLeft,
            HexaDirection::UpLeft,
        ]
    }
}

impl DirectionOffset<(Offset, Offset)> for HexaDirection {
    open spec fn offset_value(&self) -> (Offset, Offset) {
        (Offset(self.spec_offset().0 as isize), Offset(self.spec_offset().1 as isize))
    }

    fn offset(&self) -> (r: (Offset, Offset))
        ensures
            (r.0.0 as int, r.1.0 as int) == self.spec_offset(),
    {
        match self {
            HexaDirection::Up => (Offset(0), Offset(1)),
            HexaDirection::UpRight => (Offset(1), Offset(1)),
            HexaDirection::DownRight => (Offset(1), Offset(0)),
            HexaDirection::Down => (Offset(0), Offset(-1)),
            HexaDirection::DownLeft => (Offset(-1), Offset(-1)),
            HexaDirection::UpLeft => (Offset(-1), Offset(0)),
        }
    }

    fn from_offset(offset: (Offset, Offset)) -> (r: Option<Self>)
        ensures
            r matches Some(d) ==> d.spec_offset() == (offset.0.0 as int, offset.1.0 as int),
            (exists|d: Self| d.spec_offset() == (offset.0.0 as int, offset.1.0 as int)) ==> r is Some,
    {
        let (Offset(x), Offset(y)) = offset;
        if x == 0 && y == 1 {
            Some(HexaDirection::Up)
        } else if x == 1 && y == 1 {
            Some(HexaDirection::UpRight)
        } else if x == 1 && y == 0 {
            Some(HexaDirection::DownRight)
        } else if x == 0 && y == -1 {
            Some(HexaDirection::Down)
        } else if x == -1 && y == -1 {
            Some(HexaDirection::DownLeft)
        } else if x == -1 && y == 0 {
            Some(HexaDirection::UpLeft)
        } else {
            None
        }
    }
}

impl DirectionReversable for HexaDirection {
    open spec fn reversal(&self) -> Self {
        self.spec_reversed()
    }

    fn reversed(&self) -> (r: Self) {
        match self {
            HexaDirection::Up => HexaDirection::Down,
            HexaDirection::UpRight => HexaDirection::DownLeft,
            HexaDirection::DownRight => HexaDirection::UpLeft,
            HexaDirection::Down => HexaDirection::Up,
            HexaDirection::DownLeft => HexaDirection::UpRight,
            HexaDirection::UpLeft => HexaDirection::DownRight,
        }
    }
}

impl DirectionEnumerable for HexaDirection {
    open spec fn spec_enumeration() -> Seq<Self> {
        Self::spec_all()
    }

    fn enumerate_all() -> (r: Vec<Self>)
        ensures
            r@ == Self::spec_all(),
    {
        vec![
            HexaDirection::Up,
            HexaDirection::UpRight,
            HexaDirection::DownRight,
            HexaDirection::Down,
            HexaDirection::DownLeft,
            HexaDirection::UpLeft,
        ]
    }

    open spec fn following(&self) -> Self {
        Self::spec_all()[(self.spec_index() + 1) % 6]
    }

    open spec fn preceding(&self) -> Self {
        Self::spec_all()[(self.spec_index() + 5) % 6]
    }

    fn next_direction(&self) -> (r: Self) {
        match self {
            HexaDirection::Up => HexaDirection::UpRight,
            HexaDirection::UpRight => HexaDirection::DownRight,
            HexaDirection::DownRight => HexaDirection::Down,
            HexaDirection::Down => HexaDirection::DownLeft,
            HexaDirection::DownLeft => HexaDirection::UpLeft,
            HexaDirection::UpLeft => HexaDirection::Up,
        }
    }

    fn prev_direction(&self) -> (r: Self) {
        match self {
            HexaDirection::Up => HexaDirection::UpLeft,
            HexaDirection::UpRight => HexaDirection::Up,
            HexaDirection::DownRight => HexaDirection::UpRight,
            HexaDirection::Down => HexaDirection::DownRight,
            HexaDirection::DownLeft => HexaDirection::Down,
            HexaDirection::UpLeft => HexaDirection::DownLeft,
        }
    }
}

/// The laws of `lemma_grid_direction_laws` for hexagonal directions.
pub proof fn lemma_hexa_direction_laws(d: HexaDirection)
    ensures
        d.spec_reversed().spec_reversed() == d,
        d.spec_reversed().spec_offset() == (-d.spec_offset().0, -d.spec_offset().1),
        HexaDirection::spec_all().len() == 6,
        0 <= d.spec_index() < 6,
        HexaDirection::spec_all()[d.spec_index()] == d,
        forall|e: HexaDirection| e.spec_offset() == d.spec_offset() ==> e == d,
        HexaDirection::spec_all()[(HexaDirection::spec_all()[(d.spec_index() + 1) % 6].spec_index() + 5) % 6] == d,
{
}

} // verus!
