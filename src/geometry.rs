//! Tile-space value types: dimensions, positions, sizes and rectangles.
use vstd::prelude::*;

verus! {

/// A length or a coordinate measured in whole tiles, never in pixels.
#[derive(Debug, PartialEq, Eq, Structural, Clone, Copy)]
pub struct Dimension(pub usize);

impl std::ops::Add for Dimension {
    type Output = Self;

    fn add(self, rhs: Self) -> Self::Output {
        Dimension(self.0 + rhs.0)
    }
}

impl vstd::std_specs::ops::AddSpecImpl for Dimension {
    open spec fn obeys_add_spec() -> bool {
        true
    }

    open spec fn add_req(self, rhs: Self) -> bool {
        self.0 + rhs.0 <= usize::MAX
    }

    open spec fn add_spec(self, rhs: Self) -> Self {
        Dimension((self.0 + rhs.0) as usize)
    }
}

impl std::ops::Mul for Dimension {
    type Output = Self;

    fn mul(self, rhs: Self) -> Self::Output {
        Dimension(self.0 * rhs.0)
    }
}

impl vstd::std_specs::ops::MulSpecImpl for Dimension {
    open spec fn obeys_mul_spec() -> bool {
        true
    }

    open spec fn mul_req(self, rhs: Self) -> bool {
        self.0 * rhs.0 <= usize::MAX
    }

    open spec fn mul_spec(self, rhs: Self) -> Self {
        Dimension((self.0 * rhs.0) as usize)
    }
}

impl std::ops::Div for Dimension {
    type Output = Self;

    fn div(self, rhs: Self) -> Self::Output {
        Dimension(self.0 / rhs.0)
    }
}

impl vstd::std_specs::ops::DivSpecImpl for Dimension {
    open spec fn obeys_div_spec() -> bool {
        true
    }

    open spec fn div_req(self, rhs: Self) -> bool {
        rhs.0 != 0
    }

    open spec fn div_spec(self, rhs: Self) -> Self {
        Dimension(self.0 / rhs.0)
    }
}

impl From<usize> for Dimension {
    fn from(item: usize) -> (r: Self) {
        Dimension(item)
    }
}

impl vstd::std_specs::convert::FromSpecImpl<usize> for Dimension {
    open spec fn obeys_from_spec() -> bool {
        true
    }

    open spec fn from_spec(item: usize) -> Self {
        Dimension(item)
    }
}

impl From<Dimension> for usize {
    fn from(dimension: Dimension) -> (r: Self) {
        dimension.0
    }
}

impl vstd::std_specs::convert::FromSpecImpl<Dimension> for usize {
    open spec fn obeys_from_spec() -> bool {
        true
    }

    open spec fn from_spec(dimension: Dimension) -> Self {
        dimension.0
    }
}

impl PartialOrd for Dimension {
    fn partial_cmp(&self, other: &Dimension) -> (r: Option<std::cmp::Ordering>) {
        if self.0 < other.0 {
            Some(std::cmp::Ordering::Less)
        } else if self.0 == other.0 {
            Some(std::cmp::Ordering::Equal)
        } else {
            Some(std::cmp::Ordering::Greater)
        }
    }
}

impl vstd::std_specs::cmp::PartialOrdSpecImpl for Dimension {
    open spec fn obeys_partial_cmp_spec() -> bool {
        true
    }

    open spec fn partial_cmp_spec(&self, other: &Dimension) -> Option<std::cmp::Ordering> {
        if self.0 < other.0 {
            Some(std::cmp::Ordering::Less)
        } else if self.0 == other.0 {
            Some(std::cmp::Ordering::Equal)
        } else {
            Some(std::cmp::Ordering::Greater)
        }
    }
}

/// A cell of the grid: (column, row).
#[derive(Debug, PartialEq, Eq, Structural, Clone, Copy)]
pub struct Position(pub Dimension, pub Dimension);

/// An extent in tiles: (width, height).
#[derive(Debug, PartialEq, Eq, Structural, Clone, Copy)]
pub struct Size(pub Dimension, pub Dimension);

/// A room: its top-left cell and its size.
#[derive(Debug, PartialEq, Eq, Structural, Clone, Copy)]
pub struct Rectangle(pub Position, pub Size);

impl Position {
    pub open spec fn col(self) -> int {
        self.0.0 as int
    }

    pub open spec fn row(self) -> int {
        self.1.0 as int
    }
}

impl Rectangle {
    pub open spec fn left(self) -> int {
        self.0.col()
    }

    pub open spec fn top(self) -> int {
        self.0.row()
    }

    pub open spec fn width(self) -> int {
        self.1.0.0 as int
    }

    pub open spec fn height(self) -> int {
        self.1.1.0 as int
    }

    /// The corner test: `other`'s top-left cell lies in the closed box from
    /// this rectangle's origin to its origin plus its size. A rectangle that
    /// encloses this one without its corner landing inside is not detected.
    pub open spec fn corner_within(self, other: Rectangle) -> bool {
        &&& self.left() <= other.left() <= self.left() + self.width()
        &&& self.top() <= other.top() <= self.top() + self.height()
    }

    /// The cells the rectangle covers.
    pub open spec fn covers(self, col: int, row: int) -> bool {
        &&& self.left() <= col < self.left() + self.width()
        &&& self.top() <= row < self.top() + self.height()
    }

    pub fn intersect(&self, other: &Rectangle) -> (r: bool)
        ensures
            r == self.corner_within(*other),
    {
        let col = other.0.0;
        let row = other.0.1;
        (col.0 >= self.0.0.0 && col.0 - self.0.0.0 <= self.1.0.0) && (row.0 >= self.0.1.0 && row.0
            - self.0.1.0 <= self.1.1.0)
    }

    /// The cell halfway between the origin and the size, by truncating
    /// division: `((col + width) / 2, (row + height) / 2)`.
    pub fn center(&self) -> (r: Position)
        requires
            self.left() + self.width() <= usize::MAX,
            self.top() + self.height() <= usize::MAX,
        ensures
            r.col() == (self.left() + self.width()) / 2,
            r.row() == (self.top() + self.height()) / 2,
    {
        Position((self.0.0 + self.1.0) / Dimension::from(2), (self.0.1 + self.1.1) / Dimension::from(2))
    }
}

} // verus!
