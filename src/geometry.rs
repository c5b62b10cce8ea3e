//! Grid coordinates and the four directions of travel.
use vstd::prelude::*;

verus! {

/// One of the four directions of travel on the grid.
#[derive(Clone, Copy, Debug, PartialEq, Eq, Structural)]
pub enum Direction {
    Up,
    Down,
    Left,
    Right,
}

impl Direction {
    /// The direction pointing the other way.
    pub open spec fn reversed(self) -> Direction {
        match self {
            Direction::Up => Direction::Down,
            Direction::Down => Direction::Up,
            Direction::Left => Direction::Right,
            Direction::Right => Direction::Left,
        }
    }

    /// The direction a quarter turn clockwise from this one.
    pub open spec fn turned(self) -> Direction {
        match self {
            Direction::Up => Direction::Right,
            Direction::Right => Direction::Down,
            Direction::Down => Direction::Left,
            Direction::Left => Direction::Up,
        }
    }

    pub fn opposite(&self) -> (r: Direction)
        ensures
            r == self.reversed(),
    {
        match self {
            Direction::Up => Direction::Down,
            Direction::Down => Direction::Up,
            Direction::Left => Direction::Right,
            Direction::Right => Direction::Left,
        }
    }

    pub fn rotate_clockwise(&self) -> (r: Direction)
        ensures
            r == self.turned(),
    {
        match self {
            Direction::Up => Direction::Right,
            Direction::Down => Direction::Left,
            Direction::Left => Direction::Up,
            Direction::Right => Direction::Down,
        }
    }
}

/// `opposite` is an involution and four clockwise quarter turns come back
/// to the start, while fewer never do.
pub proof fn lemma_direction_cycles(d: Direction)
    ensures
        d.reversed().reversed() == d,
        d.reversed() != d,
        d.turned().turned().turned().turned() == d,
        d.turned() != d,
        d.turned().turned() == d.reversed(),
        d.turned().turned().turned() != d,
{
}

/// The order in which the four neighbours of a cell are listed.
pub open spec fn scan_order() -> Seq<Direction> {
    seq![Direction::Up, Direction::Down, Direction::Left, Direction::Right]
}

/// A cell of the grid.
#[derive(Clone, Copy, Debug, PartialEq, Eq, Structural)]
pub struct Position {
    pub x: i32,
    pub y: i32,
}

impl Position {
    /// All four neighbours of the cell can be written as positions.
    pub open spec fn has_neighbors(self) -> bool {
        i32::MIN < self.x < i32::MAX && i32::MIN < self.y < i32::MAX
    }

    /// The cell one step away in direction `d` can be written as a position.
    pub open spec fn can_step(self, d: Direction) -> bool {
        match d {
            Direction::Up => self.y > i32::MIN,
            Direction::Down => self.y < i32::MAX,
            Direction::Left => self.x > i32::MIN,
            Direction::Right => self.x < i32::MAX,
        }
    }

    /// The coordinate offset of one step in direction `d`.
    pub open spec fn offset(d: Direction) -> (int, int) {
        match d {
            Direction::Up => (0, -1),
            Direction::Down => (0, 1),
            Direction::Left => (-1, 0),
            Direction::Right => (1, 0),
        }
    }

    /// `other` lies exactly one step from this cell in direction `d`.
    pub open spec fn is_step(self, d: Direction, other: Position) -> bool {
        other.x == self.x + Self::offset(d).0 && other.y == self.y + Self::offset(d).1
    }

    /// The cell one step from this one in direction `d`.
    pub open spec fn step(self, d: Direction) -> Position {
        Position {
            x: (self.x + Self::offset(d).0) as i32,
            y: (self.y + Self::offset(d).1) as i32,
        }
    }

    /// The four neighbours, in scan order.
    pub open spec fn neighbors(self) -> Seq<Position> {
        scan_order().map_values(|d: Direction| self.step(d))
    }

    /// The direction in which `other` lies, if it is one of the four neighbours.
    pub open spec fn direction_toward(self, other: Position) -> Option<Direction> {
        if self.is_step(Direction::Up, other) {
            Some(Direction::Up)
        } else if self.is_step(Direction::Down, other) {
            Some(Direction::Down)
        } else if self.is_step(Direction::Left, other) {
            Some(Direction::Left)
        } else if self.is_step(Direction::Right, other) {
            Some(Direction::Right)
        } else {
            None
        }
    }

    pub fn new(x: i32, y: i32) -> (r: Position)
        ensures
            r.x == x,
            r.y == y,
    {
        Position { x, y }
    }

    pub fn up(&self) -> (r: Position)
        requires
            self.y > i32::MIN,
        ensures
            r == self.step(Direction::Up),
            self.is_step(Direction::Up, r),
    {
        Self::new(self.x, self.y - 1)
    }

    pub fn down(&self) -> (r: Position)
        requires
            self.y < i32::MAX,
        ensures
            r == self.step(Direction::Down),
            self.is_step(Direction::Down, r),
    {
        Self::new(self.x, self.y + 1)
    }

    pub fn left(&self) -> (r: Position)
        requires
            self.x > i32::MIN,
        ensures
            r == self.step(Direction::Left),
            self.is_step(Direction::Left, r),
    {
        Self::new(self.x - 1, self.y)
    }

    pub fn right(&self) -> (r: Position)
        requires
            self.x < i32::MAX,
        ensures
            r == self.step(Direction::Right),
            self.is_step(Direction::Right, r),
    {
        Self::new(self.x + 1, self.y)
    }

    /// The four neighbours, in the order up, down, left, right.
    pub fn adjacent(&self) -> (r: [Position; 4])
        requires
            self.has_neighbors(),
        ensures
            r@ == self.neighbors(),
    {
        let r = [self.up(), self.down(), self.left(), self.right()];
        assert(r@ =~= self.neighbors());
        r
    }

    /// The direction in which `other` lies from this cell, or `None` when it
    /// is not one of the four neighbours.
    pub fn direction_to(&self, other: &Position) -> (r: Option<Direction>)
        ensures
            r == self.direction_toward(*other),
    {
        let (x, y) = (self.x as i64, self.y as i64);
        let (ox, oy) = (other.x as i64, other.y as i64);
        if ox == x && oy == y - 1 {
            Some(Direction::Up)
        } else if ox == x && oy == y + 1 {
            Some(Direction::Down)
        } else if ox == x - 1 && oy == y {
            Some(Direction::Left)
        } else if ox == x + 1 && oy == y {
            Some(Direction::Right)
        } else {
            None
        }
    }

    /// The cell one step away in `direction`.
    pub fn in_direction(&self, direction: &Direction) -> (r: Position)
        requires
            self.can_step(*direction),
        ensures
            r == self.step(*direction),
            self.is_step(*direction, r),
    {
        match direction {
            Direction::Up => self.up(),
            Direction::Down => self.down(),
            Direction::Left => self.left(),
            Direction::Right => self.right(),
        }
    }
}

/// For a cell whose neighbours are all representable, `direction_to(a, b)`
/// is defined exactly when `b` is one of `a`'s four neighbours, and then one
/// step from `a` in that direction lands on `b`; the direction back from `b`
/// is the opposite one.
pub proof fn lemma_direction_to_adjacent(a: Position, b: Position)
    requires
        a.has_neighbors(),
    ensures
        a.direction_toward(b) is Some <==> a.neighbors().contains(b),
        a.direction_toward(b) matches Some(d) ==> a.step(d) == b && a.is_step(d, b),
        a.direction_toward(b) matches Some(d) ==> b.direction_toward(a) == Some(d.reversed()),
{
    let n = a.neighbors();
    assert(n[0] == a.step(Direction::Up));
    assert(n[1] == a.step(Direction::Down));
    assert(n[2] == a.step(Direction::Left));
    assert(n[3] == a.step(Direction::Right));
    if n.contains(b) {
        let i = choose|i: int| 0 <= i < n.len() && n[i] == b;
        assert(0 <= i < 4);
    }
}

/// Stepping from a cell and then stepping back returns to it, and the cell
/// reached lies in the named direction.
pub proof fn lemma_step_back(a: Position, d: Direction)
    requires
        a.has_neighbors(),
    ensures
        a.is_step(d, a.step(d)),
        a.direction_toward(a.step(d)) == Some(d),
        a.step(d).direction_toward(a) == Some(d.reversed()),
{
}

} // verus!
