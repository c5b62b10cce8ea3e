//! The entry/exit pair of one belt segment and its classification.
use vstd::prelude::*;
use crate::geometry::Direction;

verus! {

/// What a belt segment does with material: it receives it travelling in
/// `start` (the entry direction) and discharges it travelling in `end` (the
/// exit direction).
#[derive(Clone, Copy, Debug, PartialEq, Eq, Structural)]
pub struct Belt {
    pub start: Direction,
    pub end: Direction,
}

/// The pairs (entry, exit) that make a clockwise turn.
pub open spec fn clockwise_pair(start: Direction, end: Direction) -> bool {
    ||| start == Direction::Up && end == Direction::Left
    ||| start == Direction::Down && end == Direction::Right
    ||| start == Direction::Left && end == Direction::Down
    ||| start == Direction::Right && end == Direction::Up
}

impl Belt {
    /// Material passes straight through.
    pub open spec fn straight(self) -> bool {
        self.start == self.end.reversed()
    }

    /// Material makes a clockwise turn.
    pub open spec fn clockwise(self) -> bool {
        clockwise_pair(self.start, self.end)
    }

    pub fn new(start: Direction, end: Direction) -> (r: Belt)
        ensures
            r.start == start,
            r.end == end,
    {
        Belt { start, end }
    }

    /// Points the exit at `end`; the entry is left for the resolver.
    pub fn rotate(&mut self, end: Direction)
        ensures
            final(self).end == end,
            final(self).start == old(self).start,
    {
        self.end = end;
    }

    pub fn is_straight(&self) -> (r: bool)
        ensures
            r == self.straight(),
    {
        self.start.opposite() == self.end
    }

    pub fn is_clockwise(&self) -> (r: bool)
        ensures
            r == self.clockwise(),
    {
        match self.start {
            Direction::Up => self.end == Direction::Left,
            Direction::Down => self.end == Direction::Right,
            Direction::Left => self.end == Direction::Down,
            Direction::Right => self.end == Direction::Up,
        }
    }
}

} // verus!
