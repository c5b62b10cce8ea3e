//! The lookup from a belt's shape to a range of animation frames, and the
//! frame counter that walks such a range.
use vstd::prelude::*;
use crate::belt::Belt;
use crate::geometry::Direction;

verus! {

/// The place of a direction within one row of four slots.
pub open spec fn direction_slot(d: Direction) -> int {
    match d {
        Direction::Up => 0,
        Direction::Down => 1,
        Direction::Left => 2,
        Direction::Right => 3,
    }
}

/// Which of the twelve slots holds the frames of `belt`: straight belts in
/// the first four, clockwise turns in the next four, anticlockwise turns in
/// the last four, each row ordered by exit direction.
pub open spec fn sprite_slot(belt: Belt) -> int {
    let row = if belt.straight() {
        0int
    } else if belt.clockwise() {
        4int
    } else {
        8int
    };
    row + direction_slot(belt.end)
}

fn slot_in_row(d: &Direction) -> (r: usize)
    ensures
        r == direction_slot(*d),
{
    match d {
        Direction::Up => 0,
        Direction::Down => 1,
        Direction::Left => 2,
        Direction::Right => 3,
    }
}

/// Twelve optional frame ranges `(first, last)`, one per belt shape.
#[derive(Clone, Copy, Debug)]
pub struct SpriteSelector {
    indecies: [Option<(usize, usize)>; 12],
}

impl SpriteSelector {
    /// The table of frame ranges.
    pub closed spec fn table(&self) -> Seq<Option<(usize, usize)>> {
        self.indecies@
    }

    pub fn from_indecies(indecies: [Option<(usize, usize)>; 12]) -> (r: SpriteSelector)
        ensures
            r.table() == indecies@,
    {
        SpriteSelector { indecies }
    }

    /// The frame range for the shape of `belt`, which the table must hold.
    pub fn get_indecies(&self, belt: &Belt) -> (r: (usize, usize))
        requires
            self.table()[sprite_slot(*belt)] is Some,
        ensures
            Some(r) == self.table()[sprite_slot(*belt)],
    {
        let mut offset: usize = 8;
        if belt.is_clockwise() {
            offset -= 4;
        }
        if belt.is_straight() {
            offset -= 8;
        }
        match self.indecies[offset + slot_in_row(&belt.end)] {
            Some(range) => range,
            // not reached: the slot is filled
            None => (0, 0),
        }
    }
}

/// A position within a range of animation frames `first..=last`.
#[derive(Clone, Copy, Debug)]
pub struct AnimationIndices {
    first: usize,
    last: usize,
    current: usize,
}

impl AnimationIndices {
    pub closed spec fn first_frame(&self) -> nat {
        self.first as nat
    }

    pub closed spec fn last_frame(&self) -> nat {
        self.last as nat
    }

    pub closed spec fn current_frame(&self) -> nat {
        self.current as nat
    }

    /// The current frame is not before the first frame.
    pub open spec fn wf(&self) -> bool {
        self.first_frame() <= self.current_frame()
    }

    pub fn new(first: usize, last: usize) -> (r: AnimationIndices)
        ensures
            r.wf(),
            r.first_frame() == first,
            r.last_frame() == last,
            r.current_frame() == first,
    {
        AnimationIndices { first, last, current: first }
    }

    pub fn first(&self) -> (r: usize)
        ensures
            r == self.first_frame(),
    {
        self.first
    }

    /// Moves to the range `(first, last)`, keeping the distance of the
    /// current frame from the start of the range.
    pub fn update(&mut self, range: (usize, usize))
        requires
            old(self).wf(),
            range.0 + (old(self).current_frame() - old(self).first_frame()) <= usize::MAX,
        ensures
            final(self).wf(),
            final(self).first_frame() == range.0,
            final(self).last_frame() == range.1,
            final(self).current_frame() == range.0 + (old(self).current_frame()
                - old(self).first_frame()),
    {
        let (first, last) = range;
        let offset = self.current - self.first;
        self.first = first;
        self.last = last;
        self.current = first + offset;
    }

    /// Advances one frame, wrapping from the last frame to the first, and
    /// returns the new frame.
    pub fn next(&mut self) -> (r: usize)
        requires
            old(self).wf(),
            old(self).current_frame() != old(self).last_frame() ==> old(self).current_frame()
                < usize::MAX,
        ensures
            final(self).wf(),
            final(self).first_frame() == old(self).first_frame(),
            final(self).last_frame() == old(self).last_frame(),
            final(self).current_frame() == if old(self).current_frame() == old(self).last_frame() {
                old(self).first_frame()
            } else {
                old(self).current_frame() + 1
            },
            r == final(self).current_frame(),
    {
        if self.current == self.last {
            self.current = self.first;
        } else {
            self.current += 1;
        }
        self.current
    }
}

} // verus!
