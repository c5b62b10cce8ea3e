//! The messages that flow through the modification pipeline.
use vstd::prelude::*;
use crate::geometry::{Direction, Position};

verus! {

/// The sole change the resolver makes to an existing segment: its new
/// entry direction.
#[derive(Clone, Copy, Debug, PartialEq, Eq, Structural)]
pub struct UpdateEdgesEvent {
    pub entity: u64,
    pub new_start: Direction,
}

impl UpdateEdgesEvent {
    pub fn new(entity: u64, new_start: Direction) -> (r: UpdateEdgesEvent)
        ensures
            r.entity == entity,
            r.new_start == new_start,
    {
        UpdateEdgesEvent { entity, new_start }
    }
}

/// A request to recompute the entry direction of one segment.
#[derive(Clone, Copy, Debug, PartialEq, Eq, Structural)]
pub struct FindEdgesEvent {
    pub entity: u64,
}

impl FindEdgesEvent {
    pub fn new(entity: u64) -> (r: FindEdgesEvent)
        ensures
            r.entity == entity,
    {
        FindEdgesEvent { entity }
    }
}

/// Notice that the cell at `position` changed; `entity` is the segment
/// that was touched, absent when it was deleted.
#[derive(Clone, Copy, Debug, PartialEq, Eq, Structural)]
pub struct ModifiedEvent {
    pub position: Position,
    pub entity: Option<u64>,
}

impl ModifiedEvent {
    pub fn new(position: Position, entity: Option<u64>) -> (r: ModifiedEvent)
        ensures
            r.position == position,
            r.entity == entity,
    {
        ModifiedEvent { position, entity }
    }
}

/// A modification asked for by the user, by grid position only.
#[derive(Clone, Copy, Debug, PartialEq, Eq, Structural)]
pub enum InputEvent {
    Rotate(Position),
    Create(Position),
    Delete(Position),
}

impl InputEvent {
    /// The cell the request acts on.
    pub open spec fn target(self) -> Position {
        match self {
            InputEvent::Rotate(p) => p,
            InputEvent::Create(p) => p,
            InputEvent::Delete(p) => p,
        }
    }
}

/// Why a modification was refused.
#[derive(Clone, Copy, Debug, PartialEq, Eq, Structural)]
pub enum ModifyError {
    /// A segment already occupies the cell.
    PositionOccupied,
    /// No segment occupies the cell.
    PositionEmpty,
}

} // verus!
