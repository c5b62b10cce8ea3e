//! Directional belt segments on an integer grid, and the engine that keeps
//! each segment's entry side consistent with its neighbours after every
//! rotation, creation or deletion.
pub mod geometry;
pub mod belt;
pub mod sprites;
pub mod events;
pub mod grid;
pub mod systems;
