//! The components an entity may carry.

use vstd::prelude::*;

verus! {

/// A component for the position of an entity on the tile grid.
#[derive(Clone, Copy, PartialEq, Eq, Structural, Debug)]
pub struct Position {
    pub x: i32,
    pub y: i32,
}

/// A component marking the entity controlled by the player.
#[derive(Clone, Copy, PartialEq, Eq, Structural, Debug)]
pub struct Player {}

/// A component marking hostile entities.
#[derive(Clone, Copy, PartialEq, Eq, Structural, Debug)]
pub struct Monster {}

/// A component for entities that move to the left. No system here
/// consumes it; it is part of the component roster all the same.
#[derive(Clone, Copy, PartialEq, Eq, Structural, Debug)]
pub struct LeftMover {}

/// A component naming an entity.
pub struct Name {
    pub name: String,
}

/// A component for entities with a field of view: the set of tiles seen
/// from the entity's position on the last recompute, the sight radius,
/// and whether the set is stale and must be recomputed.
pub struct Viewshed {
    pub visible_tiles: Vec<Position>,
    pub range: i32,
    pub dirty: bool,
}

} // verus!
