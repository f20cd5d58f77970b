//! What the held tool does with the voxels the view ray selects.
use vstd::prelude::*;
use crate::block::Rgba;
use crate::milieu::roomy;
use crate::surface::inside;

verus! {

#[derive(Clone, Copy, Debug, PartialEq, Eq, Structural)]
pub enum InteractionState {
    Idle,
    Mining,
    Placing,
}

/// An edit the tool asks for.
#[derive(Clone, Copy, Debug, PartialEq, Eq, Structural)]
pub enum ToolAction {
    /// Reveal around this voxel.
    Mine(i32, i32, i32),
    /// Place a white block in this voxel.
    Place(i32, i32, i32),
}

impl InteractionState {
    /// The edit due once the tool is ready, given the selected block `full`
    /// and the voxel `empty` visited just before it.
    pub fn action(&self, full: Option<(i32, i32, i32)>, empty: Option<(i32, i32, i32)>) -> (r: Option<ToolAction>)
        ensures
            *self is Idle ==> r is None,
            *self is Mining ==> r == match full {
                Some(p) => Some(ToolAction::Mine(p.0, p.1, p.2)),
                None => None,
            },
            *self is Placing ==> r == match empty {
                Some(p) => Some(ToolAction::Place(p.0, p.1, p.2)),
                None => None,
            },
    {
        match self {
            InteractionState::Idle => None,
            InteractionState::Mining => match full {
                Some((x, y, z)) => Some(ToolAction::Mine(x, y, z)),
                None => None,
            },
            InteractionState::Placing => match empty {
                Some((x, y, z)) => Some(ToolAction::Place(x, y, z)),
                None => None,
            },
        }
    }
}

/// The colour of placed blocks: opaque white.
pub fn white() -> (c: Rgba)
    ensures
        c == (Rgba { r: 0x3f80_0000, g: 0x3f80_0000, b: 0x3f80_0000, a: 0x3f80_0000 }),
{
    Rgba { r: 0x3f80_0000, g: 0x3f80_0000, b: 0x3f80_0000, a: 0x3f80_0000 }
}

/// Whether a reveal, placement or removal around `(x, y, z)` stays within
/// `i32` coordinates.
pub fn fits_reveal(x: i32, y: i32, z: i32) -> (r: bool)
    ensures
        r == roomy(x as int, y as int, z as int),
{
    i32::MIN + 2 <= x && x <= i32::MAX - 2 && i32::MIN + 2 <= y && y <= i32::MAX - 2 && i32::MIN + 2 <= z
        && z <= i32::MAX - 2
}

/// Whether the block at `(x, y, z)` can be highlighted within `i32`
/// coordinates.
pub fn fits_block(x: i32, y: i32, z: i32) -> (r: bool)
    ensures
        r == inside(x as int, y as int, z as int),
{
    i32::MIN + 1 <= x && x <= i32::MAX - 1 && i32::MIN + 1 <= y && y <= i32::MAX - 1 && i32::MIN + 1 <= z
        && z <= i32::MAX - 1
}

} // verus!
