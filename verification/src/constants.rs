use vstd::prelude::*;

verus! {

/// Half-width, in tiles, of the square the flow field covers around the player.
pub const FLOW_RADIUS: i32 = 50;

/// Experience needed to advance from level 1 to level 2.
pub const XP_FIRST_LEVEL: u32 = 10;

/// Extra experience each further level asks for.
pub const XP_LEVEL_STEP: u32 = 5;

} // verus!
