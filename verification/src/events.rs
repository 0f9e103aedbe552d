use vstd::prelude::*;

verus! {

/// Element tags carried by a damage request; the status system reads them to trigger
/// cross-element cancellations (fire removes frostbite, frost removes blaze).
#[derive(Debug, Clone, Copy, PartialEq, Eq, Structural)]
pub enum DamageTag {
    Physical,
    Fire,
    Frost,
    Holy,
    Shadow,
    Arcane,
}

/// Fired each time the player crosses a level threshold.
#[derive(Debug, Clone, Copy, PartialEq, Eq, Structural)]
pub struct LevelUpEvent {
    pub level: u32,
}

} // verus!
