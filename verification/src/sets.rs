use vstd::prelude::*;

verus! {

/// The movement pipeline at the front of each frame: decide where everyone wants to go, then
/// integrate positions, all before any combat resolves.
#[derive(Debug, Clone, Copy, PartialEq, Eq, Hash, Structural)]
pub enum MovementSet {
    /// Velocity and facing setters: player input, flow-field rebuild, enemy steering.
    Intent,
    /// Position integration.
    Integrate,
}

/// The per-frame combat chain, so a hit fully resolves within one frame.
#[derive(Debug, Clone, Copy, PartialEq, Eq, Hash, Structural)]
pub enum CombatSet {
    /// Systems that emit damage requests.
    Damage,
    /// The single consumers that mutate health.
    Apply,
    /// Death handling that reads post-damage health.
    Death,
}

/// Status effect processing, between applying damage and resolving deaths.
#[derive(Debug, Clone, Copy, PartialEq, Eq, Hash, Structural)]
pub enum StatusSet {
    /// Advance damage-over-time timers and emit their periodic damage.
    Tick,
    /// Consume element tags to remove element-cancelled effects.
    CrossInteract,
}

} // verus!
