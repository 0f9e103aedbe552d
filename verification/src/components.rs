use vstd::prelude::*;

verus! {

/// A tile coordinate on the world grid.
#[derive(Debug, Copy, Clone, Hash, PartialEq, Eq, Structural)]
pub struct GridPosition {
    pub x: i32,
    pub y: i32,
}

/// Marker: the entity's velocity is not integrated this frame (root, stun).
#[derive(Debug)]
pub struct Immobilized;

/// Marker: the entity cannot cast, auto-cast or swap stance while present.
#[derive(Debug)]
pub struct AbilitiesSuppressed;

/// Which side an actor fights for. An ability targets the faction opposing its caster.
#[derive(Debug, Copy, Clone, PartialEq, Eq, Structural)]
pub enum Faction {
    Friendly,
    Hostile,
}

/// The faction an actor of faction `f` attacks.
pub open spec fn spec_opposing(f: Faction) -> Faction {
    match f {
        Faction::Friendly => Faction::Hostile,
        Faction::Hostile => Faction::Friendly,
    }
}

impl Faction {
    /// The faction an actor of this faction attacks.
    pub fn opposing(self) -> (r: Faction)
        ensures
            r == spec_opposing(self),
    {
        match self {
            Faction::Friendly => Faction::Hostile,
            Faction::Hostile => Faction::Friendly,
        }
    }
}

/// Opposing is an involution without fixed points: the faction an actor's enemies attack is
/// the actor's own, and no faction ever targets itself.
pub proof fn lemma_opposing_involution(f: Faction)
    ensures
        spec_opposing(spec_opposing(f)) == f,
        spec_opposing(f) != f,
{
}

} // verus!
