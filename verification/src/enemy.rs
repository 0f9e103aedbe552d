use vstd::prelude::*;

verus! {

/// Marks an enemy actor.
#[derive(Debug)]
pub struct Enemy;

/// Marks the designated map boss of an encounter.
#[derive(Debug)]
pub struct MapBoss;

/// Visual shape for an enemy type, built into a mesh at spawn.
#[derive(Debug, Clone, Copy, PartialEq, Eq, Structural)]
pub enum EnemyShape {
    Circle,
    Triangle,
    Square,
}

/// Experience awarded to the killer when this enemy dies.
#[derive(Debug, Clone, Copy, PartialEq, Eq, Structural)]
pub struct XpReward(pub u32);

/// Which AI drives an enemy's movement and targeting.
#[derive(Debug, Clone, Copy, PartialEq, Eq, Structural)]
pub enum AiBehavior {
    /// Flow-field follower; faces its movement direction.
    MeleeChaser,
    /// Approaches to its preferred range, stops, and faces the player to fire.
    RangedCaster,
    /// Does not move; faces the player and casts on cooldown.
    Stationary,
}

/// The AI a definition's `ai_behavior` id names; unknown ids fall back to `MeleeChaser`.
pub open spec fn spec_ai_from_id(id: Seq<char>) -> AiBehavior {
    if id == "ranged_caster"@ {
        AiBehavior::RangedCaster
    } else if id == "stationary"@ {
        AiBehavior::Stationary
    } else {
        AiBehavior::MeleeChaser
    }
}

impl AiBehavior {
    /// Maps an enemy definition's `ai_behavior` id to its AI.
    pub fn from_id(id: &str) -> (b: AiBehavior)
        ensures
            b == spec_ai_from_id(id@),
    {
        let key = id.to_owned();
        if key == "ranged_caster".to_owned() {
            AiBehavior::RangedCaster
        } else if key == "stationary".to_owned() {
            AiBehavior::Stationary
        } else {
            AiBehavior::MeleeChaser
        }
    }
}

} // verus!
