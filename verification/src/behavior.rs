use vstd::prelude::*;
use crate::def_library::DefLibrary;

verus! {

/// The built-in shapes an ability can take; an ability's definition names one by id.
#[derive(Debug, Clone, Copy, PartialEq, Eq, Structural)]
pub enum BehaviorKind {
    /// Every target within range and within a half-angle of the aim.
    MeleeCone,
    /// Every target within a radius of the caster.
    SelfNova,
    /// Up to a target count of the nearest targets within range.
    NearestMelee,
    /// Enemy contact strike on targets within range.
    ContactMelee,
    /// A travelling projectile along the aim.
    Projectile,
    /// A persistent zone dropped at the caster.
    DroppedZone,
    /// A forced dash along the aim.
    Blink,
    /// A minion spawned at the caster.
    Summon,
    /// Pulls the nearest targets toward the caster.
    Grip,
    /// Hammers orbiting the caster.
    Orbiting,
    /// One primary target plus a cleave cone behind it.
    HammerCleave,
    /// A multi-frame channel on the caster.
    ChannelWhileMoving,
    /// A leap onto a single target.
    LeapToTarget,
    /// A burst centred a distance along the aim.
    TargetedBurst,
    /// A collectible pickup dropped at the caster.
    Bloom,
}

/// Direction-dependent shapes need a non-zero aim before firing; self-centred ones do not.
pub open spec fn spec_needs_aim(k: BehaviorKind) -> bool {
    match k {
        BehaviorKind::MeleeCone => true,
        BehaviorKind::Projectile => true,
        BehaviorKind::Blink => true,
        BehaviorKind::HammerCleave => true,
        BehaviorKind::TargetedBurst => true,
        _ => false,
    }
}

/// Only the enemy contact strike keeps its cooldown when a cast resolves nothing.
pub open spec fn spec_consumes_cooldown_on_whiff(k: BehaviorKind) -> bool {
    k != BehaviorKind::ContactMelee
}

impl BehaviorKind {
    /// Whether a cast of this shape requires the caster to be aiming.
    pub fn needs_aim(&self) -> (b: bool)
        ensures
            b == spec_needs_aim(*self),
    {
        match self {
            BehaviorKind::MeleeCone => true,
            BehaviorKind::Projectile => true,
            BehaviorKind::Blink => true,
            BehaviorKind::HammerCleave => true,
            BehaviorKind::TargetedBurst => true,
            _ => false,
        }
    }

    /// Whether a cast that resolves no hit and no projectile still spends its cooldown.
    pub fn consumes_cooldown_on_whiff(&self) -> (b: bool)
        ensures
            b == spec_consumes_cooldown_on_whiff(*self),
    {
        match self {
            BehaviorKind::ContactMelee => false,
            _ => true,
        }
    }
}

/// The behavior each built-in id names.
pub open spec fn builtin_behavior(id: Seq<char>) -> Option<BehaviorKind> {
    if id == "melee_cone"@ { Some(BehaviorKind::MeleeCone) }
    else if id == "projectile"@ { Some(BehaviorKind::Projectile) }
    else if id == "self_nova"@ { Some(BehaviorKind::SelfNova) }
    else if id == "contact_melee"@ { Some(BehaviorKind::ContactMelee) }
    else if id == "dropped_zone"@ { Some(BehaviorKind::DroppedZone) }
    else if id == "blink"@ { Some(BehaviorKind::Blink) }
    else if id == "summon"@ { Some(BehaviorKind::Summon) }
    else if id == "nearest_melee"@ { Some(BehaviorKind::NearestMelee) }
    else if id == "grip"@ { Some(BehaviorKind::Grip) }
    else if id == "orbiting"@ { Some(BehaviorKind::Orbiting) }
    else if id == "hammer_cleave"@ { Some(BehaviorKind::HammerCleave) }
    else if id == "channel_while_moving"@ { Some(BehaviorKind::ChannelWhileMoving) }
    else if id == "leap_to_target"@ { Some(BehaviorKind::LeapToTarget) }
    else if id == "bloom"@ { Some(BehaviorKind::Bloom) }
    else if id == "targeted_burst"@ { Some(BehaviorKind::TargetedBurst) }
    else { None }
}

/// Maps a behavior id to the shape it names. Populated at start-up; read-only afterwards.
pub struct BehaviorRegistry {
    behaviors: DefLibrary<BehaviorKind>,
}

impl BehaviorRegistry {
    pub closed spec fn wf(&self) -> bool {
        self.behaviors.wf()
    }

    /// The behavior registered under `id`, if any.
    pub closed spec fn spec_get(&self, id: Seq<char>) -> Option<BehaviorKind> {
        self.behaviors.spec_get(id)
    }

    /// A registry with nothing registered.
    pub fn new() -> (reg: Self)
        ensures
            reg.wf(),
            forall|id: Seq<char>| reg.spec_get(id) is None,
    {
        BehaviorRegistry { behaviors: DefLibrary::new() }
    }

    /// Registers `behavior` under `id`, replacing an earlier registration of that id.
    pub fn register(&mut self, id: &str, behavior: BehaviorKind)
        requires
            old(self).wf(),
        ensures
            final(self).wf(),
            forall|k: Seq<char>| #[trigger] final(self).spec_get(k) == if k == id@ {
                Some(behavior)
            } else {
                old(self).spec_get(k)
            },
    {
        self.behaviors.insert(id.to_owned(), behavior);
    }

    /// The behavior registered under `id`, if any.
    pub fn get(&self, id: &str) -> (r: Option<BehaviorKind>)
        requires
            self.wf(),
        ensures
            r == self.spec_get(id@),
    {
        match self.behaviors.get(id) {
            Some(k) => Some(*k),
            None => None,
        }
    }

    /// The registry the ability plugin installs: every built-in shape under its id.
    pub fn builtin() -> (reg: Self)
        ensures
            reg.wf(),
            forall|id: Seq<char>| #[trigger] reg.spec_get(id) == builtin_behavior(id),
    {
        let mut reg = BehaviorRegistry::new();
        reg.register("melee_cone", BehaviorKind::MeleeCone);
        reg.register("projectile", BehaviorKind::Projectile);
        reg.register("self_nova", BehaviorKind::SelfNova);
        reg.register("contact_melee", BehaviorKind::ContactMelee);
        reg.register("dropped_zone", BehaviorKind::DroppedZone);
        reg.register("blink", BehaviorKind::Blink);
        reg.register("summon", BehaviorKind::Summon);
        reg.register("nearest_melee", BehaviorKind::NearestMelee);
        reg.register("grip", BehaviorKind::Grip);
        reg.register("orbiting", BehaviorKind::Orbiting);
        reg.register("hammer_cleave", BehaviorKind::HammerCleave);
        reg.register("channel_while_moving", BehaviorKind::ChannelWhileMoving);
        reg.register("leap_to_target", BehaviorKind::LeapToTarget);
        reg.register("bloom", BehaviorKind::Bloom);
        reg.register("targeted_burst", BehaviorKind::TargetedBurst);
        proof {
            reveal_strlit("melee_cone");
            reveal_strlit("projectile");
            reveal_strlit("self_nova");
            reveal_strlit("contact_melee");
            reveal_strlit("dropped_zone");
            reveal_strlit("blink");
            reveal_strlit("summon");
            reveal_strlit("nearest_melee");
            reveal_strlit("grip");
            reveal_strlit("orbiting");
            reveal_strlit("hammer_cleave");
            reveal_strlit("channel_while_moving");
            reveal_strlit("leap_to_target");
            reveal_strlit("bloom");
            reveal_strlit("targeted_burst");
            assert("melee_cone"@[0] != "projectile"@[0]);
            assert("contact_melee"@[0] != "nearest_melee"@[0]);
            assert("contact_melee"@[0] != "hammer_cleave"@[0]);
            assert("blink"@[2] != "bloom"@[2]);
            assert("nearest_melee"@[0] != "hammer_cleave"@[0]);
            assert("leap_to_target"@[0] != "targeted_burst"@[0]);
            assert forall|id: Seq<char>| #[trigger] reg.spec_get(id) == builtin_behavior(id) by {
                if id == "melee_cone"@ {
                    assert(id.len() == 10);
                } else if id == "projectile"@ {
                    assert(id.len() == 10);
                } else if id == "self_nova"@ {
                    assert(id.len() == 9);
                } else if id == "contact_melee"@ {
                    assert(id.len() == 13);
                } else if id == "dropped_zone"@ {
                    assert(id.len() == 12);
                } else if id == "blink"@ {
                    assert(id.len() == 5);
                } else if id == "summon"@ {
                    assert(id.len() == 6);
                } else if id == "nearest_melee"@ {
                    assert(id.len() == 13);
                } else if id == "grip"@ {
                    assert(id.len() == 4);
                } else if id == "orbiting"@ {
                    assert(id.len() == 8);
                } else if id == "hammer_cleave"@ {
                    assert(id.len() == 13);
                } else if id == "channel_while_moving"@ {
                    assert(id.len() == 20);
                } else if id == "leap_to_target"@ {
                    assert(id.len() == 14);
                } else if id == "bloom"@ {
                    assert(id.len() == 5);
                } else if id == "targeted_burst"@ {
                    assert(id.len() == 14);
                }
            }
        }
        reg
    }
}

/// The shapes that fire along the caster's aim are exactly the melee cone, the projectile,
/// the blink, the hammer cleave and the targeted burst; every other shape is self-centred.
pub proof fn lemma_aimed_shapes(k: BehaviorKind)
    ensures
        spec_needs_aim(k) <==> (k == BehaviorKind::MeleeCone || k == BehaviorKind::Projectile || k
            == BehaviorKind::Blink || k == BehaviorKind::HammerCleave || k == BehaviorKind::TargetedBurst),
{
}

/// The enemy contact strike is the only shape that keeps its cooldown when it hits nothing;
/// every other shape spends its cooldown on a whiff.
pub proof fn lemma_only_contact_melee_keeps_cooldown(k: BehaviorKind)
    ensures
        !spec_consumes_cooldown_on_whiff(k) <==> k == BehaviorKind::ContactMelee,
{
}

} // verus!
