use vstd::prelude::*;
use crate::behavior::{BehaviorKind, spec_needs_aim, spec_consumes_cooldown_on_whiff};

verus! {

/// How an ability is triggered.
#[derive(Debug, Clone, Copy, PartialEq, Eq, Structural)]
pub enum Activation {
    /// Fired by an input slot. The default.
    Input,
    /// Fired automatically whenever its cooldown is ready.
    AutoCast,
}

impl Default for Activation {
    fn default() -> (a: Activation)
        ensures
            a == Activation::Input,
    {
        Activation::Input
    }
}

/// Whether a ready ability of an unsuppressed caster fires on its own this frame: only a
/// loaded definition whose activation is `AutoCast` does.
pub fn should_auto_cast(cooldown_ready: bool, suppressed: bool, activation: Option<Activation>) -> (b: bool)
    ensures
        b == (cooldown_ready && !suppressed && activation == Some(Activation::AutoCast)),
{
    cooldown_ready && !suppressed && match activation {
        Some(Activation::AutoCast) => true,
        _ => false,
    }
}

/// The verdict on one triggered ability instance, in the order the checks are made.
#[derive(Debug, Clone, Copy, PartialEq, Eq, Structural)]
pub enum CastCheck {
    /// The cooldown has not elapsed.
    NotReady,
    /// The ability's definition is unknown or still loading.
    NotLoaded,
    /// The definition names a behavior nobody registered; the ability stays inert.
    UnregisteredBehavior,
    /// The shape needs an aim and the caster has none; the cooldown is kept.
    NeedsAim,
    /// The cast goes ahead with this shape.
    Fire(BehaviorKind),
}

/// The verdict of the cast gate (see `check_cast`).
pub open spec fn spec_check_cast(
    cooldown_ready: bool,
    def_loaded: bool,
    behavior: Option<BehaviorKind>,
    has_aim: bool,
) -> CastCheck {
    if !cooldown_ready {
        CastCheck::NotReady
    } else if !def_loaded {
        CastCheck::NotLoaded
    } else if behavior is None {
        CastCheck::UnregisteredBehavior
    } else if spec_needs_aim(behavior->0) && !has_aim {
        CastCheck::NeedsAim
    } else {
        CastCheck::Fire(behavior->0)
    }
}

/// Decides whether a triggered ability fires: its cooldown must be ready, its definition
/// loaded, its behavior registered, and an aimed shape needs the caster to be aiming.
pub fn check_cast(
    cooldown_ready: bool,
    def_loaded: bool,
    behavior: Option<BehaviorKind>,
    has_aim: bool,
) -> (c: CastCheck)
    ensures
        c == spec_check_cast(cooldown_ready, def_loaded, behavior, has_aim),
{
    if !cooldown_ready {
        return CastCheck::NotReady;
    }
    if !def_loaded {
        return CastCheck::NotLoaded;
    }
    match behavior {
        None => CastCheck::UnregisteredBehavior,
        Some(kind) => {
            if kind.needs_aim() && !has_aim {
                CastCheck::NeedsAim
            } else {
                CastCheck::Fire(kind)
            }
        },
    }
}

/// Whether a resolved cast is abandoned with its cooldown kept: a shape that does not spend its
/// cooldown on a whiff, whose cast hit nothing and launched no projectile.
pub fn whiff_keeps_cooldown(kind: BehaviorKind, hits_empty: bool, has_projectile: bool) -> (b: bool)
    ensures
        b == (!spec_consumes_cooldown_on_whiff(kind) && hits_empty && !has_projectile),
{
    !kind.consumes_cooldown_on_whiff() && hits_empty && !has_projectile
}

/// What flash a committed cast asks the presentation layer to draw.
#[derive(Debug, Clone, Copy, PartialEq, Eq, Structural)]
pub enum CastVfxTag {
    /// A self-centred nova ring.
    Nova,
    /// Drawn by the existing gizmo paths.
    Other,
}

/// Self-novas (behavior id `self_nova`) flash a ring; every other cast is `Other`.
pub fn cast_vfx_tag(behavior_id: &str) -> (t: CastVfxTag)
    ensures
        t == if behavior_id@ == "self_nova"@ { CastVfxTag::Nova } else { CastVfxTag::Other },
{
    let id = behavior_id.to_owned();
    let nova = "self_nova".to_owned();
    if id == nova {
        CastVfxTag::Nova
    } else {
        CastVfxTag::Other
    }
}

/// The cast gate by shape. A cast that is not ready, not loaded or names no registered behavior
/// never fires. A ready, loaded, registered cast of an aimed shape (melee cone, projectile, blink,
/// hammer cleave, targeted burst) without aim is refused with `NeedsAim`; every other ready,
/// loaded, registered cast fires with its own shape. A `Fire` verdict always names that shape.
pub proof fn lemma_cast_gate(ready: bool, loaded: bool, behavior: Option<BehaviorKind>, has_aim: bool)
    ensures
        !ready ==> spec_check_cast(ready, loaded, behavior, has_aim) == CastCheck::NotReady,
        ready && !loaded ==> spec_check_cast(ready, loaded, behavior, has_aim) == CastCheck::NotLoaded,
        ready && loaded && behavior is None ==> spec_check_cast(ready, loaded, behavior, has_aim)
            == CastCheck::UnregisteredBehavior,
        ready && loaded && behavior is Some && !has_aim && (behavior->0 == BehaviorKind::MeleeCone
            || behavior->0 == BehaviorKind::Projectile || behavior->0 == BehaviorKind::Blink || behavior->0
            == BehaviorKind::HammerCleave || behavior->0 == BehaviorKind::TargetedBurst) ==> spec_check_cast(
            ready,
            loaded,
            behavior,
            has_aim,
        ) == CastCheck::NeedsAim,
        ready && loaded && behavior is Some && (has_aim || !(behavior->0 == BehaviorKind::MeleeCone
            || behavior->0 == BehaviorKind::Projectile || behavior->0 == BehaviorKind::Blink || behavior->0
            == BehaviorKind::HammerCleave || behavior->0 == BehaviorKind::TargetedBurst)) ==> spec_check_cast(
            ready,
            loaded,
            behavior,
            has_aim,
        ) == CastCheck::Fire(behavior->0),
        spec_check_cast(ready, loaded, behavior, has_aim) is Fire ==> ready && loaded && behavior == Some(
            spec_check_cast(ready, loaded, behavior, has_aim)->0,
        ),
{
}

/// A resolved cast is abandoned with its cooldown kept exactly when it is an enemy contact strike
/// that hit nothing and launched no projectile.
pub proof fn lemma_whiff_keeps_cooldown(kind: BehaviorKind, hits_empty: bool, has_projectile: bool)
    ensures
        (!spec_consumes_cooldown_on_whiff(kind) && hits_empty && !has_projectile) <==> (kind
            == BehaviorKind::ContactMelee && hits_empty && !has_projectile),
{
}

} // verus!
