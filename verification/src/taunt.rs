use vstd::prelude::*;

verus! {

/// What to do to an enemy's taunt marker this frame.
#[derive(Debug, Clone, Copy, PartialEq, Eq, Structural)]
pub enum TauntChange {
    /// The marker already names the right taunter (or there is none and should be none).
    Keep,
    /// Point the marker at this taunter.
    Redirect(u64),
    /// Remove the marker.
    Clear,
}

/// Reconciles an enemy's taunt marker (`current`, the taunter it chases if any) with the
/// nearest taunter in reach this frame (`nearest`): redirect to a new nearest taunter, drop
/// the marker once none is in reach, and touch nothing when they already agree.
pub fn reconcile_taunt(nearest: Option<u64>, current: Option<u64>) -> (c: TauntChange)
    ensures
        c == match (nearest, current) {
            (Some(t), Some(cur)) => if cur == t { TauntChange::Keep } else { TauntChange::Redirect(t) },
            (Some(t), None) => TauntChange::Redirect(t),
            (None, Some(_)) => TauntChange::Clear,
            (None, None) => TauntChange::Keep,
        },
{
    match (nearest, current) {
        (Some(t), Some(cur)) => if cur == t { TauntChange::Keep } else { TauntChange::Redirect(t) },
        (Some(t), None) => TauntChange::Redirect(t),
        (None, Some(_)) => TauntChange::Clear,
        (None, None) => TauntChange::Keep,
    }
}

/// The marker after applying a change.
pub open spec fn apply_taunt_change(current: Option<u64>, c: TauntChange) -> Option<u64> {
    match c {
        TauntChange::Keep => current,
        TauntChange::Redirect(t) => Some(t),
        TauntChange::Clear => None,
    }
}

/// Reconciling makes the marker name exactly the nearest taunter in reach, and a frame that
/// changes nothing issues no change.
pub proof fn lemma_taunt_reconciles(nearest: Option<u64>, current: Option<u64>, c: TauntChange)
    requires
        c == match (nearest, current) {
            (Some(t), Some(cur)) => if cur == t { TauntChange::Keep } else { TauntChange::Redirect(t) },
            (Some(t), None) => TauntChange::Redirect(t),
            (None, Some(_)) => TauntChange::Clear,
            (None, None) => TauntChange::Keep,
        },
    ensures
        apply_taunt_change(current, c) == nearest,
        (nearest == current) ==> c == TauntChange::Keep,
{
}

} // verus!
