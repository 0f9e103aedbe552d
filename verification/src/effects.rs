use vstd::prelude::*;
use crate::def_library::same_id;

verus! {

/// Which entities of a cast's outcome an effect applies to.
#[derive(Debug, Clone, Copy, PartialEq, Eq, Structural)]
pub enum EffectTarget {
    /// Every entity the behavior hit.
    AllHits,
    /// The nearest or first hit only.
    PrimaryHit,
    /// The caster.
    Caster,
}

/// The entities an effect with scope `target` lands on.
pub open spec fn spec_resolve_targets(target: EffectTarget, hits: Seq<u64>, primary: Option<u64>, caster: u64) -> Seq<u64> {
    match target {
        EffectTarget::AllHits => hits,
        EffectTarget::PrimaryHit => match primary {
            Some(p) => seq![p],
            None => Seq::empty(),
        },
        EffectTarget::Caster => seq![caster],
    }
}

/// Maps an effect's scope to concrete entities (by id) from a cast's hit set.
pub fn resolve_targets(target: EffectTarget, hits: &Vec<u64>, primary: Option<u64>, caster: u64) -> (r: Vec<u64>)
    ensures
        r@ == spec_resolve_targets(target, hits@, primary, caster),
{
    match target {
        EffectTarget::AllHits => hits.clone(),
        EffectTarget::PrimaryHit => match primary {
            Some(p) => vec![p],
            None => Vec::new(),
        },
        EffectTarget::Caster => vec![caster],
    }
}

/// Whether some status instance of id `status_id` sits on entity `target`; `statuses` lists
/// (target entity, status id) pairs.
pub fn carries_status(statuses: &Vec<(u64, String)>, target: u64, status_id: &str) -> (b: bool)
    ensures
        b == exists|i: int|
            0 <= i < statuses@.len() && #[trigger] statuses@[i].0 == target && statuses@[i].1@ == status_id@,
{
    let id = status_id.to_owned();
    let mut i: usize = 0;
    while i < statuses.len()
        invariant
            id@ == status_id@,
            i <= statuses@.len(),
            forall|j: int| 0 <= j < i ==> !(#[trigger] statuses@[j].0 == target && statuses@[j].1@ == status_id@),
        decreases statuses.len() - i,
    {
        if statuses[i].0 == target && same_id(&statuses[i].1, &id) {
            return true;
        }
        i = i + 1;
    }
    false
}

/// Effect scopes land where they say: an all-hits effect lands on every hit entity, in hit
/// order, and on nothing else; a primary-hit effect lands on the primary hit alone, or on
/// nothing when there is none; a caster effect lands on the caster alone.
pub proof fn lemma_effect_scopes(hits: Seq<u64>, primary: Option<u64>, caster: u64)
    ensures
        spec_resolve_targets(EffectTarget::AllHits, hits, primary, caster).len() == hits.len(),
        forall|i: int|
            0 <= i < hits.len() ==> #[trigger] spec_resolve_targets(EffectTarget::AllHits, hits, primary, caster)[i]
                == hits[i],
        spec_resolve_targets(EffectTarget::PrimaryHit, hits, primary, caster).len() == if primary is Some {
            1int
        } else {
            0int
        },
        primary matches Some(p) ==> spec_resolve_targets(EffectTarget::PrimaryHit, hits, primary, caster)[0] == p,
        spec_resolve_targets(EffectTarget::Caster, hits, primary, caster).len() == 1,
        spec_resolve_targets(EffectTarget::Caster, hits, primary, caster)[0] == caster,
{
}

} // verus!
