use vstd::prelude::*;
use crate::def_library::{DefLibrary, same_id};

verus! {

/// When a hook runs relative to the ability's base behavior.
#[derive(Debug, Clone, Copy, PartialEq, Eq, Structural)]
pub enum HookPhase {
    /// Before the behavior resolves; may rewrite the resolved parameters.
    Pre,
    /// After the effects apply; may react to what the cast hit.
    Post,
}

/// The built-in behavior-rewriting hooks a talent (or an ability's own kit) can install.
#[derive(Debug, Clone, Copy, PartialEq, Eq, Structural)]
pub enum HookKind {
    /// Blood Boil has double radius when cast inside Death and Decay.
    BloodBoilDndRange,
    /// Heart Strike's damage grows as the caster's health drops.
    HeartStrikeMissingHealth,
    /// Heart Strike deals +50% damage while the caster is under 25% health.
    HeartStrikeExecuteBonus,
    /// Damage ×0.4 outside Death and Decay, ×2.4 inside it.
    BdkDndDamageBoost,
    /// Leech ×1.5.
    BdkNoHealCapLeechBoost,
    /// Frost Impale's Glacial Spike talent.
    FrostImpaleGlacialSpike,
    /// Frost Impale's Deep Freeze talent.
    FrostImpaleDeepFreeze,
    /// Flamewrath keeps its charges when it fires.
    FlamewrathNoConsume,
}

/// The hook each built-in id names.
pub open spec fn builtin_hook(id: Seq<char>) -> Option<HookKind> {
    if id == "blood_boil_dnd_range"@ { Some(HookKind::BloodBoilDndRange) }
    else if id == "heart_strike_missing_health"@ { Some(HookKind::HeartStrikeMissingHealth) }
    else if id == "heart_strike_execute_bonus"@ { Some(HookKind::HeartStrikeExecuteBonus) }
    else if id == "bdk_dnd_damage_boost"@ { Some(HookKind::BdkDndDamageBoost) }
    else if id == "bdk_no_heal_cap"@ { Some(HookKind::BdkNoHealCapLeechBoost) }
    else if id == "frost_impale_glacial_spike"@ { Some(HookKind::FrostImpaleGlacialSpike) }
    else if id == "frost_impale_deep_freeze"@ { Some(HookKind::FrostImpaleDeepFreeze) }
    else if id == "flamewrath_no_consume"@ { Some(HookKind::FlamewrathNoConsume) }
    else { None }
}

/// Maps a hook id to the hook it names. Populated at start-up; read-only afterwards.
pub struct HookRegistry {
    hooks: DefLibrary<HookKind>,
}

impl HookRegistry {
    pub closed spec fn wf(&self) -> bool {
        self.hooks.wf()
    }

    /// The hook registered under `id`, if any.
    pub closed spec fn spec_get(&self, id: Seq<char>) -> Option<HookKind> {
        self.hooks.spec_get(id)
    }

    /// A registry with nothing registered.
    pub fn new() -> (reg: Self)
        ensures
            reg.wf(),
            forall|id: Seq<char>| reg.spec_get(id) is None,
    {
        HookRegistry { hooks: DefLibrary::new() }
    }

    /// Registers `hook` under `id`, replacing an earlier registration of that id.
    pub fn register(&mut self, id: &str, hook: HookKind)
        requires
            old(self).wf(),
        ensures
            final(self).wf(),
            forall|k: Seq<char>| #[trigger] final(self).spec_get(k) == if k == id@ {
                Some(hook)
            } else {
                old(self).spec_get(k)
            },
    {
        self.hooks.insert(id.to_owned(), hook);
    }

    /// The hook registered under `id`, if any.
    pub fn get(&self, id: &str) -> (r: Option<HookKind>)
        requires
            self.wf(),
        ensures
            r == self.spec_get(id@),
    {
        match self.hooks.get(id) {
            Some(k) => Some(*k),
            None => None,
        }
    }

    /// The registry the ability plugin installs: every built-in hook under its id.
    pub fn builtin() -> (reg: Self)
        ensures
            reg.wf(),
            forall|id: Seq<char>| #[trigger] reg.spec_get(id) == builtin_hook(id),
    {
        let mut reg = HookRegistry::new();
        reg.register("blood_boil_dnd_range", HookKind::BloodBoilDndRange);
        reg.register("heart_strike_missing_health", HookKind::HeartStrikeMissingHealth);
        reg.register("heart_strike_execute_bonus", HookKind::HeartStrikeExecuteBonus);
        reg.register("bdk_dnd_damage_boost", HookKind::BdkDndDamageBoost);
        reg.register("bdk_no_heal_cap", HookKind::BdkNoHealCapLeechBoost);
        reg.register("frost_impale_glacial_spike", HookKind::FrostImpaleGlacialSpike);
        reg.register("frost_impale_deep_freeze", HookKind::FrostImpaleDeepFreeze);
        reg.register("flamewrath_no_consume", HookKind::FlamewrathNoConsume);
        proof {
            reveal_strlit("frost_impale_glacial_spike");
            reveal_strlit("frost_impale_deep_freeze");
            reveal_strlit("flamewrath_no_consume");
            reveal_strlit("blood_boil_dnd_range");
            reveal_strlit("heart_strike_missing_health");
            reveal_strlit("heart_strike_execute_bonus");
            reveal_strlit("bdk_dnd_damage_boost");
            reveal_strlit("bdk_no_heal_cap");
            assert("blood_boil_dnd_range"@[0] != "bdk_dnd_damage_boost"@[0]
                || "blood_boil_dnd_range"@[1] != "bdk_dnd_damage_boost"@[1]);
            assert("frost_impale_glacial_spike"@[0] != "heart_strike_execute_bonus"@[0]);
            assert forall|id: Seq<char>| #[trigger] reg.spec_get(id) == builtin_hook(id) by {
                if id == "blood_boil_dnd_range"@ {
                    assert(id.len() == 20);
                } else if id == "heart_strike_missing_health"@ {
                    assert(id.len() == 27);
                } else if id == "heart_strike_execute_bonus"@ {
                    assert(id.len() == 26);
                } else if id == "bdk_dnd_damage_boost"@ {
                    assert(id.len() == 20);
                } else if id == "bdk_no_heal_cap"@ {
                    assert(id.len() == 15);
                } else if id == "frost_impale_glacial_spike"@ {
                    assert(id.len() == 26);
                } else if id == "frost_impale_deep_freeze"@ {
                    assert(id.len() == 24);
                } else if id == "flamewrath_no_consume"@ {
                    assert(id.len() == 21);
                }
            }
        }
        reg
    }
}

/// Whether `id` is among `ids`.
pub fn contains_id(ids: &Vec<String>, id: &String) -> (r: bool)
    ensures
        r == exists|i: int| 0 <= i < ids@.len() && #[trigger] ids@[i]@ == id@,
{
    let mut i: usize = 0;
    while i < ids.len()
        invariant
            i <= ids@.len(),
            forall|j: int| 0 <= j < i ==> #[trigger] ids@[j]@ != id@,
        decreases ids.len() - i,
    {
        if same_id(&ids[i], id) {
            return true;
        }
        i = i + 1;
    }
    false
}

/// The hooks to run for one phase of a cast, in the ability's listed order: those the ability
/// lists for `phase` whose id the caster has installed (`active`) and the registry knows.
pub open spec fn hooks_for_phase(
    listed: Seq<(HookPhase, String)>,
    phase: HookPhase,
    active: Seq<String>,
    reg: HookRegistry,
) -> Seq<HookKind>
    decreases listed.len(),
{
    if listed.len() == 0 {
        Seq::empty()
    } else {
        let rest = hooks_for_phase(listed.drop_last(), phase, active, reg);
        let (p, id) = listed.last();
        if p == phase && (exists|i: int| 0 <= i < active.len() && #[trigger] active[i]@ == id@)
            && reg.spec_get(id@) is Some {
            rest.push(reg.spec_get(id@)->0)
        } else {
            rest
        }
    }
}

/// Selects the hooks a cast runs in `phase` (see `hooks_for_phase`).
pub fn hooks_to_run(
    listed: &Vec<(HookPhase, String)>,
    phase: HookPhase,
    active: &Vec<String>,
    reg: &HookRegistry,
) -> (r: Vec<HookKind>)
    requires
        reg.wf(),
    ensures
        r@ == hooks_for_phase(listed@, phase, active@, *reg),
{
    let mut out: Vec<HookKind> = Vec::new();
    let mut i: usize = 0;
    while i < listed.len()
        invariant
            reg.wf(),
            i <= listed@.len(),
            out@ == hooks_for_phase(listed@.take(i as int), phase, active@, *reg),
        decreases listed.len() - i,
    {
        assert(listed@.take(i as int + 1).drop_last() =~= listed@.take(i as int));
        let (p, id) = (listed[i].0, &listed[i].1);
        if p == phase && contains_id(active, id) {
            if let Some(k) = reg.get(id.as_str()) {
                out.push(k);
            }
        }
        i = i + 1;
    }
    assert(listed@.take(listed@.len() as int) =~= listed@);
    out
}

/// The innate hooks an ability runs in one phase, in its listed order: every listed hook for
/// `phase` that the registry knows, whatever the caster has installed.
pub open spec fn innate_hooks_for_phase(
    innate: Seq<(HookPhase, String)>,
    phase: HookPhase,
    reg: HookRegistry,
) -> Seq<HookKind>
    decreases innate.len(),
{
    if innate.len() == 0 {
        Seq::empty()
    } else {
        let rest = innate_hooks_for_phase(innate.drop_last(), phase, reg);
        let (p, id) = innate.last();
        if p == phase && reg.spec_get(id@) is Some {
            rest.push(reg.spec_get(id@)->0)
        } else {
            rest
        }
    }
}

/// Selects the innate hooks a cast runs in `phase` (see `innate_hooks_for_phase`).
pub fn innate_hooks_to_run(innate: &Vec<(HookPhase, String)>, phase: HookPhase, reg: &HookRegistry) -> (r: Vec<HookKind>)
    requires
        reg.wf(),
    ensures
        r@ == innate_hooks_for_phase(innate@, phase, *reg),
{
    let mut out: Vec<HookKind> = Vec::new();
    let mut i: usize = 0;
    while i < innate.len()
        invariant
            reg.wf(),
            i <= innate@.len(),
            out@ == innate_hooks_for_phase(innate@.take(i as int), phase, *reg),
        decreases innate.len() - i,
    {
        assert(innate@.take(i as int + 1).drop_last() =~= innate@.take(i as int));
        if innate[i].0 == phase {
            if let Some(k) = reg.get(innate[i].1.as_str()) {
                out.push(k);
            }
        }
        i = i + 1;
    }
    assert(innate@.take(innate@.len() as int) =~= innate@);
    out
}

/// Every hook a cast runs in `phase`: the ability's registered innate hooks for that phase, which
/// always run, then its talent-gated hooks that the caster has installed (`active`), each group in
/// the ability's listed order.
pub fn cast_hooks(
    innate: &Vec<(HookPhase, String)>,
    listed: &Vec<(HookPhase, String)>,
    phase: HookPhase,
    active: &Vec<String>,
    reg: &HookRegistry,
) -> (r: Vec<HookKind>)
    requires
        reg.wf(),
    ensures
        r@ == innate_hooks_for_phase(innate@, phase, *reg) + hooks_for_phase(listed@, phase, active@, *reg),
{
    let mut out = innate_hooks_to_run(innate, phase, reg);
    let mut gated = hooks_to_run(listed, phase, active, reg);
    out.append(&mut gated);
    out
}

/// A talent-gated hook runs only when it is earned: every hook selected for a phase comes from
/// an entry the ability lists for that phase, whose id the caster has installed and the registry
/// knows. So a caster with nothing installed runs no talent-gated hook in either phase, and no
/// more hooks run than the ability lists.
pub proof fn lemma_gated_hooks_need_install(
    listed: Seq<(HookPhase, String)>,
    phase: HookPhase,
    active: Seq<String>,
    reg: HookRegistry,
)
    ensures
        hooks_for_phase(listed, phase, active, reg).len() <= listed.len(),
        forall|j: int|
            #![trigger hooks_for_phase(listed, phase, active, reg)[j]]
            0 <= j < hooks_for_phase(listed, phase, active, reg).len() ==> exists|i: int|
                #![trigger listed[i]]
                0 <= i < listed.len() && listed[i].0 == phase && (exists|a: int|
                    0 <= a < active.len() && #[trigger] active[a]@ == listed[i].1@) && reg.spec_get(listed[i].1@)
                    == Some(hooks_for_phase(listed, phase, active, reg)[j]),
        active.len() == 0 ==> hooks_for_phase(listed, phase, active, reg).len() == 0,
    decreases listed.len(),
{
    let res = hooks_for_phase(listed, phase, active, reg);
    if listed.len() > 0 {
        let prev = listed.drop_last();
        let rest = hooks_for_phase(prev, phase, active, reg);
        lemma_gated_hooks_need_install(prev, phase, active, reg);
        assert forall|j: int| #![trigger res[j]] 0 <= j < res.len() implies exists|i: int|
            #![trigger listed[i]]
            0 <= i < listed.len() && listed[i].0 == phase && (exists|a: int|
                0 <= a < active.len() && #[trigger] active[a]@ == listed[i].1@) && reg.spec_get(listed[i].1@) == Some(
                res[j],
            ) by {
            if j < rest.len() {
                assert(res[j] == rest[j]);
                let i = choose|i: int|
                    #![trigger prev[i]]
                    0 <= i < prev.len() && prev[i].0 == phase && (exists|a: int|
                        0 <= a < active.len() && #[trigger] active[a]@ == prev[i].1@) && reg.spec_get(prev[i].1@)
                        == Some(rest[j]);
                assert(listed[i] == prev[i]);
            } else {
                let i = listed.len() - 1;
                assert(listed[i] == listed.last());
            }
        }
        if active.len() == 0 && res.len() > 0 {
            assert(res[0] == res[0]);
        }
    }
}

/// Every hook the ability lists for the phase, that the caster has installed and the registry
/// knows, is selected.
pub proof fn lemma_gated_hooks_installed_run(
    listed: Seq<(HookPhase, String)>,
    phase: HookPhase,
    active: Seq<String>,
    reg: HookRegistry,
    i: int,
)
    requires
        0 <= i < listed.len(),
        listed[i].0 == phase,
        exists|a: int| 0 <= a < active.len() && #[trigger] active[a]@ == listed[i].1@,
        reg.spec_get(listed[i].1@) is Some,
    ensures
        hooks_for_phase(listed, phase, active, reg).contains(reg.spec_get(listed[i].1@)->0),
    decreases listed.len(),
{
    let res = hooks_for_phase(listed, phase, active, reg);
    let k = reg.spec_get(listed[i].1@)->0;
    let prev = listed.drop_last();
    let rest = hooks_for_phase(prev, phase, active, reg);
    if i == listed.len() - 1 {
        assert(listed.last() == listed[i]);
        assert(res[res.len() - 1] == k);
    } else {
        assert(prev[i] == listed[i]);
        lemma_gated_hooks_installed_run(prev, phase, active, reg, i);
        let j = choose|j: int| 0 <= j < rest.len() && rest[j] == k;
        assert(res[j] == rest[j]);
    }
}

/// Innate hooks run whatever is installed: every innate hook selected for a phase comes from an
/// innate entry for that phase that the registry knows, and every such entry's hook is selected.
pub proof fn lemma_innate_hooks_always_run(
    innate: Seq<(HookPhase, String)>,
    phase: HookPhase,
    reg: HookRegistry,
    i: int,
)
    ensures
        innate_hooks_for_phase(innate, phase, reg).len() <= innate.len(),
        forall|j: int|
            #![trigger innate_hooks_for_phase(innate, phase, reg)[j]]
            0 <= j < innate_hooks_for_phase(innate, phase, reg).len() ==> exists|e: int|
                #![trigger innate[e]]
                0 <= e < innate.len() && innate[e].0 == phase && reg.spec_get(innate[e].1@) == Some(
                    innate_hooks_for_phase(innate, phase, reg)[j],
                ),
        0 <= i < innate.len() && innate[i].0 == phase && reg.spec_get(innate[i].1@) is Some
            ==> innate_hooks_for_phase(innate, phase, reg).contains(reg.spec_get(innate[i].1@)->0),
    decreases innate.len(),
{
    let res = innate_hooks_for_phase(innate, phase, reg);
    if innate.len() > 0 {
        let prev = innate.drop_last();
        let rest = innate_hooks_for_phase(prev, phase, reg);
        lemma_innate_hooks_always_run(prev, phase, reg, i);
        assert forall|j: int| #![trigger res[j]] 0 <= j < res.len() implies exists|e: int|
            #![trigger innate[e]]
            0 <= e < innate.len() && innate[e].0 == phase && reg.spec_get(innate[e].1@) == Some(res[j]) by {
            if j < rest.len() {
                assert(res[j] == rest[j]);
                let e = choose|e: int|
                    #![trigger prev[e]]
                    0 <= e < prev.len() && prev[e].0 == phase && reg.spec_get(prev[e].1@) == Some(rest[j]);
                assert(innate[e] == prev[e]);
            } else {
                let e = innate.len() - 1;
                assert(innate[e] == innate.last());
            }
        }
        if 0 <= i < innate.len() && innate[i].0 == phase && reg.spec_get(innate[i].1@) is Some {
            let k = reg.spec_get(innate[i].1@)->0;
            if i == innate.len() - 1 {
                assert(innate.last() == innate[i]);
                assert(res[res.len() - 1] == k);
            } else {
                assert(prev[i] == innate[i]);
                let j = choose|j: int| 0 <= j < rest.len() && rest[j] == k;
                assert(res[j] == rest[j]);
            }
        }
    }
}

} // verus!
