use hero_arena::behavior::{BehaviorKind, BehaviorRegistry};
use hero_arena::cast::{
    cast_vfx_tag, check_cast, should_auto_cast, whiff_keeps_cooldown, Activation, CastCheck, CastVfxTag,
};
use hero_arena::def_library::DefLibrary;
use hero_arena::effects::{carries_status, resolve_targets, EffectTarget};
use hero_arena::hooks::{cast_hooks, contains_id, hooks_to_run, innate_hooks_to_run, HookKind, HookPhase, HookRegistry};

#[test]
fn nearest_melee_needs_no_aim() {
    assert!(!BehaviorKind::NearestMelee.needs_aim());
}

#[test]
fn channel_while_moving_needs_no_aim() {
    assert!(!BehaviorKind::ChannelWhileMoving.needs_aim());
}

#[test]
fn leap_to_target_needs_no_aim() {
    assert!(!BehaviorKind::LeapToTarget.needs_aim());
}

/// A stand-in for an asset handle.
#[derive(Debug, Clone, PartialEq)]
struct DummyHandle(u32);

#[test]
fn get_returns_handle_for_known_id_and_none_for_unknown() {
    let mut lib: DefLibrary<DummyHandle> = DefLibrary::default();
    let handle = DummyHandle(7);
    lib.insert("known".to_string(), handle.clone());
    assert_eq!(lib.get("known"), Some(&handle));
    assert!(lib.get("missing").is_none());
}

#[test]
fn def_library_reinsert_replaces_and_keeps_one_entry() {
    let mut lib: DefLibrary<u32> = DefLibrary::new();
    lib.insert("grunt".to_string(), 1);
    lib.insert("runner".to_string(), 2);
    lib.insert("grunt".to_string(), 3);
    assert_eq!(lib.get("grunt"), Some(&3));
    assert_eq!(lib.get("runner"), Some(&2));
    assert_eq!(lib.len(), 2);
    assert_eq!(*lib.value_at(0), 3);
    assert_eq!(*lib.value_at(1), 2);
}

#[test]
fn aimed_shapes_need_aim_and_self_centred_do_not() {
    for k in [
        BehaviorKind::MeleeCone,
        BehaviorKind::Projectile,
        BehaviorKind::Blink,
        BehaviorKind::HammerCleave,
        BehaviorKind::TargetedBurst,
    ] {
        assert!(k.needs_aim(), "{:?}", k);
    }
    for k in [
        BehaviorKind::SelfNova,
        BehaviorKind::ContactMelee,
        BehaviorKind::DroppedZone,
        BehaviorKind::Summon,
        BehaviorKind::Grip,
        BehaviorKind::Orbiting,
        BehaviorKind::Bloom,
    ] {
        assert!(!k.needs_aim(), "{:?}", k);
    }
}

#[test]
fn only_contact_melee_keeps_cooldown_on_whiff() {
    assert!(!BehaviorKind::ContactMelee.consumes_cooldown_on_whiff());
    assert!(BehaviorKind::MeleeCone.consumes_cooldown_on_whiff());
    assert!(BehaviorKind::SelfNova.consumes_cooldown_on_whiff());
}

#[test]
fn builtin_behavior_registry_resolves_every_shipped_id() {
    let reg = BehaviorRegistry::builtin();
    assert_eq!(reg.get("melee_cone"), Some(BehaviorKind::MeleeCone));
    assert_eq!(reg.get("projectile"), Some(BehaviorKind::Projectile));
    assert_eq!(reg.get("self_nova"), Some(BehaviorKind::SelfNova));
    assert_eq!(reg.get("contact_melee"), Some(BehaviorKind::ContactMelee));
    assert_eq!(reg.get("dropped_zone"), Some(BehaviorKind::DroppedZone));
    assert_eq!(reg.get("blink"), Some(BehaviorKind::Blink));
    assert_eq!(reg.get("summon"), Some(BehaviorKind::Summon));
    assert_eq!(reg.get("nearest_melee"), Some(BehaviorKind::NearestMelee));
    assert_eq!(reg.get("grip"), Some(BehaviorKind::Grip));
    assert_eq!(reg.get("orbiting"), Some(BehaviorKind::Orbiting));
    assert_eq!(reg.get("hammer_cleave"), Some(BehaviorKind::HammerCleave));
    assert_eq!(reg.get("channel_while_moving"), Some(BehaviorKind::ChannelWhileMoving));
    assert_eq!(reg.get("leap_to_target"), Some(BehaviorKind::LeapToTarget));
    assert_eq!(reg.get("bloom"), Some(BehaviorKind::Bloom));
    assert_eq!(reg.get("targeted_burst"), Some(BehaviorKind::TargetedBurst));
    assert_eq!(reg.get("periodic_self_zone"), None);
}

#[test]
fn registering_a_behavior_overrides_only_its_id() {
    let mut reg = BehaviorRegistry::builtin();
    reg.register("blink", BehaviorKind::LeapToTarget);
    assert_eq!(reg.get("blink"), Some(BehaviorKind::LeapToTarget));
    assert_eq!(reg.get("bloom"), Some(BehaviorKind::Bloom));
}

#[test]
fn builtin_hook_registry_resolves_every_shipped_id() {
    let reg = HookRegistry::builtin();
    assert_eq!(reg.get("blood_boil_dnd_range"), Some(HookKind::BloodBoilDndRange));
    assert_eq!(reg.get("heart_strike_missing_health"), Some(HookKind::HeartStrikeMissingHealth));
    assert_eq!(reg.get("heart_strike_execute_bonus"), Some(HookKind::HeartStrikeExecuteBonus));
    assert_eq!(reg.get("bdk_dnd_damage_boost"), Some(HookKind::BdkDndDamageBoost));
    assert_eq!(reg.get("bdk_no_heal_cap"), Some(HookKind::BdkNoHealCapLeechBoost));
    assert_eq!(reg.get("frost_impale_glacial_spike"), Some(HookKind::FrostImpaleGlacialSpike));
    assert_eq!(reg.get("frost_impale_deep_freeze"), Some(HookKind::FrostImpaleDeepFreeze));
    assert_eq!(reg.get("flamewrath_no_consume"), Some(HookKind::FlamewrathNoConsume));
    assert_eq!(reg.get("bone_shield_on_kill"), None);
}

#[test]
fn hooks_run_only_when_listed_for_the_phase_installed_and_registered() {
    let reg = HookRegistry::builtin();
    let listed = vec![
        (HookPhase::Pre, "bdk_dnd_damage_boost".to_string()),
        (HookPhase::Post, "bone_shield_on_kill".to_string()),
        (HookPhase::Pre, "bdk_no_heal_cap".to_string()),
        (HookPhase::Pre, "blood_boil_dnd_range".to_string()),
        (HookPhase::Pre, "not_registered".to_string()),
    ];
    let active = vec![
        "bdk_no_heal_cap".to_string(),
        "bdk_dnd_damage_boost".to_string(),
        "bone_shield_on_kill".to_string(),
        "not_registered".to_string(),
    ];
    assert_eq!(
        hooks_to_run(&listed, HookPhase::Pre, &active, &reg),
        vec![HookKind::BdkDndDamageBoost, HookKind::BdkNoHealCapLeechBoost]
    );
    assert!(hooks_to_run(&listed, HookPhase::Post, &active, &reg).is_empty());
    assert!(contains_id(&active, &"bone_shield_on_kill".to_string()));
    assert!(!contains_id(&active, &"blood_boil_dnd_range".to_string()));
}

#[test]
fn cast_gate_checks_in_order() {
    assert_eq!(check_cast(false, true, Some(BehaviorKind::MeleeCone), true), CastCheck::NotReady);
    assert_eq!(check_cast(true, false, Some(BehaviorKind::MeleeCone), true), CastCheck::NotLoaded);
    assert_eq!(check_cast(true, true, None, true), CastCheck::UnregisteredBehavior);
    assert_eq!(check_cast(true, true, Some(BehaviorKind::MeleeCone), false), CastCheck::NeedsAim);
    assert_eq!(
        check_cast(true, true, Some(BehaviorKind::SelfNova), false),
        CastCheck::Fire(BehaviorKind::SelfNova)
    );
    assert_eq!(
        check_cast(true, true, Some(BehaviorKind::Projectile), true),
        CastCheck::Fire(BehaviorKind::Projectile)
    );
}

#[test]
fn contact_whiff_keeps_the_cooldown_other_whiffs_commit() {
    assert!(whiff_keeps_cooldown(BehaviorKind::ContactMelee, true, false));
    assert!(!whiff_keeps_cooldown(BehaviorKind::ContactMelee, false, false));
    assert!(!whiff_keeps_cooldown(BehaviorKind::MeleeCone, true, false));
    assert!(!whiff_keeps_cooldown(BehaviorKind::ContactMelee, true, true));
}

#[test]
fn auto_cast_fires_only_ready_unsuppressed_autocast_abilities() {
    assert!(should_auto_cast(true, false, Some(Activation::AutoCast)));
    assert!(!should_auto_cast(true, false, Some(Activation::Input)));
    assert!(!should_auto_cast(true, true, Some(Activation::AutoCast)));
    assert!(!should_auto_cast(false, false, Some(Activation::AutoCast)));
    assert!(!should_auto_cast(true, false, None));
    assert_eq!(Activation::default(), Activation::Input);
}

#[test]
fn only_self_nova_casts_flash_a_nova() {
    assert_eq!(cast_vfx_tag("self_nova"), CastVfxTag::Nova);
    assert_eq!(cast_vfx_tag("melee_cone"), CastVfxTag::Other);
}

#[test]
fn effect_targets_map_to_hits_primary_or_caster() {
    let hits = vec![4u64, 5, 6];
    assert_eq!(resolve_targets(EffectTarget::AllHits, &hits, Some(5), 1), vec![4, 5, 6]);
    assert_eq!(resolve_targets(EffectTarget::PrimaryHit, &hits, Some(5), 1), vec![5]);
    assert!(resolve_targets(EffectTarget::PrimaryHit, &hits, None, 1).is_empty());
    assert_eq!(resolve_targets(EffectTarget::Caster, &hits, Some(5), 1), vec![1]);
}

#[test]
fn status_lookup_matches_target_and_id() {
    let statuses = vec![(3u64, "bleed".to_string()), (4u64, "frostbite".to_string())];
    assert!(carries_status(&statuses, 4, "frostbite"));
    assert!(!carries_status(&statuses, 3, "frostbite"));
    assert!(carries_status(&statuses, 3, "bleed"));
    assert!(!carries_status(&Vec::new(), 3, "bleed"));
}

#[test]
fn innate_hooks_run_without_being_installed_and_before_talent_hooks() {
    let reg = HookRegistry::builtin();
    let innate = vec![
        (HookPhase::Pre, "heart_strike_missing_health".to_string()),
        (HookPhase::Post, "heart_strike_execute_bonus".to_string()),
        (HookPhase::Pre, "not_registered".to_string()),
    ];
    let listed = vec![(HookPhase::Pre, "heart_strike_execute_bonus".to_string())];
    let nothing_installed: Vec<String> = Vec::new();
    assert_eq!(
        innate_hooks_to_run(&innate, HookPhase::Pre, &reg),
        vec![HookKind::HeartStrikeMissingHealth]
    );
    assert_eq!(
        cast_hooks(&innate, &listed, HookPhase::Pre, &nothing_installed, &reg),
        vec![HookKind::HeartStrikeMissingHealth]
    );
    let installed = vec!["heart_strike_execute_bonus".to_string()];
    assert_eq!(
        cast_hooks(&innate, &listed, HookPhase::Pre, &installed, &reg),
        vec![HookKind::HeartStrikeMissingHealth, HookKind::HeartStrikeExecuteBonus]
    );
    assert_eq!(
        cast_hooks(&innate, &listed, HookPhase::Post, &installed, &reg),
        vec![HookKind::HeartStrikeExecuteBonus]
    );
}

#[test]
fn registration_order_lists_each_registered_definition_once() {
    let mut lib: DefLibrary<u32> = DefLibrary::new();
    lib.insert("grunt".to_string(), 1);
    lib.insert("runner".to_string(), 2);
    lib.insert("brute".to_string(), 3);
    lib.insert("runner".to_string(), 4);
    let listed: Vec<u32> = (0..lib.len()).map(|i| *lib.value_at(i)).collect();
    assert_eq!(listed, vec![1, 4, 3]);
    for (i, id) in ["grunt", "runner", "brute"].iter().enumerate() {
        assert_eq!(lib.get(id), Some(lib.value_at(i)));
    }
}
