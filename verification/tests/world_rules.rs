use hero_arena::archetypes::{pick_weighted, select_weighted, sum_weights};
use hero_arena::bone_shield::count_kill;
use hero_arena::components::{Faction, GridPosition};
use hero_arena::enemy::AiBehavior;
use hero_arena::flow_field::FlowField;
use hero_arena::state::{toggle_pause, GameState};
use hero_arena::taunt::{reconcile_taunt, TauntChange};
use hero_arena::unlock::plan_unlock_spawns;

#[test]
fn opposing_faction_swaps_sides_and_is_an_involution() {
    assert_eq!(Faction::Friendly.opposing(), Faction::Hostile);
    assert_eq!(Faction::Hostile.opposing(), Faction::Friendly);
    assert_eq!(Faction::Friendly.opposing().opposing(), Faction::Friendly);
}

#[test]
fn flow_field_costs_are_octile_distances_over_the_whole_square() {
    let player = GridPosition { x: 3, y: -2 };
    let field = FlowField::from_player(player);
    for dx in -50i32..=50 {
        for dy in -50i32..=50 {
            let pos = GridPosition { x: player.x + dx, y: player.y + dy };
            let (a, b) = (dx.abs() as u32, dy.abs() as u32);
            let octile = 10 * a.max(b) + 4 * a.min(b);
            assert_eq!(field.cost_at(pos), Some(octile), "cost at offset ({dx}, {dy})");
            let expected_dir = if dx == 0 && dy == 0 { None } else { Some((-dx.signum(), -dy.signum())) };
            assert_eq!(field.direction_at(pos), expected_dir, "direction at offset ({dx}, {dy})");
        }
    }
}

#[test]
fn flow_field_covers_nothing_beyond_the_radius() {
    let player = GridPosition { x: 0, y: 0 };
    let field = FlowField::from_player(player);
    assert_eq!(field.cost_at(GridPosition { x: 51, y: 0 }), None);
    assert_eq!(field.cost_at(GridPosition { x: 0, y: -51 }), None);
    assert_eq!(field.direction_at(GridPosition { x: 51, y: 51 }), None);
    assert_eq!(field.cost_at(GridPosition { x: 50, y: 50 }), Some(700));
    assert_eq!(field.cost_at(GridPosition { x: 1, y: 0 }), Some(10));
    assert_eq!(field.cost_at(GridPosition { x: 1, y: 1 }), Some(14));
    assert_eq!(field.direction_at(GridPosition { x: 1, y: 0 }), Some((-1, 0)));
}

#[test]
fn default_flow_field_is_empty() {
    let field = FlowField::default();
    assert_eq!(field.cost_at(GridPosition { x: 0, y: 0 }), None);
    assert_eq!(field.direction_at(GridPosition { x: 0, y: 0 }), None);
}

#[test]
fn following_the_field_walks_to_the_player() {
    let player = GridPosition { x: -7, y: 12 };
    let field = FlowField::from_player(player);
    let mut pos = GridPosition { x: player.x + 37, y: player.y - 20 };
    let mut steps = 0;
    while let Some((dx, dy)) = field.direction_at(pos) {
        let here = field.cost_at(pos).unwrap();
        pos = GridPosition { x: pos.x + dx, y: pos.y + dy };
        assert!(field.cost_at(pos).unwrap() < here);
        steps += 1;
    }
    assert_eq!(pos, player);
    assert_eq!(steps, 37);
}

#[test]
fn weighted_selection_follows_cumulative_weights() {
    let weights = vec![6u32, 3, 1];
    assert_eq!(sum_weights(&weights), 10);
    assert_eq!(select_weighted(&weights, 0), 0);
    assert_eq!(select_weighted(&weights, 5), 0);
    assert_eq!(select_weighted(&weights, 6), 1);
    assert_eq!(select_weighted(&weights, 8), 1);
    assert_eq!(select_weighted(&weights, 9), 2);
    let skipping = vec![0u32, 2, 0, 1];
    assert_eq!(select_weighted(&skipping, 0), 1);
    assert_eq!(select_weighted(&skipping, 2), 3);
}

#[test]
fn weighted_pick_never_picks_a_zero_weight_and_none_when_all_zero() {
    assert_eq!(pick_weighted(&vec![0u32, 0]), None);
    assert_eq!(pick_weighted(&Vec::new()), None);
    for _ in 0..200 {
        let i = pick_weighted(&vec![0u32, 4, 0, 1]).unwrap();
        assert!(i == 1 || i == 3);
    }
}

#[test]
fn unlocks_spawn_once_per_owner_and_ability() {
    let existing = vec![(1u64, "death_strike".to_string())];
    let requests = vec![
        (1u64, "death_strike".to_string()),
        (1u64, "dnd".to_string()),
        (2u64, "dnd".to_string()),
        (1u64, "dnd".to_string()),
    ];
    assert_eq!(
        plan_unlock_spawns(&existing, &requests),
        vec![(1u64, "dnd".to_string()), (2u64, "dnd".to_string())]
    );
    assert!(plan_unlock_spawns(&existing, &Vec::new()).is_empty());
}

#[test]
fn bone_shield_grants_one_shield_per_threshold_kills() {
    let c = count_kill(0, 3);
    assert_eq!((c.progress, c.shields), (1, 0));
    let c = count_kill(2, 3);
    assert_eq!((c.progress, c.shields), (0, 1));
    let c = count_kill(0, 1);
    assert_eq!((c.progress, c.shields), (0, 1));
    let c = count_kill(7, 3);
    assert_eq!((c.progress, c.shields), (2, 2));
}

#[test]
fn taunt_marker_follows_the_nearest_taunter() {
    assert_eq!(reconcile_taunt(Some(9), Some(9)), TauntChange::Keep);
    assert_eq!(reconcile_taunt(Some(9), Some(4)), TauntChange::Redirect(9));
    assert_eq!(reconcile_taunt(Some(9), None), TauntChange::Redirect(9));
    assert_eq!(reconcile_taunt(None, Some(4)), TauntChange::Clear);
    assert_eq!(reconcile_taunt(None, None), TauntChange::Keep);
}

#[test]
fn pause_toggles_only_between_play_and_pause() {
    assert_eq!(toggle_pause(GameState::InRun), Some(GameState::Paused));
    assert_eq!(toggle_pause(GameState::Paused), Some(GameState::InRun));
    assert_eq!(toggle_pause(GameState::TalentPicker), None);
    assert_eq!(toggle_pause(GameState::Menu), None);
    assert_eq!(GameState::default(), GameState::InRun);
}

#[test]
fn ai_ids_map_to_behaviors_with_melee_fallback() {
    assert_eq!(AiBehavior::from_id("ranged_caster"), AiBehavior::RangedCaster);
    assert_eq!(AiBehavior::from_id("stationary"), AiBehavior::Stationary);
    assert_eq!(AiBehavior::from_id("melee_chaser"), AiBehavior::MeleeChaser);
    assert_eq!(AiBehavior::from_id("boss"), AiBehavior::MeleeChaser);
}

#[test]
fn each_entry_owns_as_many_rolls_as_its_weight() {
    let weights = vec![6u32, 3, 0, 1];
    let mut counts = vec![0u32; weights.len()];
    for roll in 0..sum_weights(&weights) {
        counts[select_weighted(&weights, roll)] += 1;
    }
    assert_eq!(counts, weights);
}

#[test]
fn replaying_unlock_requests_plans_nothing() {
    let mut owned = vec![(1u64, "death_strike".to_string())];
    let requests = vec![
        (1u64, "dnd".to_string()),
        (2u64, "dnd".to_string()),
        (1u64, "death_strike".to_string()),
        (1u64, "dnd".to_string()),
    ];
    let first = plan_unlock_spawns(&owned, &requests);
    assert_eq!(first.len(), 2);
    owned.extend(first);
    assert!(plan_unlock_spawns(&owned, &requests).is_empty());
}
