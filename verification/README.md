# hero_arena

Gameplay rules of a top-down action RPG, written in Verus and proved against their contracts,
with a thin Bevy shell around them.

## Layout

- `src/` — the verified library.
  - `flow_field.rs`: the breadth-first flow field that steers chasing enemies toward the
    player. Its contract pins every tile of the square around the player: the cost is the
    octile distance (10 per straight move, 14 per diagonal move) and the step points one king
    move back toward the player; `lemma_walk_reaches_player` shows that following the steps
    reaches the player with strictly falling cost.
  - `archetypes.rs`: weighted selection (`select_weighted` for a given roll, `pick_weighted`
    with a random roll) and the law that each entry owns exactly its weight's share of rolls.
  - `def_library.rs`: the id → definition registry; `behavior.rs` and `hooks.rs` build the
    behavior and hook registries on it and decide which hooks a cast runs.
  - `cast.rs`: the cast gate (cooldown, loaded definition, registered behavior, aim), auto-cast
    and whiff rules; `effects.rs`: effect scopes and status lookups.
  - `unlock.rs`: idempotent ability unlocks; `bone_shield.rs`: the kill counter;
    `taunt.rs`: taunt reconciliation; `state.rs`: the pause toggle; `components.rs`,
    `events.rs`, `sets.rs`, `enemy.rs`, `constants.rs`: the plain data they share.
- `tests/` — executable tests of the library.
- `app/` — the Bevy plugins, components and systems: floating-point geometry, timers, asset
  loading, and the glue that hands integer decisions to the library.
