//! Verified gameplay rules of a top-down action RPG: factions, the grid flow field that steers
//! chasing enemies, weighted enemy selection, id registries for definitions, behaviors and
//! hooks, ability cast gating, unlock bookkeeping, kill-counter rewards, taunt reconciliation
//! and the pause toggle of the game-state machine.
pub mod constants;
pub mod components;
pub mod events;
pub mod sets;
pub mod flow_field;
pub mod def_library;
pub mod behavior;
pub mod hooks;
pub mod cast;
pub mod effects;
pub mod unlock;
pub mod bone_shield;
pub mod taunt;
pub mod state;
pub mod archetypes;
pub mod enemy;
