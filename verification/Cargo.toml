[package]
name = "hero_arena"
version = "0.1.0"
edition = "2021"
publish = false

[dependencies]
rand = "0.8"
serde = { version = "1", features = ["derive"] }
ron = "0.8"
bevy = { version = "0.16", default-features = false, features = ["std", "bevy_state", "bevy_asset", "bevy_color", "bevy_log"] }
