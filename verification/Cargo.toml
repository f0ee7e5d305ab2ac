[package]
name = "game_of_life"
version = "0.1.0"
edition = "2021"
publish = false

[dependencies]
rand = "0.7"
serde = { version = "1", features = ["derive"] }
gtk = "0.9"
gio = "0.9"
glib = "0.10"
cairo-rs = "0.9"
