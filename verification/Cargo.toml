[package]
name = "league_scheduler"
version = "0.1.0"
edition = "2021"
publish = false

[dependencies]
itertools = "0.13"
rayon = "1"
serde = { version = "1", features = ["derive"] }
serde_json = "1"
iced = { version = "0.13", default-features = false, features = ["tiny-skia"] }
rfd = { version = "0.15", default-features = false, features = ["xdg-portal", "tokio"] }
