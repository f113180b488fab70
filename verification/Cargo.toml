[package]
name = "kwbot"
version = "0.1.0"
edition = "2021"
publish = false

[dependencies]
rand = "=0.8.5"
chrono = "0.4"
diesel = { version = "2", features = ["postgres", "r2d2"] }
redis = "*"
serde = { version = "1", features = ["derive"] }
serenity = "0.11"
tokio = { version = "1", features = ["macros", "rt-multi-thread"] }
toml = "*"
