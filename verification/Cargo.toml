[package]
name = "dispatch_core"
version = "0.1.0"
edition = "2021"
publish = false

[dependencies]
bb8-redis = "*"
chrono = "*"
slog = "*"
