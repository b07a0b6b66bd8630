[package]
name = "kanban_planner"
version = "0.1.0"
edition = "2021"
publish = false

[dependencies]
ulid = { version = "1", features = ["serde"] }
chrono = "0.4"
serde = { version = "1", features = ["derive"] }
serde_json = "1"
thiserror = "2"
tracing = "0.1"
tracing-subscriber = { version = "0.3", features = ["env-filter", "fmt", "registry"] }
tracing-appender = "0.2"
toml = "0.8"
web-sys = { version = "0.3", features = ["Window", "Storage"] }
