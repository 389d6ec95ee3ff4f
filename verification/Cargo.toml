[package]
name = "gantry"
version = "0.1.0"
edition = "2021"
publish = false

[dependencies]
axum = { version = "0.8", features = ["ws"] }
bollard = "0.18"
chrono = "0.4"
clap = { version = "4", features = ["derive"] }
futures = "0.3"
indexmap = { version = "2", features = ["serde"] }
petgraph = "0.7"
regex = "1"
reqwest = { version = "0.12", default-features = false, features = ["json"] }
serde = { version = "1", features = ["derive"] }
serde_json = { version = "1", features = ["preserve_order"] }
serde_yaml = "0.9"
tera = "1"
tokio = { version = "1", features = ["full"] }
tracing = "0.1"
tracing-subscriber = { version = "0.3", features = ["env-filter"] }
