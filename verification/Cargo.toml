[package]
name = "experiment_github_star"
version = "0.1.0"
edition = "2021"
publish = false

[dependencies]
anyhow = "1"
csv = "1"
dotenv = "0.15"
futures = "0.3"
itertools = "0.13"
reqwest = { version = "0.12", features = ["json"] }
rig-core = "0.6"
schemars = "0.8"
serde = { version = "1", features = ["derive"] }
serde_json = "1"
tokio = { version = "1", features = ["macros", "rt-multi-thread"] }
