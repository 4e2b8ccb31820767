[package]
name = "mcts_bot"
version = "0.1.0"
edition = "2021"
publish = false

[dependencies]
chess = "3"
rand = "0.7"
tokio = { version = "1", features = ["full"] }
tokio-stream = "*"
lichess-api = "*"
reqwest = "*"
serde = { version = "1", features = ["derive"] }
serde_json = "1"
log = "0.4"
env_logger = "*"
plotters = "*"
project-root = "*"
