[package]
name = "jotx"
version = "0.1.0"
edition = "2021"
publish = false

[dependencies]
regex = "*"
rusqlite = { version = "*", features = ["bundled"] }
chrono = "*"
serde = { version = "*", features = ["derive"] }
serde_json = "*"
toml = "*"
clap = { version = "*", features = ["derive"] }
crossbeam-channel = "*"
ctrlc = "*"
dirs = "*"
rhai = "*"
reqwest = { version = "*", default-features = false, features = ["json"] }
tokio = { version = "*", features = ["rt-multi-thread", "macros", "time"] }
async-trait = "*"
