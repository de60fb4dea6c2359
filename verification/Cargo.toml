[package]
name = "goldendict_ng_helper"
version = "0.1.0"
edition = "2021"
publish = false

[dependencies]
anyhow = "1"
chrono = { version = "0.4", features = ["serde"] }
clap = { version = "4", features = ["derive"] }
csv = "1"
cursive = "*"
dirs = "*"
futures = "0.3"
rand = "0.9"
roxmltree = "*"
rs-fsrs = "*"
serde = { version = "1", features = ["derive"] }
serde_json = "1"
sqlx = { version = "0.8", default-features = false, features = ["sqlite", "runtime-tokio"] }
strsim = "*"
tokio = { version = "1", features = ["rt-multi-thread", "macros"] }
urlencoding = "2"
walkdir = "2"
word2vec = "*"
