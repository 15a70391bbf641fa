[package]
name = "boggle_solver"
version = "0.1.0"
edition = "2021"
publish = false

[dependencies]
axum = "0.4"
itertools = "0.10"
regex = "1"
sequence_trie = "0.3"
serde = { version = "1", features = ["derive"] }
tokio = { version = "1", features = ["full"] }
tracing = "0.1"
tracing-subscriber = "0.3"
