[package]
name = "acorn_dfs"
version = "0.1.0"
edition = "2021"
publish = false

[dependencies]
arrayvec = "0.7"
clap = { version = "4", features = ["derive"] }
mmap-io = "*"
serde = { version = "1", features = ["derive"] }
serde_json = "1"
thiserror = "2"

[dev-dependencies]
winnow = "0.7"
