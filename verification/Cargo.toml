[package]
name = "exec_log_analyzer"
version = "0.1.0"
edition = "2021"
publish = false

[dependencies]
zstd = "*"
clap = { version = "*", features = ["derive"] }
thiserror = "*"

[dev-dependencies]
prost = "*"
