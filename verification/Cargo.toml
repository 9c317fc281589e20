[package]
name = "cycle_cost"
version = "0.1.0"
edition = "2021"
publish = false

[dependencies]
anyhow = "*"
candid = "*"
clap = { version = "*", features = ["derive"] }
ic-agent = "*"
ic-utils = "*"
tokio = { version = "*", features = ["macros", "rt-multi-thread"] }
