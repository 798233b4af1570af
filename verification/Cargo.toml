[package]
name = "turtle_build"
version = "0.1.0"
edition = "2021"
publish = false

[dependencies]
async-trait = "*"
clap = { version = "*", features = ["derive"] }
futures = "*"
num_cpus = "*"
tokio = { version = "*", features = ["macros", "process", "rt-multi-thread", "sync", "time"] }
