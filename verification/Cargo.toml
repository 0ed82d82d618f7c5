[package]
name = "ghost_hunter"
version = "0.1.0"
edition = "2021"
publish = false

[dependencies]
anyhow = "1"
aya = "0.13"
aya-ebpf = "0.1"
rand = { version = "0.8", features = ["small_rng"] }
static_assertions = "1"
tokio = { version = "1", features = ["rt-multi-thread", "macros", "sync", "signal", "net"] }
tokio-util = "0.7"
tracing = "0.1"
tracing-subscriber = { version = "0.3", features = ["env-filter"] }
