[package]
name = "bup"
version = "0.1.0"
edition = "2021"
publish = false

[dependencies]
anyhow = "*"
async-trait = "*"
base64 = "*"
blake3 = "*"
chrono = "*"
clap = { version = "*", features = ["derive"] }
futures = "*"
humansize = "*"
object_store = "*"
rayon = "*"
tokio = { version = "*", features = ["rt-multi-thread", "macros", "sync", "fs"] }
tracing = "*"
tracing-subscriber = "*"

[dev-dependencies]
rand = "*"
