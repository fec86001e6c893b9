[package]
name = "blastcap"
version = "0.1.0"
edition = "2021"
publish = false

[dependencies]
rand = "=0.9.5"
pathfinding = "=4.16.0"
noise = "=0.9.0"
anyhow = "=1.0.104"
async-trait = "=0.1.92"
smol = "=2.0.2"
tokio = { version = "=1.54.1", features = ["rt", "rt-multi-thread", "net", "io-util", "sync", "time", "macros"] }
futures = "=0.3.34"
futures-concurrency = "=7.7.1"
rkyv = "=0.8.18"
serde = { version = "=1.0.229", features = ["derive"] }
toml = "1.2.1"
walkdir = "=2.5.0"
rapidhash = "=4.5.1"
tracing = "=0.1.44"
tracing-subscriber = { version = "=0.3.23", features = ["env-filter"] }
strip-ansi-escapes = "=0.2.1"
oneshot = "=0.2.1"
steamworks = "=0.13.1"
syn = { version = "=2.0.119", features = ["full"] }
quote = "=1.0.47"
proc-macro2 = { version = "=1.0.107", features = ["span-locations"] }
convert_case = "=0.12.0"
