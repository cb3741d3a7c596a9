[package]
name = "ilium"
version = "0.1.0"
edition = "2021"
publish = false

[dependencies]
hashbrown = "=0.15.5"
rand = "=0.9.5"
kanal = "=0.1.1"
tokio = { version = "=1.54.1", features = ["rt-multi-thread", "macros", "net", "sync", "time", "io-util"] }
fastwebsockets = { version = "=0.10.0", features = ["upgrade", "with_axum", "unstable-split"] }
axum = "=0.8.9"
serde = { version = "=1.0.229", features = ["derive"] }
bitcode = { version = "=0.6.9", features = ["serde"] }
bincode = { version = "=2.0.1", features = ["serde"] }
eyre = "=0.6.14"
codee = "=0.3.5"
