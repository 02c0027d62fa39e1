[package]
name = "bridge_checker"
version = "0.1.0"
edition = "2021"
publish = false

[dependencies]
anyhow = "1"
chrono = { version = "=0.4.45", default-features = false, features = ["std", "now", "serde"] }
futures = "0.3"
serde = { version = "1", features = ["derive"] }
thiserror = "1"
tokio = { version = "1", features = ["macros", "rt-multi-thread", "sync", "time", "net", "io-util"] }
tor-error = "=0.47.0"
tor-guardmgr = { version = "=0.47.0", features = ["bridge-client", "pt-client"] }
tor-linkspec = "=0.47.0"
tor-proto = "=0.47.0"
tracing = "0.1"
tracing-subscriber = { version = "0.3", default-features = false, features = ["fmt"] }
