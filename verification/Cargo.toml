[package]
name = "file_sharing_example"
version = "0.1.0"
edition = "2021"
publish = false

[dependencies]
prost = "0.11"
bytes = "1"
libp2p = { version = "0.54", features = ["identify", "ping", "rendezvous", "request-response", "macros", "tokio", "tcp", "dns", "noise", "yamux"] }
futures = "0.3"
futures-timer = "3"
tokio = { version = "1", features = ["macros", "rt-multi-thread", "fs", "io-std", "io-util"] }
tokio-util = { version = "0.7", features = ["codec", "compat"] }
tokio-stream = { version = "0.1", features = ["fs"] }
async-trait = "0.1"
smallvec = "1"
thiserror = "1"
anyhow = "1"
clap = { version = "4", features = ["derive"] }
tracing = "0.1"
tracing-subscriber = "0.3"
void = "1"
