[package]
name = "node-provider-labeler"
version = "0.1.0"
edition = "2021"
publish = false

[dependencies]
axum = "=0.7.9"
clap = { version = "=4.6.7", features = ["derive"] }
futures = "=0.3.34"
k8s-openapi = { version = "=0.27.1", features = ["latest"] }
kube = { version = "=3.1.0", default-features = false, features = ["client", "runtime"] }
prometheus = "=0.13.4"
thiserror = "=1.0.69"
time = "=0.3.55"
tokio = { version = "=1.54.1", features = ["macros", "rt-multi-thread", "signal", "net", "sync", "time"] }
tracing = "=0.1.44"
tracing-subscriber = "=0.3.23"
ttl-queue = "=0.2.0"
