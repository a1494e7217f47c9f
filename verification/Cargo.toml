[package]
name = "kubectl_view_rngd"
version = "0.1.0"
edition = "2021"
publish = false

[dependencies]
comfy-table = "7"
anyhow = "1"
clap = { version = "4", features = ["derive"] }
k8s-openapi = { version = "*", features = ["latest"] }
kube = { version = "*", default-features = false, features = ["client", "rustls-tls", "ring"] }
tokio = { version = "1", features = ["macros", "rt-multi-thread"] }
rustls = { version = "0.23", default-features = false, features = ["ring", "std"] }
tracing = "0.1"
tracing-subscriber = { version = "0.3", features = ["env-filter", "fmt"] }
