[package]
name = "bash_operator"
version = "0.1.0"
edition = "2021"
publish = false

[dependencies]
clap = { version = "=4.6.7", features = ["derive", "env"] }
futures = "=0.3.34"
kube = { version = "=3.1.0", features = ["runtime", "client"] }
k8s-openapi = { version = "=0.27.1", features = ["latest"] }
serde_json = "=1.0.151"
serde_yaml = "=0.9.34"
tempfile = "=3.27.0"
thiserror = "=2.0.21"
tokio = { version = "=1.53.2", features = ["macros", "rt-multi-thread", "process"] }
tracing = "=0.1.44"
tracing-subscriber = "=0.3.23"
