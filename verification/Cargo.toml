[package]
name = "vingress"
version = "0.1.0"
edition = "2021"
publish = false

[dependencies]
handlebars = "*"
serde_json = "*"
chrono = "*"
serde = { version = "*", features = ["derive"] }
log = "*"
env_logger = "*"
clap = { version = "*", features = ["derive", "env"] }
tokio = { version = "*", features = ["full"] }
futures = "*"
kube = { version = "*", features = ["client", "runtime", "derive"] }
k8s-openapi = { version = "*", features = ["latest"] }
