[package]
name = "linkerd_failover"
version = "0.1.0"
edition = "2021"
publish = false

[dependencies]
env_logger = "0.9"
futures = "0.3"
handlebars = "4"
hyper = { version = "0.14", features = ["client", "http1", "runtime", "tcp"] }
k8s-openapi = { version = "0.11", default-features = false, features = ["v1_20"] }
kube = { version = "0.52", features = ["derive"] }
log = "0.4"
schemars = "0.8"
serde = { version = "1", features = ["derive"] }
serde_json = "1"
structopt = "0.3"
tokio = { version = "1", features = ["macros", "rt-multi-thread", "time"] }

[dev-dependencies]
regex = "1"
