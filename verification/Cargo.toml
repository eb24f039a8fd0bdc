[package]
name = "optiq"
version = "0.1.0"
edition = "2021"
publish = false

[dependencies]
md5 = "0.7"
serde = { version = "1", features = ["derive"] }
serde_json = "1"
rand = "0.8"
redis = "0.24"
typetag = "0.2"
axum = "0.6"
tokio = { version = "1", features = ["macros", "rt-multi-thread", "sync"] }
tracing = "0.1"
tracing-subscriber = "0.3"
kube = { version = "0.87", default-features = false, features = ["client"] }
k8s-openapi = { version = "0.20", features = ["v1_28"] }
