[package]
name = "healthkube"
version = "0.1.0"
edition = "2021"
publish = false

[dependencies]
anyhow = "1"
clap = { version = "3", features = ["derive", "env"] }
healthchecks = "*"
k8s-openapi = { version = "0.14", default-features = false, features = ["v1_22"] }
kube = { version = "0.69", default-features = false, features = ["client", "rustls-tls"] }
tokio = { version = "1", features = ["macros", "rt"] }
