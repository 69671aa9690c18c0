[package]
name = "confrender"
version = "0.1.0"
edition = "2021"
publish = false

[dependencies]
sha2 = "*"
serde_json = "*"
anyhow = "*"
aws-config = "*"
aws-sdk-ssm = "*"
aws-sdk-secretsmanager = "*"
clap = { version = "*", features = ["derive"] }
handlebars = "*"
serde = { version = "*", features = ["derive"] }
serde_yaml = "*"
tokio = { version = "*", features = ["rt-multi-thread", "macros"] }
