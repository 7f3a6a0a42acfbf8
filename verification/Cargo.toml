[package]
name = "ragstore"
version = "0.1.0"
edition = "2021"
publish = false

[dependencies]
rusqlite = { version = "*", features = ["bundled"] }
serde_json = "*"
clap = { version = "*", features = ["derive"] }
pdf-extract = "*"
tokio = { version = "*", features = ["macros", "rt"] }
chrono = "*"
aws-config = "*"
aws-sdk-s3 = "*"
aws-sdk-bedrockruntime = "*"
lambda_http = "*"
