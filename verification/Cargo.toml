[package]
name = "rust-lambda-middleware-example"
version = "0.1.0"
edition = "2021"
publish = false

[dependencies]
async-trait = "0.1"
aws-config = { version = "1", features = ["behavior-version-latest"] }
aws-sdk-dynamodb = "1"
http = "1"
lambda_http = "*"
serde = { version = "1", features = ["derive"] }
serde_json = "1"
thiserror = "*"
tokio = { version = "1", features = ["macros", "rt-multi-thread"] }
tower = { version = "*", features = ["util"] }
tower-http = { version = "*", features = ["cors"] }
