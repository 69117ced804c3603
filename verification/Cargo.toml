[package]
name = "ssm_env"
version = "0.1.0"
edition = "2021"
publish = false

[dependencies]
serde_json = { version = "1", features = ["preserve_order"] }
aws-config = "*"
aws-sdk-ssm = "*"
aws-smithy-http = "*"
http = "*"
clap = { version = "4", features = ["derive", "env"] }
tokio = { version = "1", features = ["macros", "rt-multi-thread"] }
