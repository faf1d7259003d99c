[package]
name = "ami_helper"
version = "0.1.0"
edition = "2021"
publish = false

[dependencies]
aws-config = "*"
aws-sdk-ssm = "*"
aws-types = "*"
clap = "*"
futures-util = "*"
tokio = { version = "*", features = ["macros", "rt-multi-thread"] }

[dev-dependencies]
regex = "*"
