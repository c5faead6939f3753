[package]
name = "splitter"
version = "0.1.0"
edition = "2021"
publish = false

[dependencies]
anyhow = "1"
aws-config = "1"
aws-sdk-textract = "1"
clap = { version = "4", features = ["derive"] }
colored = "*"
titlecase = "*"
tokio = { version = "1", features = ["macros", "rt-multi-thread"] }
