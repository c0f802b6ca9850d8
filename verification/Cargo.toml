[package]
name = "caseproxy"
version = "0.1.0"
edition = "2021"
publish = false

[dependencies]
anyhow = "*"
argfile = "*"
clap = { version = "*", features = ["derive"] }
futures-util = "*"
http-body-util = "*"
hyper = { version = "*", features = ["http1", "server"] }
hyper-util = { version = "*", features = ["tokio"] }
sha3 = "*"
tokio = { version = "*", features = ["full"] }
tokio-util = { version = "*", features = ["io"] }
