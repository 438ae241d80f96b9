[package]
name = "hl_oracle"
version = "0.1.0"
edition = "2021"
publish = false

[dependencies]
anyhow = "1"
bytes = "1"
clap = { version = "4", features = ["derive"] }
crossterm = "*"
fastwebsockets = { version = "*", features = ["upgrade"] }
http-body-util = "0.1"
hyper = { version = "1", features = ["client", "http1"] }
hyper-util = { version = "0.1", features = ["tokio"] }
kanal = "*"
prost = { version = "*", features = ["derive"] }
ratatui = "*"
rustls = { version = "0.23", default-features = false, features = ["std", "ring", "tls12", "logging"] }
serde = { version = "1", features = ["derive"] }
serde_json = { version = "1", features = ["raw_value"] }
tokio = { version = "1", features = ["full"] }
tokio-rustls = { version = "0.26", default-features = false, features = ["ring", "tls12", "logging"] }
tracing = "0.1"
tracing-subscriber = "0.3"
url = "2"
webpki-roots = "*"
