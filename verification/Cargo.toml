[package]
name = "padwatch"
version = "0.1.0"
edition = "2021"
publish = false

[dependencies]
sha2 = "*"
pulldown-cmark = { version = "*", default-features = false }
url = "*"
anyhow = "*"
serde = { version = "*", features = ["derive"] }
toml = "*"
tokio = { version = "*", features = ["rt-multi-thread", "macros", "time", "fs"] }
reqwest = { version = "*", default-features = false, features = ["json", "rustls-tls"] }
structopt = "*"
chrono = { version = "*", features = ["serde"] }
similar = "*"
humantime-serde = "*"
