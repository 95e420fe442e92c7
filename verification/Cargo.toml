[package]
name = "aegle"
version = "0.1.0"
edition = "2021"
publish = false

[dependencies]
rand = "=0.8.8"
serde = { version = "=1.0.229", features = ["derive"] }
serde_json = "=1.0.154"
bincode = "=1.3.3"
bitvec = "=1.1.1"
tokio = { version = "=1.54.1", features = ["full"] }
quinn = { version = "=0.11.12", default-features = false, features = ["runtime-tokio", "rustls-ring"] }
rustls = { version = "=0.23.46", default-features = false, features = ["ring", "std", "logging", "tls12"] }
rustls-pemfile = "=2.2.0"
clap = { version = "=4.6.7", features = ["derive"] }
tracing = "=0.1.44"
tracing-subscriber = { version = "=0.3.23", features = ["env-filter", "json"] }
tracing-appender = "0.2"
uuid = { version = "=1.29.0", features = ["v4", "serde"] }
statrs = "=0.17.1"
toml = "=0.8.23"
ureq = { version = "=3.5.1", features = ["json"] }
ndarray = "=0.16.1"
rayon = "=1.12.0"
tokio-util = "=0.7.20"
duration-str = "*"
