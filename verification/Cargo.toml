[package]
name = "http_forward"
version = "0.1.0"
edition = "2021"
publish = false

[dependencies]
md-5 = "0.10"
rand = "0.8"
tokio = { version = "1", features = ["full"] }
tokio-rustls = "0.23"
rustls-pemfile = "1"
env_logger = "0.9"
log = "0.4"
structopt = "0.3"

[dev-dependencies]
bincode = "1"
