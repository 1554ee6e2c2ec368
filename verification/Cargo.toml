[package]
name = "pai_sho"
version = "0.6.0"
edition = "2021"
publish = false

[dependencies]
anyhow = "1"
clap = { version = "4", default-features = false, features = ["std", "derive", "help", "usage", "error-context"] }
dashmap = "=6.2.1"
iroh = { version = "=1.4.1", default-features = false, features = ["tls-ring"] }
libc = "0.2"
rand = "=0.10.3"
serde = { version = "1", features = ["derive"] }
serde_json = "1"
tokio = { version = "1", features = ["full"] }
tokio-smoltcp = "0.7"
tracing = "0.1"
tracing-subscriber = { version = "0.3", features = ["env-filter"] }
