[package]
name = "owaf"
version = "0.1.0"
edition = "2021"
publish = false

[dependencies]
rand = "=0.8.8"
hcl-rs = "*"
serde = { version = "=1.0.229", features = ["derive"] }
salvo = { version = "=1.1.0", features = ["proxy", "cors", "logging"] }
tokio = { version = "=1.54.1", features = ["macros", "rt-multi-thread", "signal"] }
sqlx = { version = "=0.9.0", default-features = false, features = ["sqlite", "runtime-tokio"] }
tracing = "=0.1.44"
tracing-subscriber = "=0.3.23"
