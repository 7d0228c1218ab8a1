[package]
name = "scheduler"
version = "0.1.0"
edition = "2021"
publish = false

[dependencies]
argon2 = "=0.5.3"
async-trait = "=0.1.92"
chrono = { version = "=0.4.45", features = ["serde"] }
poem = "=3.1.12"
serde = { version = "=1.0.229", features = ["derive"] }
serde_json = "=1.0.151"
sqlx = { version = "=0.9.0", default-features = false, features = ["sqlite", "runtime-tokio"] }
tokio = { version = "=1.53.2", features = ["macros", "rt-multi-thread"] }
uuid = { version = "=1.27.0", features = ["v4"] }
