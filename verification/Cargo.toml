[package]
name = "redis_lunatic"
version = "0.1.0"
edition = "2021"
publish = false

[dependencies]
bytes = "=1.12.1"
clap = { version = "=4.6.7", features = ["derive"] }
lunatic = "=0.14.1"
serde = "=1.0.229"
thiserror = "*"
