[package]
name = "workspace"
version = "0.1.0"
edition = "2021"
publish = false

[dependencies]
anstyle = "1"
chrono = { version = "0.4", features = ["serde"] }
clap = { version = "4", features = ["derive"] }
clap_complete = "4"
core-foundation = "*"
core-graphics = "*"
dialoguer = "*"
dirs = "*"
libc = "0.2"
objc = "0.2"
serde = { version = "1", features = ["derive"] }
serde_json = "1"
thiserror = "*"
tracing = "0.1"
tracing-subscriber = { version = "0.3", features = ["env-filter"] }
