[package]
name = "green"
version = "0.1.0"
edition = "2021"
publish = false

[dependencies]
axum = "*"
clap = { version = "*", features = ["derive"] }
derive_more = { version = "*", features = ["into_iterator"] }
reqwest = { version = "*", default-features = false, features = ["json"] }
serde = { version = "*", features = ["derive"] }
serde_json = "*"
strum = { version = "*", features = ["derive"] }
thiserror = "*"
time = { version = "*", features = ["serde", "formatting", "parsing"] }
tokio = { version = "*", features = ["macros", "rt-multi-thread", "fs", "net"] }
toml = "*"
tower-http = { version = "*", features = ["trace", "fs"] }
tracing = "*"
tracing-subscriber = { version = "*", features = ["env-filter", "json"] }
url = { version = "*", features = ["serde"] }
