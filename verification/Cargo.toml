[package]
name = "qdb"
version = "0.1.0"
edition = "2021"
publish = false

[dependencies]
chrono = "0.4"
arrow-array = "*"
arrow-schema = "*"
datafusion = { version = "*", default-features = false }
serde = { version = "1", features = ["derive"] }
serde_json = "1"
clap = { version = "4", features = ["derive"] }
tokio = { version = "1", features = ["macros", "rt-multi-thread"] }
anyhow = "1"
thiserror = "*"
tracing = "0.1"
tracing-subscriber = { version = "0.3", features = ["env-filter", "fmt"] }
uuid = { version = "1", features = ["v4"] }
rand = { version = "0.8", features = ["small_rng"] }
rand_distr = "0.4"
