[package]
name = "ezagent"
version = "0.1.0"
edition = "2021"
publish = false

[dependencies]
serde = { version = "1", features = ["derive"] }
serde_json = "1"
toml = "*"
sha2 = "*"
hex = "*"
uuid = { version = "1", features = ["v7"] }
ulid = "*"
tokio = { version = "1", features = ["sync", "rt", "macros"] }
clap = { version = "4", features = ["derive"] }
dirs = "*"
thiserror = "*"
log = "*"
libloading = "*"
yrs = "*"
async-trait = "*"
rocksdb = { version = "*", default-features = false }
zenoh = { version = "*", default-features = false }
