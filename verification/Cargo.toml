[package]
name = "neuxcfg"
version = "0.3.0"
edition = "2021"
publish = false

[dependencies]
dirs = "5"
fs2 = "0.4"
serde = { version = "1", features = ["derive"] }
thiserror = "2"
toml = "0.8"
uuid = { version = "1", features = ["v4"] }

[dev-dependencies]
tempfile = "3"
