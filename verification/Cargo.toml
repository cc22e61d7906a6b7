[package]
name = "schemerz"
version = "0.2.0"
edition = "2021"
publish = false

[dependencies]
daggy = "0.8"
itertools = "*"
log = "0.4"
thiserror = "1"
uuid = "1"
rusqlite = { version = "*", features = ["bundled"] }
