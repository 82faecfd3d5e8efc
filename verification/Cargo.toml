[package]
name = "fx_trade_manager"
version = "0.1.0"
edition = "2021"
publish = false

[dependencies]
chrono = "0.4"
chrono-tz = "*"
csv = "1"
encoding_rs = "0.8"
encoding_rs_io = "0.1"
rusqlite = { version = "*", features = ["bundled"] }
serde = { version = "1", features = ["derive"] }
