[package]
name = "ch347_flasher"
version = "0.1.0"
edition = "2021"
publish = false

[dependencies]
rusb = { version = "0.9", features = ["vendored"] }
serde = { version = "1", features = ["derive"] }
thiserror = "1"
parking_lot = "0.12"
