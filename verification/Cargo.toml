[package]
name = "ewm_state_machine"
version = "0.1.0"
edition = "2021"
publish = false

[dependencies]
sha1 = "0.10"
hex = "0.4"
serde = { version = "1", features = ["derive"] }
serde_json = "1"
thiserror = "1"
arrow = { version = "*", default-features = false, features = ["ipc"] }
