[package]
name = "carton_runner_interface"
version = "0.1.0"
edition = "2021"
publish = false

[dependencies]
serde = { version = "1", features = ["derive"] }
ndarray = { version = "0.15", features = ["serde"] }
syn = { version = "2", features = ["full"] }
quote = "1"
proc-macro2 = "1"
