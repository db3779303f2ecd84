[package]
name = "win32"
version = "0.1.0"
edition = "2021"
publish = false

[dependencies]
log = "0.4"
proc-macro2 = "1"
quote = "1"
serde = { version = "1", features = ["derive"] }
syn = { version = "2", features = ["full"] }
