[package]
name = "decree"
version = "0.1.0"
edition = "2021"
publish = false

[dependencies]
thiserror = "1"
syn = { version = "1", features = ["full"] }
quote = "1"
proc-macro2 = "1"
