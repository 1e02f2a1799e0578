[package]
name = "phf"
version = "0.1.0"
edition = "2021"
publish = false

[dependencies]
fastrand = "=2.5.0"
siphasher = "=1.0.4"
serde = "=1.0.229"
syn = { version = "=2.0.119", features = ["full"] }
quote = "=1.0.47"
proc-macro2 = "=1.0.107"
rand_xorshift = "0.3"
rand_core = "0.6"
