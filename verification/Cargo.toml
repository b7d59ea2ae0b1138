[package]
name = "boolean_inference"
version = "0.1.0"
edition = "2021"
publish = false

[dependencies]
good_lp = { version = "*", default-features = false, features = ["highs"] }
num-bigint = "0.4"
num-rational = "0.4"
num-traits = "0.2"
rustc-hash = "*"
rustsat = "*"
rustsat-cadical = "*"
serde = { version = "1", features = ["derive"] }
serde_json = "1"
thiserror = "*"
