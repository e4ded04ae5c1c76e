[package]
name = "websnark_rs"
version = "0.1.0"
edition = "2021"
publish = false

[dependencies]
ark-bn254 = "0.5"
ark-ff = "0.5"
ark-ec = "0.5"
ark-poly = "0.5"
ark-serialize = "0.5"
num-bigint = "0.4"
num-traits = "0.2"
rand = "0.9"
serde = { version = "1", features = ["derive"] }
serde_json = "1"
postcard = { version = "1", features = ["use-std"] }
rustc-hash = "2"
thiserror = "2"
anyhow = "1"
clap = { version = "4", features = ["derive"] }
