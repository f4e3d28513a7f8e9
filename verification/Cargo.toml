[package]
name = "mlserver"
version = "0.1.0"
edition = "2021"
publish = false

[dependencies]
async-trait = "0.1"
http = "0.2"
log = "0.4"
prost = "0.9"
rand = "0.8"
tokio = { version = "1", features = ["full"] }
tonic = "0.6"
