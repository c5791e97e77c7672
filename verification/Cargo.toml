[package]
name = "comet_algorithms"
version = "0.1.0"
edition = "2021"
publish = false

[dependencies]
ciborium-io = { version = "=0.2.2", features = ["std"] }
ciborium-ll = "=0.2.2"
rustfft = "=6.4.1"
wasm-minimal-protocol = "=0.2.1"
