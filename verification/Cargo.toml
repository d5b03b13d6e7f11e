[package]
name = "numtheory"
version = "0.1.0"
edition = "2021"
publish = false

[dependencies]
num-bigint = { version = "=0.4.8", features = ["rand"] }
num-integer = "=0.1.47"
rand = "0.8"

[dev-dependencies]
num-traits = "=0.2.19"
