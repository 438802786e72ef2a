[package]
name = "tpt_axiom"
version = "0.1.0"
edition = "2021"
publish = false

[dependencies]
num-traits = "0.2"
syn = { version = "2", features = ["full"] }
quote = "1"
proc-macro2 = "1"
proc-macro-crate = "3"
