[package]
name = "gungraun_runner"
version = "0.1.0"
edition = "2021"
publish = false

[dependencies]
cargo_metadata = "0.19"
