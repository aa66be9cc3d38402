[package]
name = "gamey"
version = "0.1.0"
edition = "2021"
publish = false

[dependencies]
fixedbitset = { version = "0.5", default-features = false }
smallvec = "1"
