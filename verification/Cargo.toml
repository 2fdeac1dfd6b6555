[package]
name = "ktane_utils"
version = "0.1.0"
edition = "2021"
publish = false

[dependencies]
ordinal = "*"
rand = "0.6"
smallvec = "1"
