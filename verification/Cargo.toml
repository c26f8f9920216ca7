[package]
name = "radio_replay"
version = "0.1.0"
edition = "2021"
publish = false

[dependencies]
async-std = { version = "1", features = ["attributes"] }
futures = "0.3"
hound = "3"
lame = "*"
reqwest = { version = "*", default-features = false, features = ["blocking"] }
simplemad = "*"
tide = "0.16"
