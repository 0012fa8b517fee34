[package]
name = "vmdkrs"
version = "0.1.0"
edition = "2021"
publish = false

[dependencies]
byteorder = "1"
flate2 = "1"
regex = "1"
url = "2"
tokio = { version = "1", features = ["rt-multi-thread", "fs", "io-util"] }
futures = "0.3"
async-trait = "0.1"
rust-s3 = "*"
foyer = "*"
foyer-common = "*"
tempfile = "3"
thiserror = "2"
tracing = "0.1"
tracing-subscriber = { version = "0.3", features = ["env-filter"] }
clap = { version = "4", features = ["derive"] }
sha1 = "0.10"
hex = "0.4"
bytesize = "*"
