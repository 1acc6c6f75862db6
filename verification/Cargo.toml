[package]
name = "wasmedgeup"
version = "0.1.0"
edition = "2021"
publish = false

[dependencies]
semver = "1"
cfg-if = "1"
clap = { version = "4", features = ["derive"] }
dirs = "*"
flate2 = "1"
git2 = { version = "*", default-features = false }
indicatif = "*"
reqwest = { version = "*", default-features = false, features = ["rustls-tls"] }
snafu = "*"
tar = "*"
tempfile = "3"
tokio = { version = "1", features = ["macros", "rt-multi-thread", "fs", "io-util"] }
tracing = "*"
tracing-subscriber = "*"
url = "2"
walkdir = "2"
zip = "*"
