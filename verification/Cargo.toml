[package]
name = "bisectrunk"
version = "0.1.2"
edition = "2021"
publish = false

[dependencies]
anyhow = "1"
blake3 = "1"
clap = { version = "4", features = ["derive"] }
crossbeam-channel = "0.5"
ctrlc = "3"
etcetera = "0.11"
git2 = { version = "0.20", default-features = false, features = ["vendored-libgit2"] }
humantime = "2"
indicatif = "*"
jiff = "0.2"
regex = "1"
serde = { version = "1", features = ["derive"] }
serde_json = "1"
similar = "2"
tempfile = "3"
toml = "*"
xshell = "0.2"
