[package]
name = "btrfs-peek"
version = "0.1.0"
edition = "2021"
publish = false

[dependencies]
anyhow = "1"
clap = { version = "4", features = ["derive", "env"] }
crc32c = "0.6"
filetime = "0.2"
flate2 = "1"
globset = "0.4"
lzokay-native = "*"
ruzstd = "0.8"
serde = { version = "1", features = ["derive"] }
serde_json = "1"
