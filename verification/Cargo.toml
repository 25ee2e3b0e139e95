[package]
name = "rmapbash"
version = "0.1.0"
edition = "2021"
publish = false

[dependencies]
bitreader = "0.3"
byteorder = "1"
clap = "2"
csv = "1"
flate2 = "1"
indicatif = "0.15"
num-traits = "0.2"
png = "0.16"
regex = "1"
serde = { version = "1", features = ["derive"] }
serde_json = "1"
