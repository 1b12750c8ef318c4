[package]
name = "arachnida"
version = "0.1.0"
edition = "2021"
publish = false

[dependencies]
url = "2"
regex = "1"
nom = "8"
minreq = "2"
clap = { version = "4", features = ["derive"] }
