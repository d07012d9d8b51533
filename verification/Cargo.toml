[package]
name = "btcore"
version = "0.1.0"
edition = "2021"
publish = false

[dependencies]
sha1 = "0.10"
hex = "0.4"
const-hex = "1"
rand = "0.8"
urlencoding = "2"
reqwest = { version = "0.12", default-features = false, features = ["blocking"] }
tokio = { version = "1", default-features = false, features = ["rt-multi-thread", "macros", "net", "io-util", "fs"] }
clap = { version = "4", features = ["derive"] }
