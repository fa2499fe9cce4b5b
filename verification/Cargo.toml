[package]
name = "yaz0"
version = "0.1.0"
edition = "2021"
publish = false

[dependencies]
arrayvec = "*"
clap = "*"
indicatif = "*"
thiserror = "*"

[dev-dependencies]
rand = "*"
