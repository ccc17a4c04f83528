[package]
name = "solitaire"
version = "0.1.0"
edition = "2021"
publish = false

[dependencies]
anyhow = "=1.0.104"
clap = { version = "=4.6.7", features = ["derive"] }
rand = "=0.8.8"
thiserror = "=1.0.69"

[dev-dependencies]
itertools = "=0.10.5"
regex = "=1.13.1"
