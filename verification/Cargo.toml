[package]
name = "arwen-codesign"
version = "0.1.0"
edition = "2021"
publish = false

[dependencies]
sha2 = "0.11"
thiserror = "=2.0.21"
tempfile = "=3.27.0"
clap = { version = "=4.6.7", features = ["derive"] }
