[package]
name = "ric3"
version = "0.1.0"
edition = "2021"
publish = false

[dependencies]
giputils = "=0.3.6"
once_cell = "=1.21.4"
clap = { version = "=4.6.7", features = ["derive"] }
