[package]
name = "tenor"
version = "0.1.0"
edition = "2021"
publish = false

[dependencies]
chrono = "0.4"
clap = { version = "4", features = ["derive"] }
nom = "7"
termcolor = "1"
