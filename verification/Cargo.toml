[package]
name = "quaigh"
version = "0.1.0"
edition = "2021"
publish = false

[dependencies]
cat_solver = "*"
clap = { version = "4", features = ["derive"] }
