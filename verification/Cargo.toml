[package]
name = "stepwise"
version = "0.1.0"
edition = "2021"
publish = false

[dependencies]
egui = { version = "0.33", default-features = false }
