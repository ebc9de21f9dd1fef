[package]
name = "gridpath"
version = "0.1.0"
edition = "2021"

[dependencies]
macroquad = { version = "*", default-features = false }
