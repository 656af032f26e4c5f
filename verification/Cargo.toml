[package]
name = "gui_primes"
version = "0.1.0"
edition = "2021"
publish = false

[dependencies]
arboard = { version = "*", default-features = false }
eframe = { version = "*", default-features = false, features = ["default_fonts", "glow", "x11"] }
once_cell = "*"
