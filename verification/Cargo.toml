[package]
name = "amoeba_rl"
version = "1.0.0"
edition = "2021"
publish = false

[dependencies]
fastrand = "2"
macroquad = { version = "0.4", default-features = false }
