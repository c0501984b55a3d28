[package]
name = "sand_sim"
version = "0.1.0"
edition = "2021"
publish = false

[dependencies]
macroquad = "0.4.14"
miniquad = "0.4"
