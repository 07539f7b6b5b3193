[package]
name = "procedural_spider"
version = "0.1.0"
edition = "2021"
publish = false

[dependencies]
macroquad = { version = "=0.4.16", features = ["audio"] }
egui-macroquad = "=0.17.3"
