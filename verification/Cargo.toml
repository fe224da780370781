[package]
name = "graph_visualizer"
version = "0.1.0"
edition = "2021"
publish = false

[dependencies]
console_error_panic_hook = "0.1"
eframe = { version = "0.20", default-features = false, features = ["default_fonts", "glow"] }
egui = "0.20"
instant = "0.1"
rand = "0.8"
tracing-subscriber = "0.3"
tracing-wasm = "0.2"
