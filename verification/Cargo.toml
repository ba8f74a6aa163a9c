[package]
name = "snes-iris"
version = "0.1.0"
edition = "2021"
publish = false

[dependencies]
egui = "0.26"
egui_extras = { version = "0.26", default-features = false }
egui-phosphor = "0.4"
serde = { version = "1", features = ["derive"] }
serde_derive = "1"
serde_yaml = "0.9"
