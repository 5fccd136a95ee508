[package]
name = "keybinds"
version = "0.1.0"
edition = "2021"
publish = false

[dependencies]
xcb = { version = "=1.7.1", features = ["randr"] }
