[package]
name = "bevy_dioxus"
version = "0.1.0"
edition = "2021"
publish = false

[dependencies]
bevy = { version = "=0.12.1", default-features = false }
dioxus = { version = "=0.4.3", default-features = false }
