[package]
name = "font_layout"
version = "0.1.0"
edition = "2021"
publish = false

[dependencies]
rusttype = "0.9"
parking_lot = "0.12"
