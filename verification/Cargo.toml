[package]
name = "gstxwm"
version = "0.1.0"
edition = "2021"
publish = false

[dependencies]
gstreamer = "0.23"
