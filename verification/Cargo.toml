[package]
name = "rts_engine"
version = "0.1.0"
edition = "2021"
publish = false

[dependencies]
egui = "=0.28.1"
