[package]
name = "stencil"
version = "0.1.0"
edition = "2021"
publish = false

[dependencies]
log = "0.4"
once_cell = "1"
pin-project = "1"
serde = "1"
serde_derive = "1"
serde_json = "1"
