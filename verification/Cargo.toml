[package]
name = "memsearch"
version = "0.1.0"
edition = "2021"
publish = false

[dependencies]
bitflags = "=2.13.2"
ilhook = "=2.3.0"
mlua = { version = "=0.12.2", features = ["lua54", "module"] }
