[package]
name = "change_store"
version = "0.1.0"
edition = "2021"
publish = false

[dependencies]
bytes = "1"
once_cell = "1"
fxhash = "0.2"
smallvec = "1"
