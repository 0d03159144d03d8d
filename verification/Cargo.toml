[package]
name = "pack_index"
version = "0.1.0"
edition = "2021"
publish = false

[dependencies]
sha1_smol = "*"
filebuffer = "*"
serde = { version = "*", features = ["derive"] }
