[package]
name = "dicepw"
version = "0.1.0"
edition = "2021"
publish = false

[dependencies]
rand = "0.8"
rand_chacha = "0.3"
serde = { version = "1", features = ["derive"] }
hex = "0.4"
rpassword = "7"
sha1 = "0.10"
