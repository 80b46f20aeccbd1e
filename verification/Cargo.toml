[package]
name = "patrol"
version = "0.1.0"
edition = "2021"
publish = false

[dependencies]
ac-library-rs = "0.1"
proconio = "0.4"
rand = "0.8"
rand_chacha = "0.3"
serde = { version = "1", features = ["derive"] }
actix-web = "4"
