[package]
name = "forge"
version = "0.1.0"
edition = "2021"
publish = false

[dependencies]
smallvec = "1"
rustc-hash = "2"
libc = "0.2"
clap = { version = "4", features = ["derive"] }

[dev-dependencies]
rand = "0.8"
rand_chacha = "0.3"
